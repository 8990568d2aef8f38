//! A type-indexed store holding at most one value per numeric type
//! identifier.
//!
//! The map abstracts to a [`Map`] from type identifier to value. It backs
//! two roles in the crate: the singleton resource registry of a
//! [`crate::world::World`], and the world's index from component type to
//! column.

use vstd::prelude::*;

verus! {

/// No two entries share a key.
pub open spec fn keys_distinct<V>(s: Seq<(u64, V)>) -> bool {
    forall|i: int, j: int| 0 <= i < j < s.len() ==> (#[trigger] s[i]).0 != (#[trigger] s[j]).0
}

/// Some entry carries the key `k`.
pub open spec fn entries_contain<V>(s: Seq<(u64, V)>, k: u64) -> bool {
    exists|i: int| 0 <= i < s.len() && (#[trigger] s[i]).0 == k
}

/// The position of the entry carrying `k` (meaningful when one exists and
/// keys are distinct).
pub open spec fn entry_index_of<V>(s: Seq<(u64, V)>, k: u64) -> int {
    choose|i: int| 0 <= i < s.len() && (#[trigger] s[i]).0 == k
}

/// The mathematical content of an entry sequence: the finite map from key
/// to stored value.
pub open spec fn entries_view<V>(s: Seq<(u64, V)>) -> Map<u64, V> {
    Map::new(|k: u64| entries_contain(s, k), |k: u64| s[entry_index_of(s, k)].1)
}

/// With distinct keys, the entry holding `s[i].0` is the entry at `i`.
proof fn lemma_entry_index<V>(s: Seq<(u64, V)>, i: int)
    requires
        keys_distinct(s),
        0 <= i < s.len(),
    ensures
        entry_index_of(s, s[i].0) == i,
        entries_contain(s, s[i].0),
{
    let k = s[i].0;
    assert(entries_contain(s, k));
    let j = entry_index_of(s, k);
    assert(0 <= j < s.len() && s[j].0 == k);
}

/// Overwriting the value at position `i` updates the map at that entry's
/// key and leaves every other key alone.
proof fn lemma_view_update<V>(s: Seq<(u64, V)>, i: int, v: V)
    requires
        keys_distinct(s),
        0 <= i < s.len(),
    ensures
        keys_distinct(s.update(i, (s[i].0, v))),
        entries_view(s.update(i, (s[i].0, v))) == entries_view(s).insert(s[i].0, v),
{
    let k = s[i].0;
    let s2 = s.update(i, (k, v));
    assert forall|j: int| 0 <= j < s2.len() implies (#[trigger] s2[j]).0 == s[j].0 by {}
    assert forall|k2: u64| entries_contain(s2, k2) == entries_contain(s, k2) by {
        if entries_contain(s2, k2) {
            let j = choose|j: int| 0 <= j < s2.len() && (#[trigger] s2[j]).0 == k2;
            assert(s[j].0 == k2);
        }
        if entries_contain(s, k2) {
            let j = choose|j: int| 0 <= j < s.len() && (#[trigger] s[j]).0 == k2;
            assert(s2[j].0 == k2);
        }
    }
    assert forall|k2: u64| #[trigger]
        entries_view(s2).contains_key(k2) implies entries_view(s2)[k2] == entries_view(s).insert(
        k,
        v,
    )[k2] by {
        let j = entry_index_of(s2, k2);
        assert(0 <= j < s2.len() && s2[j].0 == k2);
        lemma_entry_index(s2, j);
        if k2 == k {
            assert(j == i) by {
                if j != i {
                    assert(s[j].0 == k2);
                    lemma_entry_index(s, j);
                    lemma_entry_index(s, i);
                }
            }
        } else {
            assert(j != i);
            assert(s[j].0 == k2);
            lemma_entry_index(s, j);
        }
    }
    assert(entries_view(s2) =~= entries_view(s).insert(k, v));
}

/// Appending an entry with a fresh key extends the map at that key.
proof fn lemma_view_push<V>(s: Seq<(u64, V)>, k: u64, v: V)
    requires
        keys_distinct(s),
        !entries_contain(s, k),
    ensures
        keys_distinct(s.push((k, v))),
        entries_view(s.push((k, v))) == entries_view(s).insert(k, v),
{
    let s2 = s.push((k, v));
    assert forall|i: int, j: int| 0 <= i < j < s2.len() implies (#[trigger] s2[i]).0 != (
    #[trigger] s2[j]).0 by {
        if j < s.len() {
            assert(s2[i] == s[i] && s2[j] == s[j]);
        } else {
            assert(s2[i] == s[i] && s2[j].0 == k);
        }
    }
    assert forall|k2: u64| entries_contain(s2, k2) == (entries_contain(s, k2) || k2 == k) by {
        if entries_contain(s2, k2) {
            let j = choose|j: int| 0 <= j < s2.len() && (#[trigger] s2[j]).0 == k2;
            if j < s.len() {
                assert(s[j].0 == k2);
            }
        }
        if entries_contain(s, k2) {
            let j = choose|j: int| 0 <= j < s.len() && (#[trigger] s[j]).0 == k2;
            assert(s2[j].0 == k2);
        }
        assert(s2[s.len() as int].0 == k);
    }
    assert forall|k2: u64| #[trigger]
        entries_view(s2).contains_key(k2) implies entries_view(s2)[k2] == entries_view(s).insert(
        k,
        v,
    )[k2] by {
        let j = entry_index_of(s2, k2);
        assert(0 <= j < s2.len() && s2[j].0 == k2);
        lemma_entry_index(s2, j);
        if k2 == k {
            assert(j == s.len()) by {
                if j < s.len() {
                    assert(entries_contain(s, k2));
                }
            }
        } else {
            assert(j < s.len());
            assert(s[j].0 == k2);
            lemma_entry_index(s, j);
        }
    }
    assert(entries_view(s2) =~= entries_view(s).insert(k, v));
}

/// Deleting the entry at position `i` removes exactly that entry's key
/// from the map.
proof fn lemma_view_remove<V>(s: Seq<(u64, V)>, i: int)
    requires
        keys_distinct(s),
        0 <= i < s.len(),
    ensures
        keys_distinct(s.remove(i)),
        entries_view(s.remove(i)) == entries_view(s).remove(s[i].0),
{
    let k = s[i].0;
    let s2 = s.remove(i);
    assert forall|j: int| 0 <= j < s2.len() implies #[trigger] s2[j] == (if j < i {
        s[j]
    } else {
        s[j + 1]
    }) by {}
    assert forall|a: int, b: int| 0 <= a < b < s2.len() implies (#[trigger] s2[a]).0 != (
    #[trigger] s2[b]).0 by {}
    assert forall|k2: u64| entries_contain(s2, k2) == (entries_contain(s, k2) && k2 != k) by {
        if entries_contain(s2, k2) {
            let j = choose|j: int| 0 <= j < s2.len() && (#[trigger] s2[j]).0 == k2;
            if j < i {
                assert(s[j].0 == k2);
                lemma_entry_index(s, j);
                lemma_entry_index(s, i);
            } else {
                assert(s[j + 1].0 == k2);
                lemma_entry_index(s, j + 1);
                lemma_entry_index(s, i);
            }
        }
        if entries_contain(s, k2) && k2 != k {
            let j = choose|j: int| 0 <= j < s.len() && (#[trigger] s[j]).0 == k2;
            if j < i {
                assert(s2[j].0 == k2);
            } else {
                assert(j != i);
                assert(s2[j - 1].0 == k2);
            }
        }
    }
    assert forall|k2: u64| #[trigger]
        entries_view(s2).contains_key(k2) implies entries_view(s2)[k2] == entries_view(s).remove(
        k,
    )[k2] by {
        let j = entry_index_of(s2, k2);
        assert(0 <= j < s2.len() && s2[j].0 == k2);
        lemma_entry_index(s2, j);
        if j < i {
            assert(s[j].0 == k2);
            lemma_entry_index(s, j);
        } else {
            assert(s[j + 1].0 == k2);
            lemma_entry_index(s, j + 1);
        }
    }
    assert(entries_view(s2) =~= entries_view(s).remove(k));
}

/// A store of at most one value per numeric type identifier.
///
/// Inserting for an identifier that is already present replaces the old
/// value; there is no identity beyond the identifier.
pub struct ResourceMap<R> {
    entries: Vec<(u64, R)>,
}

impl<R> View for ResourceMap<R> {
    type V = Map<u64, R>;

    closed spec fn view(&self) -> Map<u64, R> {
        entries_view(self.entries@)
    }
}

impl<R> ResourceMap<R> {
    /// The map's internal invariant: one entry per identifier.
    pub closed spec fn wf(&self) -> bool {
        keys_distinct(self.entries@)
    }

    pub fn new() -> (r: Self)
        ensures
            r.wf(),
            r@ == Map::<u64, R>::empty(),
    {
        let r = ResourceMap { entries: Vec::new() };
        proof {
            assert(r@ =~= Map::<u64, R>::empty());
        }
        r
    }

    /// The position of `type_id`'s entry, if the map holds one.
    fn position_of(&self, type_id: u64) -> (r: Option<usize>)
        ensures
            match r {
                Some(i) => i < self.entries@.len() && self.entries@[i as int].0 == type_id,
                None => !entries_contain(self.entries@, type_id),
            },
    {
        let mut i: usize = 0;
        while i < self.entries.len()
            invariant
                i <= self.entries@.len(),
                forall|j: int| 0 <= j < i ==> (#[trigger] self.entries@[j]).0 != type_id,
            decreases self.entries@.len() - i,
        {
            if self.entries[i].0 == type_id {
                return Some(i);
            }
            i = i + 1;
        }
        None
    }

    /// Retrieve the value stored for `type_id`, if it exists.
    pub fn get(&self, type_id: u64) -> (r: Option<&R>)
        requires
            self.wf(),
        ensures
            r.is_some() == self@.contains_key(type_id),
            r.is_some() ==> *r.unwrap() == self@[type_id],
    {
        match self.position_of(type_id) {
            Some(i) => {
                proof {
                    lemma_entry_index(self.entries@, i as int);
                }
                Some(&self.entries[i].1)
            },
            None => None,
        }
    }

    /// Retrieve a mutable reference to the value stored for `type_id`, if
    /// it exists.
    pub fn get_mut(&mut self, type_id: u64) -> (r: Option<&mut R>)
        requires
            old(self).wf(),
        ensures
            final(self).wf(),
            r.is_some() == old(self)@.contains_key(type_id),
            r.is_none() ==> final(self)@ == old(self)@,
            r.is_some() ==> *r.unwrap() == old(self)@[type_id] && final(self)@ == old(
                self,
            )@.insert(type_id, *final(r.unwrap())),
    {
        match self.position_of(type_id) {
            Some(i) => {
                proof {
                    lemma_entry_index(self.entries@, i as int);
                    assert forall|v: R|
                        keys_distinct(self.entries@.update(i as int, (type_id, v)))
                            && entries_view(self.entries@.update(i as int, (type_id, v)))
                            == entries_view(self.entries@).insert(type_id, v) by {
                        lemma_view_update(self.entries@, i as int, v);
                    }
                }
                Some(&mut self.entries[i].1)
            },
            None => None,
        }
    }

    /// Set the value stored for `type_id`, replacing any previous value.
    pub fn insert(&mut self, type_id: u64, value: R)
        requires
            old(self).wf(),
        ensures
            final(self).wf(),
            final(self)@ == old(self)@.insert(type_id, value),
    {
        match self.position_of(type_id) {
            Some(i) => {
                proof {
                    lemma_entry_index(self.entries@, i as int);
                    lemma_view_update(self.entries@, i as int, value);
                }
                self.entries[i] = (type_id, value);
            },
            None => {
                proof {
                    lemma_view_push(self.entries@, type_id, value);
                }
                self.entries.push((type_id, value));
            },
        }
    }

    /// Remove the value stored for `type_id`, if any.
    pub fn remove(&mut self, type_id: u64)
        requires
            old(self).wf(),
        ensures
            final(self).wf(),
            final(self)@ == old(self)@.remove(type_id),
    {
        match self.position_of(type_id) {
            Some(i) => {
                proof {
                    lemma_view_remove(self.entries@, i as int);
                }
                self.entries.remove(i);
            },
            None => {
                proof {
                    assert(self@ =~= self@.remove(type_id));
                }
            },
        }
    }
}

} // verus!
