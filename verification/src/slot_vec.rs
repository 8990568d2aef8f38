//! The generic slot vector: a sparse, growable column addressed by
//! [`Handle`], holding at most one value per slot.
//!
//! Each occupied slot remembers the generation it was written with, and a
//! read succeeds only when the reading handle carries that same generation;
//! on a mismatch the slot is treated as empty for that handle. The vector
//! never bumps generations itself — that is the allocator's job — it is a
//! plain occupancy map consulted after the allocator has vouched for the
//! handle.

use crate::handle::Handle;
use vstd::prelude::*;
use vstd::pervasive::unreached;

verus! {

/// One occupied slot: the stored value plus the generation of the handle
/// that wrote it.
pub struct Slot<T> {
    pub value: T,
    pub generation: u64,
}

impl<T> Slot<T> {
    pub fn new(value: T, generation: u64) -> (r: Self)
        ensures
            r.value == value,
            r.generation == generation,
    {
        Slot { value, generation }
    }
}

/// The raw storage of a column: one optional slot per index.
pub type SlotVec<T> = Vec<Option<Slot<T>>>;

/// Failure of a handle-keyed operation: the handle names no currently
/// allocated entity.
#[derive(Clone, Copy, Debug, PartialEq, Eq, Structural)]
pub struct HandleNotFoundError {
    pub handle: Handle,
}

/// The value a handle reads from a column: present only when the index is
/// in range, the slot is occupied, and the stored generation matches.
pub open spec fn spec_slot_get<T>(col: Seq<Option<Slot<T>>>, h: Handle) -> Option<T> {
    if h.index < col.len() {
        match col[h.index as int] {
            Some(slot) => if slot.generation == h.generation {
                Some(slot.value)
            } else {
                None
            },
            None => None,
        }
    } else {
        None
    }
}

/// A column padded with empty slots up to length `n` (or unchanged if it is
/// already that long).
pub open spec fn spec_grow<T>(col: Seq<Option<Slot<T>>>, n: int) -> Seq<Option<Slot<T>>> {
    if n <= col.len() {
        col
    } else {
        col + Seq::new((n - col.len()) as nat, |i: int| None::<Slot<T>>)
    }
}

/// The column after `insert(h, v)`: grown to cover `h.index`, with that
/// slot overwritten by `v` at the handle's generation.
pub open spec fn spec_col_insert<T>(col: Seq<Option<Slot<T>>>, h: Handle, v: T) -> Seq<
    Option<Slot<T>>,
> {
    spec_grow(col, h.index + 1).update(
        h.index as int,
        Some(Slot { value: v, generation: h.generation }),
    )
}

/// The column after `remove(h)`: the slot is cleared only when the handle
/// could read it, otherwise nothing changes.
pub open spec fn spec_col_remove<T>(col: Seq<Option<Slot<T>>>, h: Handle) -> Seq<Option<Slot<T>>> {
    if spec_slot_get(col, h).is_some() {
        col.update(h.index as int, None)
    } else {
        col
    }
}

/// A growable sequence of generation-stamped slots, addressed by handle.
pub struct GenerationalVec<T> {
    slots: SlotVec<T>,
}

impl<T> View for GenerationalVec<T> {
    type V = Seq<Option<Slot<T>>>;

    closed spec fn view(&self) -> Seq<Option<Slot<T>>> {
        self.slots@
    }
}

impl<T> Default for GenerationalVec<T> {
    fn default() -> (r: Self)
        ensures
            r@ == Seq::<Option<Slot<T>>>::empty(),
    {
        GenerationalVec { slots: Vec::new() }
    }
}

impl<T> GenerationalVec<T> {
    pub fn new(slots: SlotVec<T>) -> (r: Self)
        ensures
            r@ == slots@,
    {
        GenerationalVec { slots }
    }

    /// The number of slots the column currently spans, occupied or not.
    pub fn len(&self) -> (r: usize)
        ensures
            r == self@.len(),
    {
        self.slots.len()
    }

    /// Stores `value` for `handle`, growing the column as needed. The write
    /// is keyed by the handle's generation; any value the slot held for the
    /// index's current occupancy is overwritten. The caller is expected to
    /// have validated the handle against the owning allocator, so the
    /// operation itself always succeeds.
    pub fn insert(&mut self, handle: Handle, value: T) -> (r: Result<(), HandleNotFoundError>)
        ensures
            r.is_ok(),
            final(self)@ == spec_col_insert(old(self)@, handle, value),
    {
        let ghost col0 = self@;
        while self.slots.len() <= handle.index
            invariant
                col0.len() <= self@.len(),
                self@.len() <= handle.index + 1 || self@.len() == col0.len(),
                self@ == spec_grow(col0, self@.len() as int),
            decreases handle.index + 1 - self@.len(),
        {
            self.slots.push(None);
            proof {
                assert(self@ =~= spec_grow(col0, self@.len() as int));
            }
        }
        self.slots[handle.index] = Some(Slot { value, generation: handle.generation });
        proof {
            assert(self@ =~= spec_col_insert(col0, handle, value));
        }
        Ok(())
    }

    /// Reads the value for `handle`: present only when the slot exists, is
    /// occupied, and was written with the handle's generation. An
    /// out-of-range index is treated as absence, never a panic.
    pub fn get(&self, handle: Handle) -> (r: Option<&T>)
        ensures
            r.is_some() == spec_slot_get(self@, handle).is_some(),
            r.is_some() ==> spec_slot_get(self@, handle) == Some(*r.unwrap()),
    {
        if handle.index < self.slots.len() {
            match &self.slots[handle.index] {
                Some(slot) => if slot.generation == handle.generation {
                    Some(&slot.value)
                } else {
                    None
                },
                None => None,
            }
        } else {
            None
        }
    }

    /// Mutable variant of [`Self::get`]: hands out a reference to the slot
    /// value under the same index and generation checks.
    pub fn get_mut(&mut self, handle: Handle) -> (r: Option<&mut T>)
        ensures
            r.is_some() == spec_slot_get(old(self)@, handle).is_some(),
            r.is_none() ==> final(self)@ == old(self)@,
            r.is_some() ==> *r.unwrap() == spec_slot_get(old(self)@, handle).unwrap()
                && final(self)@ == old(self)@.update(
                handle.index as int,
                Some(Slot { value: *final(r.unwrap()), generation: handle.generation }),
            ),
    {
        if handle.index < self.slots.len() {
            let occupied = match &self.slots[handle.index] {
                Some(slot) => slot.generation == handle.generation,
                None => false,
            };
            if occupied {
                match &mut self.slots[handle.index] {
                    Some(slot) => Some(&mut slot.value),
                    None => unreached(),
                }
            } else {
                None
            }
        } else {
            None
        }
    }

    /// Clears the slot for `handle` when the generation matches; a stale
    /// handle or an empty slot is a no-op.
    pub fn remove(&mut self, handle: Handle)
        ensures
            final(self)@ == spec_col_remove(old(self)@, handle),
    {
        if handle.index < self.slots.len() {
            let occupied = match &self.slots[handle.index] {
                Some(slot) => slot.generation == handle.generation,
                None => false,
            };
            if occupied {
                self.slots[handle.index] = None;
            }
        }
    }

    /// Positional read for lock-step column iteration: the value stored at
    /// `index` regardless of generation, `None` for an empty or
    /// out-of-range slot.
    pub fn slot_at(&self, index: usize) -> (r: Option<&T>)
        ensures
            r.is_some() == (index < self@.len() && self@[index as int].is_some()),
            r.is_some() ==> *r.unwrap() == self@[index as int].unwrap().value,
    {
        if index < self.slots.len() {
            match &self.slots[index] {
                Some(slot) => Some(&slot.value),
                None => None,
            }
        } else {
            None
        }
    }
}

} // verus!
