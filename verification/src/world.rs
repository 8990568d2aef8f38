//! The world facade: entity lifecycle, component assignment, and typed
//! query iteration over one shared store.
//!
//! A [`World`] composes a [`HandleAllocator`] (entity identity), one
//! [`GenerationalVec`] column per registered component type (the columns
//! are keyed by a caller-chosen numeric type identifier), and a
//! [`ResourceMap`] of singleton shared state. Component values are of one
//! caller-supplied type `C` — typically an enum over the application's
//! component kinds — and resources of one type `R`; the numeric type
//! identifier plays the role of a static type tag and decides which column
//! or resource slot a call touches.
//!
//! Removing an entity only bumps its generation in the allocator; columns
//! are never scrubbed eagerly. Every component read re-checks the
//! allocator and the column's stored generation, so orphaned values are
//! unreachable through the store's API.

use crate::handle::{
    spec_allocate_free, spec_allocate_handle, spec_allocate_slots, spec_deallocate_free,
    spec_deallocate_from, spec_deallocate_slots, spec_live, Handle, HandleAllocator, SlotState,
};
use crate::resource::ResourceMap;
use crate::slot_vec::{
    spec_col_insert, spec_col_remove, spec_slot_get, GenerationalVec, HandleNotFoundError, Slot,
};
use vstd::prelude::*;
use vstd::pervasive::unreached;

verus! {

/// An entity is nothing but a handle minted by the world's allocator; it
/// is the one durable reference to a row across all component columns.
pub type Entity = Handle;

/// A query or raw-column access named a component type whose column was
/// never created. This signals a missing registration — a structural
/// mistake of the caller, not a runtime condition to recover from — so
/// callers are expected to fail loudly on it.
#[derive(Clone, Copy, Debug, PartialEq, Eq, Structural)]
pub struct UnregisteredComponentError {
    pub type_id: u64,
}

/// The slot sequences of a map of columns: the same map with each column
/// replaced by its mathematical view.
pub open spec fn views_of<C>(m: Map<u64, GenerationalVec<C>>) -> Map<u64, Seq<Option<Slot<C>>>> {
    Map::new(|type_id: u64| m.contains_key(type_id), |type_id: u64| m[type_id]@)
}

/// Replacing one column of the map replaces exactly that column's view.
proof fn lemma_views_of_insert<C>(m: Map<u64, GenerationalVec<C>>, type_id: u64, g: GenerationalVec<C>)
    ensures
        views_of(m.insert(type_id, g)) == views_of(m).insert(type_id, g@),
{
    assert(views_of(m.insert(type_id, g)) =~= views_of(m).insert(type_id, g@));
}

/// The column for `type_id`, or an empty column if none was created yet.
pub open spec fn spec_col_or_empty<C>(
    cols: Map<u64, Seq<Option<Slot<C>>>>,
    type_id: u64,
) -> Seq<Option<Slot<C>>> {
    if cols.contains_key(type_id) {
        cols[type_id]
    } else {
        Seq::empty()
    }
}

/// The value entity `e` holds for `type_id`: present only when `e` is live
/// in `slots` and the column stores a value under `e`'s generation.
pub open spec fn spec_component_in<C>(
    slots: Seq<SlotState>,
    cols: Map<u64, Seq<Option<Slot<C>>>>,
    e: Entity,
    type_id: u64,
) -> Option<C> {
    if spec_live(slots, e) && cols.contains_key(type_id) {
        spec_slot_get(cols[type_id], e)
    } else {
        None
    }
}

/// The columns after assigning `value` to `e` under `type_id`: the column
/// is materialized if absent, then written at `e`'s slot.
pub open spec fn spec_add_component_cols<C>(
    cols: Map<u64, Seq<Option<Slot<C>>>>,
    e: Entity,
    type_id: u64,
    value: C,
) -> Map<u64, Seq<Option<Slot<C>>>> {
    cols.insert(type_id, spec_col_insert(spec_col_or_empty(cols, type_id), e, value))
}

/// The columns after clearing `e`'s slot under `type_id`: the column is
/// materialized if absent, then the slot is cleared when the generation
/// matches.
pub open spec fn spec_remove_component_cols<C>(
    cols: Map<u64, Seq<Option<Slot<C>>>>,
    e: Entity,
    type_id: u64,
) -> Map<u64, Seq<Option<Slot<C>>>> {
    cols.insert(type_id, spec_col_remove(spec_col_or_empty(cols, type_id), e))
}

/// True when `components` holds a value readable through `entity`.
pub fn entity_has_component<C>(entity: Entity, components: &GenerationalVec<C>) -> (r: bool)
    ensures
        r == spec_slot_get(components@, entity).is_some(),
{
    components.get(entity).is_some()
}

/// The storage engine: allocator, per-type component columns, and the
/// resource registry, behind entity/component CRUD and typed queries.
pub struct World<C, R> {
    resources: ResourceMap<R>,
    components: ResourceMap<GenerationalVec<C>>,
    allocator: HandleAllocator,
}

impl<C, R> World<C, R> {
    /// The allocator's per-index slot states.
    pub closed spec fn slots(&self) -> Seq<SlotState> {
        self.allocator.slots()
    }

    /// The allocator's free list.
    pub closed spec fn free_list(&self) -> Seq<usize> {
        self.allocator.free_list()
    }

    /// The component columns: for each created type identifier, the
    /// column's slot sequence.
    pub closed spec fn columns(&self) -> Map<u64, Seq<Option<Slot<C>>>> {
        views_of(self.components@)
    }

    /// The resource registry's contents.
    pub closed spec fn resources_map(&self) -> Map<u64, R> {
        self.resources@
    }

    /// The world's internal invariant.
    pub closed spec fn wf(&self) -> bool {
        &&& self.allocator.wf()
        &&& self.components.wf()
        &&& self.resources.wf()
    }

    /// True when `entity` is currently allocated under this exact
    /// generation.
    pub open spec fn entity_live(&self, entity: Entity) -> bool {
        spec_live(self.slots(), entity)
    }

    /// The value `entity` holds for `type_id`, if any.
    pub open spec fn component(&self, entity: Entity, type_id: u64) -> Option<C> {
        spec_component_in(self.slots(), self.columns(), entity, type_id)
    }

    pub fn new() -> (r: Self)
        ensures
            r.wf(),
            r.slots() == Seq::<SlotState>::empty(),
            r.free_list() == Seq::<usize>::empty(),
            r.columns() == Map::<u64, Seq<Option<Slot<C>>>>::empty(),
            r.resources_map() == Map::<u64, R>::empty(),
    {
        let r = World {
            resources: ResourceMap::new(),
            components: ResourceMap::new(),
            allocator: HandleAllocator::new(),
        };
        proof {
            assert(r.columns() =~= Map::<u64, Seq<Option<Slot<C>>>>::empty());
        }
        r
    }

    /// Read access to the resource registry.
    pub fn resources(&self) -> (r: &ResourceMap<R>)
        requires
            self.wf(),
        ensures
            r.wf(),
            r@ == self.resources_map(),
    {
        &self.resources
    }

    /// Write access to the resource registry; the rest of the world is
    /// untouched.
    pub fn resources_mut(&mut self) -> (r: &mut ResourceMap<R>)
        requires
            old(self).wf(),
        ensures
            r.wf(),
            r@ == old(self).resources_map(),
            final(self).slots() == old(self).slots(),
            final(self).free_list() == old(self).free_list(),
            final(self).columns() == old(self).columns(),
            final(self).resources_map() == final(r)@,
            final(r).wf() ==> final(self).wf(),
    {
        &mut self.resources
    }

    /// Mints a fresh entity: not live before the call, live after it, and
    /// no other handle's liveness changes.
    pub fn create_entity(&mut self) -> (e: Entity)
        requires
            old(self).wf(),
        ensures
            final(self).wf(),
            e == spec_allocate_handle(old(self).slots(), old(self).free_list()),
            final(self).slots() == spec_allocate_slots(old(self).slots(), old(self).free_list()),
            final(self).free_list() == spec_allocate_free(old(self).free_list()),
            final(self).columns() == old(self).columns(),
            final(self).resources_map() == old(self).resources_map(),
            !old(self).entity_live(e),
            final(self).entity_live(e),
            forall|h2: Handle|
                h2 != e ==> final(self).entity_live(h2) == old(self).entity_live(h2),
    {
        let e = self.allocator.allocate();
        proof {
            assert(self.columns() =~= old(self).columns());
        }
        e
    }

    /// Mints `count` fresh, mutually distinct entities.
    pub fn create_entities(&mut self, count: usize) -> (es: Vec<Entity>)
        requires
            old(self).wf(),
        ensures
            final(self).wf(),
            es@.len() == count,
            final(self).columns() == old(self).columns(),
            final(self).resources_map() == old(self).resources_map(),
            forall|k: int| 0 <= k < count ==> final(self).entity_live(#[trigger] es@[k]),
            forall|k: int| 0 <= k < count ==> !old(self).entity_live(#[trigger] es@[k]),
            forall|j: int, k: int|
                0 <= j < k < count ==> (#[trigger] es@[j]).index != (#[trigger] es@[k]).index,
            forall|h2: Handle| old(self).entity_live(h2) ==> final(self).entity_live(h2),
    {
        let es = self.allocator.allocate_many(count);
        proof {
            assert(self.columns() =~= old(self).columns());
            assert forall|h2: Handle| old(self).entity_live(h2) implies self.entity_live(h2) by {
                assert(old(self).allocator.live(h2));
                assert(self.allocator.live(h2));
            }
        }
        es
    }

    /// Invalidates `entity`: its slot is freed for reuse under a bumped
    /// generation. Component columns are not scrubbed — the generation
    /// check makes every orphaned value unreachable, so afterwards the
    /// entity reads as holding no component of any type. A stale or
    /// already-removed handle is a no-op.
    pub fn remove_entity(&mut self, entity: Entity)
        requires
            old(self).wf(),
        ensures
            final(self).wf(),
            final(self).slots() == spec_deallocate_slots(old(self).slots(), entity),
            final(self).free_list() == spec_deallocate_free(
                old(self).slots(),
                old(self).free_list(),
                entity,
            ),
            final(self).columns() == old(self).columns(),
            final(self).resources_map() == old(self).resources_map(),
            !final(self).entity_live(entity),
            forall|type_id: u64| final(self).component(entity, type_id) == None::<C>,
            forall|h2: Handle|
                h2.index != entity.index ==> final(self).entity_live(h2) == old(self).entity_live(
                    h2,
                ),
            forall|h2: Handle|
                h2.index == entity.index ==> final(self).entity_live(h2) == (old(self).entity_live(
                    h2,
                ) && h2 != entity),
    {
        self.allocator.deallocate(&entity);
        proof {
            assert(self.columns() =~= old(self).columns());
        }
    }

    /// Removes every entity in `entities`; stale handles in the list are
    /// no-ops, and entities outside the list stay live.
    pub fn remove_entities(&mut self, entities: &[Entity])
        requires
            old(self).wf(),
        ensures
            final(self).wf(),
            final(self).columns() == old(self).columns(),
            final(self).resources_map() == old(self).resources_map(),
            (final(self).slots(), final(self).free_list()) == spec_deallocate_from(
                old(self).slots(),
                old(self).free_list(),
                entities@,
                0,
            ),
            forall|k: int| 0 <= k < entities@.len() ==> !final(self).entity_live(
                #[trigger] entities@[k],
            ),
            forall|h2: Handle| final(self).entity_live(h2) ==> old(self).entity_live(h2),
            forall|h2: Handle|
                old(self).entity_live(h2) && !entities@.contains(h2) ==> final(self).entity_live(
                    h2,
                ),
    {
        let mut i: usize = 0;
        while i < entities.len()
            invariant
                old(self).wf(),
                self.wf(),
                i <= entities@.len(),
                spec_deallocate_from(old(self).slots(), old(self).free_list(), entities@, 0)
                    == spec_deallocate_from(self.slots(), self.free_list(), entities@, i as int),
                self.columns() == old(self).columns(),
                self.resources_map() == old(self).resources_map(),
                forall|k: int| 0 <= k < i ==> !self.entity_live(#[trigger] entities@[k]),
                forall|h2: Handle| self.entity_live(h2) ==> old(self).entity_live(h2),
                forall|h2: Handle|
                    old(self).entity_live(h2) && !entities@.contains(h2) ==> self.entity_live(h2),
            decreases entities@.len() - i,
        {
            let ghost pre = *self;
            self.allocator.deallocate(&entities[i]);
            proof {
                assert(self.columns() =~= pre.columns());
                assert(entities@.contains(entities@[i as int]));
                assert forall|k: int| 0 <= k < i + 1 implies !self.entity_live(
                    #[trigger] entities@[k],
                ) by {}
            }
            i = i + 1;
        }
    }

    /// True when `entity` is currently allocated.
    pub fn entity_exists(&self, entity: Entity) -> (r: bool)
        ensures
            r == self.entity_live(entity),
    {
        self.allocator.is_allocated(&entity)
    }

    /// Writes or clears `entity`'s slot in `type_id`'s column, creating
    /// the column on first use. Fails exactly when `entity` is not live.
    fn assign_component(&mut self, entity: Entity, type_id: u64, value: Option<C>) -> (r: Result<
        (),
        HandleNotFoundError,
    >)
        requires
            old(self).wf(),
        ensures
            final(self).wf(),
            r.is_ok() == old(self).entity_live(entity),
            final(self).slots() == old(self).slots(),
            final(self).free_list() == old(self).free_list(),
            final(self).resources_map() == old(self).resources_map(),
            r.is_err() ==> r == Err::<(), HandleNotFoundError>(
                HandleNotFoundError { handle: entity },
            ) && final(self).columns() == old(self).columns(),
            r.is_ok() ==> final(self).columns() == (match value {
                Some(v) => spec_add_component_cols(old(self).columns(), entity, type_id, v),
                None => spec_remove_component_cols(old(self).columns(), entity, type_id),
            }),
    {
        if !self.allocator.is_allocated(&entity) {
            return Err(HandleNotFoundError { handle: entity });
        }
        if self.components.get(type_id).is_none() {
            let ghost m0 = self.components@;
            self.components.insert(type_id, GenerationalVec::new(Vec::new()));
            proof {
                lemma_views_of_insert(m0, type_id, self.components@[type_id]);
                assert(views_of(m0).insert(type_id, Seq::empty()) =~= views_of(m0).insert(
                    type_id,
                    self.components@[type_id]@,
                ));
            }
        }
        let ghost m1 = self.components@;
        let ghost cols1 = self.columns();
        proof {
            assert(cols1 =~= old(self).columns().insert(
                type_id,
                spec_col_or_empty(old(self).columns(), type_id),
            ));
        }
        match self.components.get_mut(type_id) {
            Some(col) => {
                match value {
                    Some(v) => {
                        let insert_result = col.insert(entity, v);
                        proof {
                            lemma_views_of_insert(m1, type_id, self.components@[type_id]);
                        }
                        match insert_result {
                            Ok(()) => (),
                            Err(e) => {
                                return Err(e);
                            },
                        }
                    },
                    None => {
                        col.remove(entity);
                        proof {
                            lemma_views_of_insert(m1, type_id, self.components@[type_id]);
                        }
                    },
                }
            },
            None => {
                return unreached();
            },
        }
        proof {
            assert(self.columns() =~= (match value {
                Some(v) => spec_add_component_cols(old(self).columns(), entity, type_id, v),
                None => spec_remove_component_cols(old(self).columns(), entity, type_id),
            }));
        }
        Ok(())
    }

    /// Stores `component` for `entity` under `type_id`, creating the
    /// column on first use and overwriting any value the entity already
    /// held there. Fails exactly when `entity` is not live; afterwards the
    /// entity reads back exactly the inserted value.
    pub fn add_component(&mut self, entity: Entity, type_id: u64, component: C) -> (r: Result<
        (),
        HandleNotFoundError,
    >)
        requires
            old(self).wf(),
        ensures
            final(self).wf(),
            r.is_ok() == old(self).entity_live(entity),
            final(self).slots() == old(self).slots(),
            final(self).free_list() == old(self).free_list(),
            final(self).resources_map() == old(self).resources_map(),
            r.is_err() ==> r == Err::<(), HandleNotFoundError>(
                HandleNotFoundError { handle: entity },
            ) && final(self).columns() == old(self).columns(),
            r.is_ok() ==> final(self).columns() == spec_add_component_cols(
                old(self).columns(),
                entity,
                type_id,
                component,
            ),
            r.is_ok() ==> final(self).component(entity, type_id) == Some(component),
            forall|e2: Entity, t2: u64|
                r.is_ok() && (e2.index != entity.index || t2 != type_id) ==> final(self).component(
                    e2,
                    t2,
                ) == old(self).component(e2, t2),
    {
        let ghost pre = *old(self);
        let r = self.assign_component(entity, type_id, Some(component));
        proof {
            if r.is_ok() {
                lemma_add_then_get(pre.slots(), pre.columns(), entity, type_id, component);
                lemma_assign_preserves_others(
                    pre.slots(),
                    pre.columns(),
                    self.columns(),
                    entity,
                    type_id,
                );
            }
        }
        r
    }

    /// Clears `entity`'s value for `type_id`, if any; the column is
    /// created if it never existed, mirroring `add_component`. Fails
    /// exactly when `entity` is not live. Removing twice is the same as
    /// removing once.
    pub fn remove_component(&mut self, entity: Entity, type_id: u64) -> (r: Result<
        (),
        HandleNotFoundError,
    >)
        requires
            old(self).wf(),
        ensures
            final(self).wf(),
            r.is_ok() == old(self).entity_live(entity),
            final(self).slots() == old(self).slots(),
            final(self).free_list() == old(self).free_list(),
            final(self).resources_map() == old(self).resources_map(),
            r.is_err() ==> r == Err::<(), HandleNotFoundError>(
                HandleNotFoundError { handle: entity },
            ) && final(self).columns() == old(self).columns(),
            r.is_ok() ==> final(self).columns() == spec_remove_component_cols(
                old(self).columns(),
                entity,
                type_id,
            ),
            r.is_ok() ==> final(self).component(entity, type_id) == None::<C>,
            forall|e2: Entity, t2: u64|
                r.is_ok() && (e2.index != entity.index || t2 != type_id) ==> final(self).component(
                    e2,
                    t2,
                ) == old(self).component(e2, t2),
    {
        let ghost pre = *old(self);
        let r = self.assign_component(entity, type_id, None);
        proof {
            if r.is_ok() {
                lemma_remove_then_get::<C>(pre.slots(), pre.columns(), entity, type_id);
                lemma_assign_preserves_others(
                    pre.slots(),
                    pre.columns(),
                    self.columns(),
                    entity,
                    type_id,
                );
            }
        }
        r
    }

    /// Reads the value `entity` holds for `type_id`: absent for a dead or
    /// stale entity, an uncreated column, or an empty slot.
    pub fn get_component(&self, entity: Entity, type_id: u64) -> (r: Option<&C>)
        requires
            self.wf(),
        ensures
            r.is_some() == self.component(entity, type_id).is_some(),
            r.is_some() ==> self.component(entity, type_id) == Some(*r.unwrap()),
    {
        if !self.entity_exists(entity) {
            return None;
        }
        match self.components.get(type_id) {
            Some(col) => col.get(entity),
            None => None,
        }
    }

    /// True when `entity` currently holds a value for `type_id`.
    pub fn has_component(&self, entity: Entity, type_id: u64) -> (r: bool)
        requires
            self.wf(),
        ensures
            r == self.component(entity, type_id).is_some(),
    {
        self.get_component(entity, type_id).is_some()
    }

    /// Mutable access to the value `entity` holds for `type_id`, under
    /// the same liveness and generation checks as `get_component`.
    pub fn get_component_mut(&mut self, entity: Entity, type_id: u64) -> (r: Option<&mut C>)
        requires
            old(self).wf(),
        ensures
            final(self).wf(),
            final(self).slots() == old(self).slots(),
            final(self).free_list() == old(self).free_list(),
            final(self).resources_map() == old(self).resources_map(),
            r.is_some() == old(self).component(entity, type_id).is_some(),
            r.is_none() ==> final(self).columns() == old(self).columns(),
            r.is_some() ==> *r.unwrap() == old(self).component(entity, type_id).unwrap()
                && final(self).columns() == old(self).columns().insert(
                type_id,
                old(self).columns()[type_id].update(
                    entity.index as int,
                    Some(Slot { value: *final(r.unwrap()), generation: entity.generation }),
                ),
            ) && final(self).component(entity, type_id) == Some(*final(r.unwrap())),
    {
        if !self.allocator.is_allocated(&entity) {
            return None;
        }
        proof {
            assert forall|g: GenerationalVec<C>| #[trigger]
                views_of(old(self).components@.insert(type_id, g)) == views_of(
                    old(self).components@,
                ).insert(type_id, g@) by {
                lemma_views_of_insert(old(self).components@, type_id, g);
            }
        }
        match self.components.get_mut(type_id) {
            Some(col) => col.get_mut(entity),
            None => None,
        }
    }

    /// Every type in `type_ids` has a column.
    pub open spec fn all_registered(&self, type_ids: Seq<u64>) -> bool {
        forall|t: int|
            0 <= t < type_ids.len() ==> self.columns().contains_key(#[trigger] type_ids[t])
    }

    /// `e` qualifies for a query over `type_ids`: it is live and holds a
    /// generation-valid value in every requested column.
    pub open spec fn qualifies(&self, type_ids: Seq<u64>, e: Entity) -> bool {
        &&& self.entity_live(e)
        &&& forall|t: int|
            0 <= t < type_ids.len() ==> self.component(e, #[trigger] type_ids[t]).is_some()
    }

    /// The typed multi-component query: yields exactly the entities that
    /// hold a value for every type in `type_ids`, in ascending index
    /// order. Naming a type whose column was never created reports the
    /// first such type as an [`UnregisteredComponentError`] — a missing
    /// registration, which callers should escalate rather than mistake
    /// for an empty result.
    pub fn query(&self, type_ids: &[u64]) -> (r: Result<Vec<Entity>, UnregisteredComponentError>)
        requires
            self.wf(),
        ensures
            r.is_ok() == self.all_registered(type_ids@),
            match r {
                Ok(es) => {
                    &&& forall|k: int|
                        0 <= k < es@.len() ==> self.qualifies(type_ids@, #[trigger] es@[k])
                    &&& forall|e: Entity| self.qualifies(type_ids@, e) ==> es@.contains(e)
                    &&& forall|j: int, k: int|
                        0 <= j < k < es@.len() ==> (#[trigger] es@[j]).index < (
                        #[trigger] es@[k]).index
                },
                Err(err) => exists|t: int|
                    0 <= t < type_ids@.len() && type_ids@[t] == err.type_id
                        && !self.columns().contains_key(err.type_id) && (forall|t2: int|
                        0 <= t2 < t ==> self.columns().contains_key(#[trigger] type_ids@[t2])),
            },
    {
        let mut t: usize = 0;
        while t < type_ids.len()
            invariant
                self.wf(),
                t <= type_ids@.len(),
                forall|t2: int|
                    0 <= t2 < t ==> self.columns().contains_key(#[trigger] type_ids@[t2]),
            decreases type_ids@.len() - t,
        {
            if self.components.get(type_ids[t]).is_none() {
                return Err(UnregisteredComponentError { type_id: type_ids[t] });
            }
            t = t + 1;
        }
        let mut es: Vec<Entity> = Vec::new();
        let n = self.allocator.slot_count();
        let mut i: usize = 0;
        while i < n
            invariant
                self.wf(),
                self.all_registered(type_ids@),
                i <= n,
                n == self.slots().len(),
                forall|k: int|
                    0 <= k < es@.len() ==> self.qualifies(type_ids@, #[trigger] es@[k]),
                forall|k: int| 0 <= k < es@.len() ==> (#[trigger] es@[k]).index < i,
                forall|j: int, k: int|
                    0 <= j < k < es@.len() ==> (#[trigger] es@[j]).index < (
                    #[trigger] es@[k]).index,
                forall|e: Entity|
                    self.qualifies(type_ids@, e) && e.index < i ==> es@.contains(e),
            decreases n - i,
        {
            let ghost es_pre = es@;
            match self.allocator.live_handle(i) {
                Some(h) => {
                    let mut all: bool = true;
                    let mut t2: usize = 0;
                    while t2 < type_ids.len()
                        invariant
                            self.wf(),
                            t2 <= type_ids@.len(),
                            self.entity_live(h),
                            all == (forall|t3: int|
                                0 <= t3 < t2 ==> self.component(h, #[trigger] type_ids@[t3]).is_some()),
                        decreases type_ids@.len() - t2,
                    {
                        if self.get_component(h, type_ids[t2]).is_none() {
                            all = false;
                        }
                        t2 = t2 + 1;
                    }
                    if all {
                        es.push(h);
                    }
                    proof {
                        assert forall|e: Entity|
                            self.qualifies(type_ids@, e) && e.index < i + 1 implies es@.contains(
                            e,
                        ) by {
                            if e.index == i {
                                assert(e == h);
                                assert(all);
                                assert(es@[es@.len() - 1] == h);
                            } else {
                                assert(es_pre.contains(e));
                                let k = choose|k: int|
                                    0 <= k < es_pre.len() && es_pre[k] == e;
                                assert(es@[k] == e);
                            }
                        }
                    }
                },
                None => {
                    proof {
                        assert forall|e: Entity|
                            self.qualifies(type_ids@, e) && e.index < i + 1 implies es@.contains(
                            e,
                        ) by {
                            assert(e.index != i);
                        }
                    }
                },
            }
            i = i + 1;
        }
        Ok(es)
    }

    /// Explicitly materializes an empty column for `type_id`, so that
    /// later raw-column access does not have to special-case a type that
    /// was never touched. Idempotent: an existing column is kept as is.
    pub fn register_component(&mut self, type_id: u64)
        requires
            old(self).wf(),
        ensures
            final(self).wf(),
            final(self).slots() == old(self).slots(),
            final(self).free_list() == old(self).free_list(),
            final(self).resources_map() == old(self).resources_map(),
            final(self).columns() == old(self).columns().insert(
                type_id,
                spec_col_or_empty(old(self).columns(), type_id),
            ),
    {
        if self.components.get(type_id).is_none() {
            let ghost m0 = self.components@;
            self.components.insert(type_id, GenerationalVec::new(Vec::new()));
            proof {
                lemma_views_of_insert(m0, type_id, self.components@[type_id]);
                assert(self.columns() =~= old(self).columns().insert(
                    type_id,
                    spec_col_or_empty(old(self).columns(), type_id),
                ));
            }
        } else {
            proof {
                assert(self.columns() =~= old(self).columns().insert(
                    type_id,
                    spec_col_or_empty(old(self).columns(), type_id),
                ));
            }
        }
    }

    /// The raw column for `type_id`, for bulk iteration; absent when the
    /// type was never registered or written. Callers running typed queries
    /// should treat absence as a missing registration and fail loudly.
    pub fn get_component_vec(&self, type_id: u64) -> (r: Option<&GenerationalVec<C>>)
        requires
            self.wf(),
        ensures
            r.is_some() == self.columns().contains_key(type_id),
            r.is_some() ==> r.unwrap()@ == self.columns()[type_id],
    {
        self.components.get(type_id)
    }

    /// Mutable access to the raw column for `type_id`; absent when the
    /// type was never registered or written.
    pub fn get_component_vec_mut(&mut self, type_id: u64) -> (r: Option<&mut GenerationalVec<C>>)
        requires
            old(self).wf(),
        ensures
            final(self).wf(),
            final(self).slots() == old(self).slots(),
            final(self).free_list() == old(self).free_list(),
            final(self).resources_map() == old(self).resources_map(),
            r.is_some() == old(self).columns().contains_key(type_id),
            r.is_none() ==> final(self).columns() == old(self).columns(),
            r.is_some() ==> r.unwrap()@ == old(self).columns()[type_id] && final(self).columns()
                == old(self).columns().insert(type_id, final(r.unwrap())@),
    {
        proof {
            assert forall|g: GenerationalVec<C>| #[trigger]
                views_of(old(self).components@.insert(type_id, g)) == views_of(
                    old(self).components@,
                ).insert(type_id, g@) by {
                lemma_views_of_insert(old(self).components@, type_id, g);
            }
        }
        self.components.get_mut(type_id)
    }
}

/// Writing a component and reading it back under the same type and the
/// same live entity yields exactly the value written.
pub proof fn lemma_add_then_get<C>(
    slots: Seq<SlotState>,
    cols: Map<u64, Seq<Option<Slot<C>>>>,
    entity: Entity,
    type_id: u64,
    value: C,
)
    requires
        spec_live(slots, entity),
    ensures
        spec_component_in(
            slots,
            spec_add_component_cols(cols, entity, type_id, value),
            entity,
            type_id,
        ) == Some(value),
{
    let col = spec_col_or_empty(cols, type_id);
    let col2 = spec_col_insert(col, entity, value);
    assert(col2[entity.index as int] == Some(Slot { value, generation: entity.generation }));
}

/// Clearing a component and reading it back under the same type and the
/// same live entity yields absence.
pub proof fn lemma_remove_then_get<C>(
    slots: Seq<SlotState>,
    cols: Map<u64, Seq<Option<Slot<C>>>>,
    entity: Entity,
    type_id: u64,
)
    requires
        spec_live(slots, entity),
    ensures
        spec_component_in(
            slots,
            spec_remove_component_cols(cols, entity, type_id),
            entity,
            type_id,
        ) == None::<C>,
{
}

/// Assigning under one `(entity, type)` pair leaves every other pair's
/// reading unchanged, whether the assignment wrote or cleared.
pub proof fn lemma_assign_preserves_others<C>(
    slots: Seq<SlotState>,
    cols: Map<u64, Seq<Option<Slot<C>>>>,
    cols2: Map<u64, Seq<Option<Slot<C>>>>,
    entity: Entity,
    type_id: u64,
)
    requires
        (exists|v: C| cols2 == spec_add_component_cols(cols, entity, type_id, v)) || cols2
            == spec_remove_component_cols(cols, entity, type_id),
    ensures
        forall|e2: Entity, t2: u64|
            e2.index != entity.index || t2 != type_id ==> spec_component_in(slots, cols2, e2, t2)
                == spec_component_in(slots, cols, e2, t2),
{
    assert forall|e2: Entity, t2: u64|
        e2.index != entity.index || t2 != type_id implies spec_component_in(slots, cols2, e2, t2)
        == spec_component_in(slots, cols, e2, t2) by {
        if t2 != type_id {
            assert(cols2.contains_key(t2) == cols.contains_key(t2));
            if cols.contains_key(t2) {
                assert(cols2[t2] == cols[t2]);
            }
        } else {
            let col = spec_col_or_empty(cols, type_id);
            let col2 = cols2[type_id];
            assert(spec_slot_get(col2, e2) == spec_slot_get(col, e2)) by {
                if e2.index < col.len() {
                    assert(col2[e2.index as int] == col[e2.index as int]);
                } else {
                    if e2.index < col2.len() {
                        assert(col2[e2.index as int] is None || e2.index == entity.index);
                    }
                }
            }
            if !cols.contains_key(type_id) {
                assert(spec_slot_get(Seq::<Option<Slot<C>>>::empty(), e2) == None::<C>);
            }
        }
    }
}

/// Removing an entity orphans its rows in every column at once: without
/// any per-column cleanup, reading any component type through the removed
/// entity yields absence.
pub proof fn lemma_removed_entity_has_no_components<C>(
    slots: Seq<SlotState>,
    cols: Map<u64, Seq<Option<Slot<C>>>>,
    entity: Entity,
)
    ensures
        forall|type_id: u64|
            spec_component_in(spec_deallocate_slots(slots, entity), cols, entity, type_id)
                == None::<C>,
{
    assert(!spec_live(spec_deallocate_slots(slots, entity), entity));
}

/// Clearing the same component twice leaves exactly the state of clearing
/// it once.
pub proof fn lemma_remove_component_idempotent<C>(
    cols: Map<u64, Seq<Option<Slot<C>>>>,
    entity: Entity,
    type_id: u64,
)
    ensures
        spec_remove_component_cols(
            spec_remove_component_cols(cols, entity, type_id),
            entity,
            type_id,
        ) == spec_remove_component_cols(cols, entity, type_id),
{
    let cols1 = spec_remove_component_cols(cols, entity, type_id);
    let col1 = cols1[type_id];
    assert(spec_slot_get(col1, entity).is_none());
    assert(spec_col_remove(col1, entity) == col1);
    assert(cols1.insert(type_id, col1) =~= cols1);
}

impl<C, R> Default for World<C, R> {
    fn default() -> (r: Self)
        ensures
            r.wf(),
            r.slots() == Seq::<SlotState>::empty(),
            r.free_list() == Seq::<usize>::empty(),
            r.columns() == Map::<u64, Seq<Option<Slot<C>>>>::empty(),
            r.resources_map() == Map::<u64, R>::empty(),
    {
        World::new()
    }
}

} // verus!
