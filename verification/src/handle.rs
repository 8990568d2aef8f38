//! Generation-checked entity handles and the slot-recycling allocator that
//! mints them.
//!
//! A [`Handle`] names one occupancy of one slot: the slot index plus the
//! generation the slot had when the handle was issued. The
//! [`HandleAllocator`] keeps per-slot state and a free list of recycled
//! indices; reusing an index bumps its generation, which silently
//! invalidates every handle issued for the previous occupancy.

use vstd::prelude::*;

verus! {

/// Identity of one entity: a slot index plus the generation of that slot at
/// the time the handle was issued. Two handles are equal exactly when both
/// fields match.
#[derive(Clone, Copy, Debug, PartialEq, Eq, Hash, Structural)]
pub struct Handle {
    pub index: usize,
    pub generation: u64,
}

/// Per-index bookkeeping of the allocator: the current generation of the
/// slot and whether the slot is currently handed out.
#[derive(Clone, Copy, Debug, PartialEq, Eq, Hash, Structural)]
pub struct SlotState {
    pub generation: u64,
    pub is_allocated: bool,
}

/// A handle is live in a slot sequence when its index exists, the slot is
/// marked allocated, and the stored generation matches the handle's.
pub open spec fn spec_live(slots: Seq<SlotState>, h: Handle) -> bool {
    &&& h.index < slots.len()
    &&& slots[h.index as int].is_allocated
    &&& slots[h.index as int].generation == h.generation
}

/// Well-formedness of the allocator state: every free-list entry names an
/// existing, unallocated slot whose generation can still be bumped, and no
/// index sits on the free list twice.
pub open spec fn alloc_wf(slots: Seq<SlotState>, free: Seq<usize>) -> bool {
    &&& slots.len() <= usize::MAX
    &&& forall|i: int|
        0 <= i < free.len() ==> (#[trigger] free[i]) < slots.len()
    &&& forall|i: int|
        0 <= i < free.len() ==> !slots[#[trigger] free[i] as int].is_allocated
    &&& forall|i: int|
        0 <= i < free.len() ==> slots[#[trigger] free[i] as int].generation < u64::MAX
    &&& forall|i: int, j: int| 0 <= i < j < free.len() ==> free[i] != free[j]
}

/// The handle that the next `allocate` call returns, as a function of the
/// allocator state: the most recently freed index with its generation
/// bumped, or a brand-new index at generation zero.
pub open spec fn spec_allocate_handle(slots: Seq<SlotState>, free: Seq<usize>) -> Handle {
    if free.len() > 0 {
        Handle {
            index: free.last(),
            generation: (slots[free.last() as int].generation + 1) as u64,
        }
    } else {
        Handle { index: slots.len() as usize, generation: 0 }
    }
}

/// The slot sequence after one `allocate` call.
pub open spec fn spec_allocate_slots(slots: Seq<SlotState>, free: Seq<usize>) -> Seq<SlotState> {
    if free.len() > 0 {
        slots.update(
            free.last() as int,
            SlotState {
                generation: (slots[free.last() as int].generation + 1) as u64,
                is_allocated: true,
            },
        )
    } else {
        slots.push(SlotState { generation: 0, is_allocated: true })
    }
}

/// The free list after one `allocate` call.
pub open spec fn spec_allocate_free(free: Seq<usize>) -> Seq<usize> {
    if free.len() > 0 {
        free.drop_last()
    } else {
        free
    }
}

/// The slot sequence after `deallocate(h)`: a live handle releases its
/// slot, anything else is a no-op.
pub open spec fn spec_deallocate_slots(slots: Seq<SlotState>, h: Handle) -> Seq<SlotState> {
    if spec_live(slots, h) {
        slots.update(h.index as int, SlotState { generation: h.generation, is_allocated: false })
    } else {
        slots
    }
}

/// The free list after `deallocate(h)`. A slot whose generation counter is
/// exhausted is retired instead of recycled, so the bump on reuse can never
/// wrap around.
pub open spec fn spec_deallocate_free(slots: Seq<SlotState>, free: Seq<usize>, h: Handle) -> Seq<
    usize,
> {
    if spec_live(slots, h) && h.generation < u64::MAX {
        free.push(h.index)
    } else {
        free
    }
}

/// The allocator state after deallocating `handles[i..]` in order.
pub open spec fn spec_deallocate_from(
    slots: Seq<SlotState>,
    free: Seq<usize>,
    handles: Seq<Handle>,
    i: int,
) -> (Seq<SlotState>, Seq<usize>)
    decreases handles.len() - i,
{
    if i < 0 || i >= handles.len() {
        (slots, free)
    } else {
        spec_deallocate_from(
            spec_deallocate_slots(slots, handles[i]),
            spec_deallocate_free(slots, free, handles[i]),
            handles,
            i + 1,
        )
    }
}

/// Assigns and recycles entity identity. Owns a growable sequence of
/// per-index slot states and a free list of previously deallocated indices;
/// reusing an index increments its generation.
pub struct HandleAllocator {
    slots: Vec<SlotState>,
    free_list: Vec<usize>,
}

impl HandleAllocator {
    /// The per-index slot states.
    pub closed spec fn slots(&self) -> Seq<SlotState> {
        self.slots@
    }

    /// The indices waiting to be reused, oldest first; `allocate` pops from
    /// the back.
    pub closed spec fn free_list(&self) -> Seq<usize> {
        self.free_list@
    }

    /// The allocator's internal invariant.
    pub open spec fn wf(&self) -> bool {
        alloc_wf(self.slots(), self.free_list())
    }

    /// True when `h` is currently handed out: its slot exists, is marked
    /// allocated, and still has the generation the handle was issued with.
    pub open spec fn live(&self, h: Handle) -> bool {
        spec_live(self.slots(), h)
    }

    pub fn new() -> (r: Self)
        ensures
            r.wf(),
            r.slots() == Seq::<SlotState>::empty(),
            r.free_list() == Seq::<usize>::empty(),
    {
        HandleAllocator { slots: Vec::new(), free_list: Vec::new() }
    }

    /// True exactly when `handle` is live.
    pub fn is_allocated(&self, handle: &Handle) -> (r: bool)
        ensures
            r == self.live(*handle),
    {
        handle.index < self.slots.len() && self.slots[handle.index].is_allocated
            && self.slots[handle.index].generation == handle.generation
    }

    /// Hands out a fresh handle: the most recently freed index with its
    /// generation bumped, or a new index at generation zero. The returned
    /// handle was not live before the call and no other handle's liveness
    /// changes.
    pub fn allocate(&mut self) -> (h: Handle)
        requires
            old(self).wf(),
        ensures
            final(self).wf(),
            h == spec_allocate_handle(old(self).slots(), old(self).free_list()),
            final(self).slots() == spec_allocate_slots(old(self).slots(), old(self).free_list()),
            final(self).free_list() == spec_allocate_free(old(self).free_list()),
            !old(self).live(h),
            final(self).live(h),
            forall|h2: Handle| h2.index != h.index ==> final(self).live(h2) == old(self).live(h2),
            forall|h2: Handle| h2 != h && h2.index == h.index ==> !final(self).live(h2),
            forall|h2: Handle| old(self).live(h2) ==> final(self).live(h2) && h2 != h,
    {
        match self.free_list.pop() {
            Some(index) => {
                let generation = self.slots[index].generation;
                self.slots[index] = SlotState { generation: generation + 1, is_allocated: true };
                Handle { index, generation: generation + 1 }
            },
            None => {
                let index = self.slots.len();
                self.slots.push(SlotState { generation: 0, is_allocated: true });
                proof {
                    vstd::std_specs::vec::axiom_spec_len(&self.slots);
                }
                Handle { index, generation: 0 }
            },
        }
    }

    /// Releases a live handle's slot and queues its index for reuse; a
    /// stale or already-freed handle is a no-op, so the free list can never
    /// receive the same index twice.
    pub fn deallocate(&mut self, handle: &Handle)
        requires
            old(self).wf(),
        ensures
            final(self).wf(),
            final(self).slots() == spec_deallocate_slots(old(self).slots(), *handle),
            final(self).free_list() == spec_deallocate_free(
                old(self).slots(),
                old(self).free_list(),
                *handle,
            ),
            !final(self).live(*handle),
            forall|h2: Handle|
                h2.index != handle.index ==> final(self).live(h2) == old(self).live(h2),
            forall|h2: Handle|
                h2.index == handle.index ==> final(self).live(h2) == (old(self).live(h2) && h2
                    != *handle),
    {
        if self.is_allocated(handle) {
            self.slots[handle.index] = SlotState {
                generation: handle.generation,
                is_allocated: false,
            };
            if handle.generation < u64::MAX {
                self.free_list.push(handle.index);
            }
        }
    }

    /// The number of slots the allocator has ever created.
    pub fn slot_count(&self) -> (r: usize)
        ensures
            r == self.slots().len(),
    {
        self.slots.len()
    }

    /// The handle under which slot `index` is currently allocated, if it
    /// is. The returned handle is the only live handle for that index.
    pub fn live_handle(&self, index: usize) -> (r: Option<Handle>)
        ensures
            r.is_some() == (index < self.slots().len()
                && self.slots()[index as int].is_allocated),
            r.is_some() ==> r.unwrap() == (Handle {
                index,
                generation: self.slots()[index as int].generation,
            }) && self.live(r.unwrap()),
    {
        if index < self.slots.len() && self.slots[index].is_allocated {
            Some(Handle { index, generation: self.slots[index].generation })
        } else {
            None
        }
    }

    /// Calls `allocate` `count` times; the returned handles are mutually
    /// distinct, all live afterwards, none was live before, and previously
    /// live handles stay live.
    pub fn allocate_many(&mut self, count: usize) -> (handles: Vec<Handle>)
        requires
            old(self).wf(),
        ensures
            final(self).wf(),
            handles@.len() == count,
            forall|k: int| 0 <= k < count ==> final(self).live(#[trigger] handles@[k]),
            forall|k: int| 0 <= k < count ==> !old(self).live(#[trigger] handles@[k]),
            forall|j: int, k: int|
                0 <= j < k < count ==> (#[trigger] handles@[j]).index != (
                #[trigger] handles@[k]).index,
            forall|h2: Handle| old(self).live(h2) ==> final(self).live(h2),
    {
        let mut handles: Vec<Handle> = Vec::new();
        let mut i: usize = 0;
        while i < count
            invariant
                self.wf(),
                i <= count,
                handles@.len() == i,
                forall|k: int| 0 <= k < i ==> self.live(#[trigger] handles@[k]),
                forall|k: int| 0 <= k < i ==> !old(self).live(#[trigger] handles@[k]),
                forall|j: int, k: int|
                    0 <= j < k < i ==> (#[trigger] handles@[j]).index != (
                    #[trigger] handles@[k]).index,
                forall|h2: Handle| old(self).live(h2) ==> self.live(h2),
            decreases count - i,
        {
            let h = self.allocate();
            handles.push(h);
            i = i + 1;
        }
        handles
    }
}

/// Allocation never duplicates a live identity: whatever the allocator
/// state, the next handle out of `allocate` is not live beforehand, is live
/// afterwards, and the liveness of every other handle is untouched — so no
/// two simultaneously live handles ever share an `(index, generation)`
/// pair.
pub proof fn lemma_allocate_fresh(slots: Seq<SlotState>, free: Seq<usize>)
    requires
        alloc_wf(slots, free),
    ensures
        !spec_live(slots, spec_allocate_handle(slots, free)),
        spec_live(spec_allocate_slots(slots, free), spec_allocate_handle(slots, free)),
        free.len() > 0 || slots.len() < usize::MAX ==> alloc_wf(
            spec_allocate_slots(slots, free),
            spec_allocate_free(free),
        ),
        forall|h2: Handle|
            h2 != spec_allocate_handle(slots, free) ==> spec_live(
                spec_allocate_slots(slots, free),
                h2,
            ) == spec_live(slots, h2),
{
    let h = spec_allocate_handle(slots, free);
    let slots2 = spec_allocate_slots(slots, free);
    if free.len() > 0 {
        let i = free.last();
        assert(!slots[i as int].is_allocated) by {
            assert(free[free.len() - 1] == i);
        }
        assert(slots[i as int].generation < u64::MAX) by {
            assert(free[free.len() - 1] == i);
        }
        assert forall|j: int|
            0 <= j < spec_allocate_free(free).len() implies (#[trigger] spec_allocate_free(
            free,
        )[j]) != i by {
            assert(free[j] == spec_allocate_free(free)[j]);
            assert(free[free.len() - 1] == i);
        }
    }
}

/// Once a handle is deallocated it stays dead: it reads as unallocated
/// immediately, and even after the next allocation — which may reuse its
/// index under a bumped generation — the old handle is still dead.
pub proof fn lemma_deallocate_then_reuse(slots: Seq<SlotState>, free: Seq<usize>, h: Handle)
    requires
        alloc_wf(slots, free),
        spec_live(slots, h),
    ensures
        !spec_live(spec_deallocate_slots(slots, h), h),
        alloc_wf(spec_deallocate_slots(slots, h), spec_deallocate_free(slots, free, h)),
        !spec_live(
            spec_allocate_slots(
                spec_deallocate_slots(slots, h),
                spec_deallocate_free(slots, free, h),
            ),
            h,
        ),
{
    let slots1 = spec_deallocate_slots(slots, h);
    let free1 = spec_deallocate_free(slots, free, h);
    assert forall|j: int| 0 <= j < free.len() implies (#[trigger] free[j]) != h.index by {}
    assert(alloc_wf(slots1, free1));
    let h2 = spec_allocate_handle(slots1, free1);
    let slots2 = spec_allocate_slots(slots1, free1);
    if free1.len() > 0 {
        let i = free1.last();
        assert(free1[free1.len() - 1] == i);
        if i == h.index {
            assert(slots1[i as int].generation == h.generation);
            assert(h2.generation == h.generation + 1);
        }
    }
}

/// Deallocating the same handle twice leaves exactly the state of
/// deallocating it once.
pub proof fn lemma_deallocate_idempotent(slots: Seq<SlotState>, free: Seq<usize>, h: Handle)
    ensures
        spec_deallocate_slots(spec_deallocate_slots(slots, h), h) == spec_deallocate_slots(
            slots,
            h,
        ),
        spec_deallocate_free(
            spec_deallocate_slots(slots, h),
            spec_deallocate_free(slots, free, h),
            h,
        ) == spec_deallocate_free(slots, free, h),
{
    assert(!spec_live(spec_deallocate_slots(slots, h), h));
}

/// Allocate, deallocate, allocate again: the handle that comes back is
/// never the one that was given up, even when it reuses the same index,
/// and the old handle stays dead.
pub proof fn lemma_reallocate_differs(slots: Seq<SlotState>, free: Seq<usize>)
    requires
        alloc_wf(slots, free),
        slots.len() < usize::MAX,
    ensures
        ({
            let h1 = spec_allocate_handle(slots, free);
            let slots1 = spec_allocate_slots(slots, free);
            let free1 = spec_allocate_free(free);
            let slots2 = spec_deallocate_slots(slots1, h1);
            let free2 = spec_deallocate_free(slots1, free1, h1);
            let h2 = spec_allocate_handle(slots2, free2);
            &&& h2 != h1
            &&& !spec_live(spec_allocate_slots(slots2, free2), h1)
            &&& spec_live(spec_allocate_slots(slots2, free2), h2)
        }),
{
    let h1 = spec_allocate_handle(slots, free);
    let slots1 = spec_allocate_slots(slots, free);
    let free1 = spec_allocate_free(free);
    lemma_allocate_fresh(slots, free);
    lemma_deallocate_then_reuse(slots1, free1, h1);
    let slots2 = spec_deallocate_slots(slots1, h1);
    let free2 = spec_deallocate_free(slots1, free1, h1);
    lemma_allocate_fresh(slots2, free2);
    let h2 = spec_allocate_handle(slots2, free2);
    if h1.generation < u64::MAX {
        assert(free2.last() == h1.index);
        assert(slots2[h1.index as int].generation == h1.generation);
        assert(h2.generation == h1.generation + 1);
    } else {
        if free2.len() > 0 {
            let i = free2.last();
            assert(free2[free2.len() - 1] == i);
            assert(!slots2[i as int].is_allocated && slots2[i as int].generation < u64::MAX);
            assert(i != h1.index);
        } else {
            assert(h2.index == slots2.len());
            assert(h1.index < slots2.len());
        }
    }
}

} // verus!
