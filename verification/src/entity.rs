//! Entity handles and the allocator that mints and recycles them.

use vstd::prelude::*;

verus! {

/// An opaque 64-bit identifier for an entity. It has no intrinsic meaning and
/// is only valid inside the world that minted it.
#[derive(Copy, Clone, Debug, PartialEq, Eq, Hash, Structural)]
pub struct Entity(pub u64);

impl Entity {
    /// The numeric value of the handle.
    pub open spec fn spec_id(self) -> u64 {
        self.0
    }

    #[verifier::when_used_as_spec(spec_id)]
    pub fn id(self) -> (r: u64)
        ensures
            r == self.spec_id(),
    {
        self.0
    }
}

/// The mathematical state of an [`EntityAllocator`]: the lowest id that has
/// never been handed out, and the queue of returned handles waiting to be
/// reused.
pub ghost struct AllocatorView {
    pub max_id: int,
    pub available: Seq<Entity>,
}

impl AllocatorView {
    /// Every queued handle was minted earlier, so it lies below `max_id`.
    pub open spec fn wf(self) -> bool {
        &&& 0 <= self.max_id <= u64::MAX
        &&& forall|i: int|
            0 <= i < self.available.len() ==> (#[trigger] self.available[i]).0 < self.max_id
    }

    /// The handle that the next call to `allocate` returns, and the state the
    /// allocator is left in: the front of the queue if one is waiting, a fresh
    /// id otherwise.
    pub open spec fn allocate_step(self) -> (Entity, AllocatorView) {
        if self.available.len() > 0 {
            (
                self.available[0],
                AllocatorView { max_id: self.max_id, available: self.available.drop_first() },
            )
        } else {
            (
                Entity(self.max_id as u64),
                AllocatorView { max_id: self.max_id + 1, available: self.available },
            )
        }
    }

    /// The sequence of handles produced by `n` consecutive `allocate` calls.
    pub open spec fn allocate_run(self, n: nat) -> Seq<Entity>
        decreases n,
    {
        if n == 0 {
            Seq::empty()
        } else {
            seq![self.allocate_step().0] + self.allocate_step().1.allocate_run((n - 1) as nat)
        }
    }

    /// The allocator state after `n` consecutive `allocate` calls.
    pub open spec fn allocate_state(self, n: nat) -> AllocatorView
        decreases n,
    {
        if n == 0 {
            self
        } else {
            self.allocate_step().1.allocate_state((n - 1) as nat)
        }
    }
}

/// Mints entity handles and recycles returned ones in first-in, first-out
/// order.
#[derive(Debug)]
pub struct EntityAllocator {
    pub max_id: u64,
    pub available_entities: Vec<Entity>,
}

impl View for EntityAllocator {
    type V = AllocatorView;

    open spec fn view(&self) -> AllocatorView {
        AllocatorView { max_id: self.max_id as int, available: self.available_entities@ }
    }
}

impl EntityAllocator {
    /// A fresh allocator: no handle minted yet, nothing queued for reuse.
    pub fn new() -> (r: EntityAllocator)
        ensures
            r@.max_id == 0,
            r@.available == Seq::<Entity>::empty(),
            r@.wf(),
    {
        EntityAllocator { max_id: 0, available_entities: Vec::new() }
    }

    /// Return the oldest recycled handle if one is queued, otherwise mint a
    /// fresh id and advance `max_id`.
    pub fn allocate(&mut self) -> (r: Entity)
        requires
            old(self)@.available.len() > 0 || old(self)@.max_id < u64::MAX,
        ensures
            r == old(self)@.allocate_step().0,
            final(self)@ == old(self)@.allocate_step().1,
    {
        if self.available_entities.len() > 0 {
            self.available_entities.remove(0)
        } else {
            let new_entity = Entity(self.max_id);
            self.max_id = self.max_id + 1;
            new_entity
        }
    }

    /// Queue a handle for reuse. A handle that was never minted (its id is
    /// not below `max_id`) is silently ignored, so a buggy caller cannot
    /// poison the pool.
    pub fn deallocate(&mut self, entity: Entity)
        ensures
            entity.0 < old(self)@.max_id ==> final(self)@ == (AllocatorView {
                max_id: old(self)@.max_id,
                available: old(self)@.available.push(entity),
            }),
            entity.0 >= old(self)@.max_id ==> final(self)@ == old(self)@,
    {
        if entity.id() < self.max_id {
            self.available_entities.push(entity);
        }
    }
}

impl Default for EntityAllocator {
    fn default() -> (r: EntityAllocator)
        ensures
            r@.max_id == 0,
            r@.available == Seq::<Entity>::empty(),
    {
        EntityAllocator::new()
    }
}


/// With an empty recycle queue, `n` allocations mint the consecutive ids
/// starting at `max_id`, and leave the queue empty.
pub proof fn lemma_allocate_run_sequential(v: AllocatorView, n: nat)
    requires
        v.wf(),
        v.available.len() == 0,
        v.max_id + n <= u64::MAX,
    ensures
        v.allocate_run(n).len() == n,
        forall|k: int| 0 <= k < n ==> (#[trigger] v.allocate_run(n)[k]).0 == v.max_id + k,
        v.allocate_state(n) == (AllocatorView { max_id: v.max_id + n, available: v.available }),
        v.allocate_state(n).wf(),
    decreases n,
{
    if n > 0 {
        let (e, v2) = v.allocate_step();
        lemma_allocate_run_sequential(v2, (n - 1) as nat);
        assert(v.allocate_run(n) == seq![e] + v2.allocate_run((n - 1) as nat));
        assert forall|k: int| 0 <= k < n implies (#[trigger] v.allocate_run(n)[k]).0 == v.max_id
            + k by {
            if k > 0 {
                assert(v.allocate_run(n)[k] == v2.allocate_run((n - 1) as nat)[k - 1]);
            }
        }
    }
}

} // verus!

