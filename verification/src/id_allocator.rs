//! Allocation of entity ids for collision shapes.

use vstd::prelude::*;

verus! {

/// Identifier of one collision shape (one terrain feature or one placeholder
/// volume) inside the physics simulation.
pub type EntityId = u64;

/// Hands out entity ids that were never handed out before: every id returned
/// is the next unused integer.
pub struct IdAllocator {
    pub next: EntityId,
}

impl IdAllocator {
    pub fn new() -> (r: IdAllocator)
        ensures
            r.next == 0,
    {
        IdAllocator { next: 0 }
    }

    /// Returns a fresh id: no earlier call on this allocator returned it, and
    /// every id below `next` is considered spoken for.
    pub fn allocate(&mut self) -> (r: EntityId)
        requires
            old(self).next < EntityId::MAX,
        ensures
            r == old(self).next,
            final(self).next == old(self).next + 1,
    {
        let r = self.next;
        self.next = self.next + 1;
        r
    }
}

} // verus!
