//! Placeholder volumes: one coarse collision volume per block whose maximum
//! requested level is the placeholder level, tracked here by block position
//! and mirrored in the physics adapter's miscellaneous channel.

use vstd::prelude::*;

use crate::assoc::{has_key, keys_unique, lemma_push_frame, lemma_remove_frame, lemma_value_at,
    value_of};
use crate::block_position::BlockPosition;
use crate::id_allocator::{EntityId, IdAllocator};
use crate::physics::Physics;

verus! {

/// The blocks currently backed only by a placeholder volume, each with the
/// entity id of that volume.
pub struct InProgressTerrain {
    pub blocks: Vec<(BlockPosition, EntityId)>,
}

impl InProgressTerrain {
    pub open spec fn wf(self) -> bool {
        &&& keys_unique(self.blocks@)
        &&& forall|i: int, j: int|
            0 <= i < self.blocks@.len() && 0 <= j < self.blocks@.len()
                && (#[trigger] self.blocks@[i]).1 == (#[trigger] self.blocks@[j]).1 ==> i == j
    }

    /// A placeholder volume exists for `position`.
    pub open spec fn spec_has(self, position: BlockPosition) -> bool {
        has_key(self.blocks@, position)
    }

    /// The id of the placeholder volume for `position`.
    pub open spec fn spec_id(self, position: BlockPosition) -> EntityId {
        value_of(self.blocks@, position)
    }

    /// Every placeholder id lies below the watermark `m`.
    pub open spec fn ids_below(self, m: EntityId) -> bool {
        forall|i: int| 0 <= i < self.blocks@.len() ==> (#[trigger] self.blocks@[i]).1 < m
    }

    pub fn new() -> (r: InProgressTerrain)
        ensures
            r.wf(),
            r.blocks@.len() == 0,
            forall|p: BlockPosition| !(#[trigger] r.spec_has(p)),
            forall|m: EntityId| #[trigger] r.ids_below(m),
    {
        InProgressTerrain { blocks: Vec::new() }
    }

    fn find_index(&self, position: &BlockPosition) -> (r: Option<usize>)
        ensures
            match r {
                Some(i) => i < self.blocks@.len() && self.blocks@[i as int].0 == *position,
                None => !has_key(self.blocks@, *position),
            },
    {
        let n = self.blocks.len();
        let mut i: usize = 0;
        while i < n
            invariant
                n == self.blocks@.len(),
                i <= n,
                forall|j: int| 0 <= j < i ==> (#[trigger] self.blocks@[j]).0 != *position,
            decreases n - i,
        {
            if self.blocks[i].0 == *position {
                return Some(i);
            }
            i = i + 1;
        }
        None
    }

    /// Creates the placeholder volume for `position`: allocates a fresh id
    /// and inserts the volume into physics. Callers must not double-insert.
    pub fn insert(
        &mut self,
        id_allocator: &mut IdAllocator,
        physics: &mut Physics,
        position: BlockPosition,
    )
        requires
            old(self).wf(),
            old(physics).wf(),
            !old(self).spec_has(position),
            old(self).ids_below(old(id_allocator).next),
            forall|x: EntityId|
                #[trigger] old(physics).spec_has_misc(x) ==> x < old(id_allocator).next,
            old(id_allocator).next < EntityId::MAX,
        ensures
            final(self).wf(),
            final(physics).wf(),
            final(self).spec_has(position),
            final(self).spec_id(position) == old(id_allocator).next,
            forall|q: BlockPosition|
                q != position ==> #[trigger] final(self).spec_has(q) == old(self).spec_has(q),
            forall|q: BlockPosition|
                q != position && old(self).spec_has(q) ==> #[trigger] final(self).spec_id(q) == old(
                    self,
                ).spec_id(q),
            final(physics).spec_has_misc(old(id_allocator).next),
            forall|x: EntityId|
                x != old(id_allocator).next ==> #[trigger] final(physics).spec_has_misc(x) == old(
                    physics,
                ).spec_has_misc(x),
            final(physics).terrain@ == old(physics).terrain@,
            final(id_allocator).next == old(id_allocator).next + 1,
            final(self).ids_below(final(id_allocator).next),
            forall|x: EntityId|
                #[trigger] final(physics).spec_has_misc(x) ==> x < final(id_allocator).next,
    {
        let id = id_allocator.allocate();
        let ghost old_blocks = self.blocks@;
        self.blocks.push((position, id));
        proof {
            lemma_push_frame(old_blocks, (position, id));
            assert forall|i: int, j: int|
                0 <= i < self.blocks@.len() && 0 <= j < self.blocks@.len()
                    && (#[trigger] self.blocks@[i]).1 == (#[trigger] self.blocks@[j]).1 implies i
                == j by {
                if i < old_blocks.len() && j < old_blocks.len() {
                    assert(old_blocks[i].1 == old_blocks[j].1);
                } else if i < old_blocks.len() && j == old_blocks.len() {
                    assert(old_blocks[i].1 < id);
                } else if j < old_blocks.len() && i == old_blocks.len() {
                    assert(old_blocks[j].1 < id);
                }
            }
        }
        physics.insert_misc(id);
    }

    /// Destroys the placeholder volume for `position`: removes it from
    /// physics and forgets its id. The volume must exist.
    pub fn remove(&mut self, physics: &mut Physics, position: BlockPosition)
        requires
            old(self).wf(),
            old(physics).wf(),
            old(self).spec_has(position),
        ensures
            final(self).wf(),
            final(physics).wf(),
            !final(self).spec_has(position),
            forall|q: BlockPosition|
                q != position ==> #[trigger] final(self).spec_has(q) == old(self).spec_has(q),
            forall|q: BlockPosition|
                q != position && old(self).spec_has(q) ==> #[trigger] final(self).spec_id(q) == old(
                    self,
                ).spec_id(q),
            !final(physics).spec_has_misc(old(self).spec_id(position)),
            forall|x: EntityId|
                x != old(self).spec_id(position) ==> #[trigger] final(physics).spec_has_misc(x)
                    == old(physics).spec_has_misc(x),
            final(physics).terrain@ == old(physics).terrain@,
            forall|m: EntityId| #[trigger] old(self).ids_below(m) ==> final(self).ids_below(m),
    {
        let ghost old_blocks = self.blocks@;
        let i = match self.find_index(&position) {
            None => {
                proof {
                    assert(false);
                }
                return ;
            },
            Some(i) => i,
        };
        proof {
            lemma_value_at(old_blocks, i as int);
        }
        let id = self.blocks[i].1;
        let _ = self.blocks.remove(i);
        proof {
            lemma_remove_frame(old_blocks, i as int);
            let t = self.blocks@;
            assert forall|a: int| 0 <= a < t.len() implies #[trigger] t[a] == old_blocks[
                if a < i {
                    a
                } else {
                    a + 1
                }
            ] by {}
            assert forall|a: int, b: int|
                0 <= a < t.len() && 0 <= b < t.len() && (#[trigger] t[a]).1 == (#[trigger] t[b]).1
                implies a == b by {
                let a0 = if a < i as int { a } else { a + 1 };
                let b0 = if b < i as int { b } else { b + 1 };
                assert(old_blocks[a0].1 == old_blocks[b0].1);
            }
        }
        physics.remove_misc(id);
    }
}

} // verus!
