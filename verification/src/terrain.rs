//! The generation cache: every piece of block content ever produced, indexed
//! by block position and detail level. Grow-only; content is immutable once
//! stored and is referenced, never copied, when synchronizing physics.

use vstd::prelude::*;

use crate::assoc::{has_key, keys_unique, lemma_push_frame, lemma_update_frame, lemma_value_at,
    value_of};
use crate::block_position::BlockPosition;
use crate::id_allocator::EntityId;

verus! {

/// Ground cover of one generated terrain feature.
#[derive(Clone, Copy, PartialEq, Eq, Structural, Hash, Debug)]
pub enum TerrainType {
    Grass,
    Dirt,
    Stone,
}

/// Content generated for one block at one detail level: one entry per
/// feature, each feature identified by the entity id under which its
/// collision shape is keyed. The rendering payload (vertices, bounds) stays
/// with the generator; the coordinator only tracks the ids.
#[derive(Debug)]
pub struct TerrainBlock {
    pub typs: Vec<TerrainType>,
    pub ids: Vec<EntityId>,
}

impl TerrainBlock {
    pub fn new() -> (r: TerrainBlock)
        ensures
            r.typs@ == Seq::<TerrainType>::empty(),
            r.ids@ == Seq::<EntityId>::empty(),
    {
        TerrainBlock { typs: Vec::new(), ids: Vec::new() }
    }
}

/// Content for one block, one slot per detail level.
#[derive(Debug)]
pub struct MipMesh {
    pub lods: Vec<Option<TerrainBlock>>,
}

/// The cache of all blocks ever generated.
pub struct Terrain {
    pub all_blocks: Vec<(BlockPosition, MipMesh)>,
}

impl Terrain {
    pub open spec fn wf(self) -> bool {
        keys_unique(self.all_blocks@)
    }

    /// The content cached for `position` at level `k`, if any.
    pub open spec fn spec_slot(self, position: BlockPosition, k: int) -> Option<TerrainBlock> {
        if has_key(self.all_blocks@, position) && 0 <= k < value_of(
            self.all_blocks@,
            position,
        ).lods@.len() {
            value_of(self.all_blocks@, position).lods@[k]
        } else {
            None
        }
    }

    pub fn new() -> (r: Terrain)
        ensures
            r.wf(),
            r.all_blocks@.len() == 0,
            forall|p: BlockPosition, k: int| #[trigger] r.spec_slot(p, k) is None,
    {
        Terrain { all_blocks: Vec::new() }
    }

    fn find_index(&self, position: &BlockPosition) -> (r: Option<usize>)
        ensures
            match r {
                Some(i) => i < self.all_blocks@.len() && self.all_blocks@[i as int].0 == *position,
                None => !has_key(self.all_blocks@, *position),
            },
    {
        let n = self.all_blocks.len();
        let mut i: usize = 0;
        while i < n
            invariant
                n == self.all_blocks@.len(),
                i <= n,
                forall|j: int| 0 <= j < i ==> (#[trigger] self.all_blocks@[j]).0 != *position,
            decreases n - i,
        {
            if self.all_blocks[i].0 == *position {
                return Some(i);
            }
            i = i + 1;
        }
        None
    }

    /// Looks the cache up for `position` at level `k`: a hit borrows the
    /// stored content, a miss means this slot was never filled.
    pub fn get(&self, position: &BlockPosition, k: u32) -> (r: Option<&TerrainBlock>)
        requires
            self.wf(),
        ensures
            match r {
                Some(b) => self.spec_slot(*position, k as int) == Some(*b),
                None => self.spec_slot(*position, k as int) is None,
            },
    {
        let bi = match self.find_index(position) {
            None => {
                return None;
            },
            Some(bi) => bi,
        };
        proof {
            lemma_value_at(self.all_blocks@, bi as int);
        }
        let lods = &self.all_blocks[bi].1.lods;
        if (k as usize) < lods.len() {
            match &lods[k as usize] {
                None => None,
                Some(b) => Some(b),
            }
        } else {
            None
        }
    }

    /// Stores `block` as the content for `position` at level `k`,
    /// overwriting whatever the slot held. No other slot changes.
    pub fn put(&mut self, position: BlockPosition, k: u32, block: TerrainBlock)
        requires
            old(self).wf(),
        ensures
            final(self).wf(),
            final(self).spec_slot(position, k as int) == Some(block),
            forall|q: BlockPosition, j: int|
                q != position ==> #[trigger] final(self).spec_slot(q, j) == old(self).spec_slot(
                    q,
                    j,
                ),
            forall|j: int|
                j != k as int ==> #[trigger] final(self).spec_slot(position, j) == old(
                    self,
                ).spec_slot(position, j),
    {
        let ghost old_blocks = self.all_blocks@;
        let bi: usize;
        match self.find_index(&position) {
            None => {
                bi = self.all_blocks.len();
                self.all_blocks.push((position, MipMesh { lods: Vec::new() }));
                proof {
                    lemma_push_frame(old_blocks, self.all_blocks@[bi as int]);
                }
            },
            Some(i) => {
                bi = i;
                proof {
                    lemma_value_at(old_blocks, bi as int);
                }
            },
        }
        let ghost pre_blocks = self.all_blocks@;
        let ghost pre_lods = self.all_blocks@[bi as int].1.lods@;
        while self.all_blocks[bi].1.lods.len() <= k as usize
            invariant
                0 <= bi < self.all_blocks@.len(),
                self.all_blocks@.len() == pre_blocks.len(),
                self.all_blocks@[bi as int].0 == pre_blocks[bi as int].0,
                forall|j: int| 0 <= j < self.all_blocks@.len() && j != bi ==> self.all_blocks@[j]
                    == pre_blocks[j],
                pre_lods.len() <= self.all_blocks@[bi as int].1.lods@.len(),
                forall|j: int|
                    0 <= j < pre_lods.len() ==> (#[trigger] self.all_blocks@[bi as int].1.lods@[j])
                        == pre_lods[j],
                forall|j: int|
                    pre_lods.len() <= j < self.all_blocks@[bi as int].1.lods@.len() ==> (
                    #[trigger] self.all_blocks@[bi as int].1.lods@[j]) is None,
            decreases k as int + 1 - self.all_blocks@[bi as int].1.lods@.len(),
        {
            self.all_blocks[bi].1.lods.push(None);
        }
        let ghost grown = self.all_blocks@;
        self.all_blocks[bi].1.lods[k as usize] = Some(block);
        proof {
            let nb = self.all_blocks@;
            assert(nb == grown.update(bi as int, nb[bi as int]));
            assert forall|j: int| 0 <= j < nb.len() && j != bi implies nb[j] == pre_blocks[j] by {
                assert(grown[j] == pre_blocks[j]);
            }
            assert(nb[bi as int].0 == position);
            if bi as int == old_blocks.len() {
                assert(nb =~= old_blocks.push(nb[bi as int]));
                lemma_push_frame(old_blocks, nb[bi as int]);
                assert(!has_key(old_blocks, position));
            } else {
                assert(nb =~= old_blocks.update(bi as int, nb[bi as int]));
                lemma_update_frame(old_blocks, bi as int, nb[bi as int]);
                lemma_value_at(old_blocks, bi as int);
                assert(value_of(old_blocks, position) == old_blocks[bi as int].1);
            }
            assert(value_of(nb, position) == nb[bi as int].1);
            assert(nb[bi as int].1.lods@[k as int] == Some(block));
            assert(final(self).spec_slot(position, k as int) == Some(block));
            assert forall|j: int| j != k as int implies #[trigger] final(self).spec_slot(
                position,
                j,
            ) == old(self).spec_slot(position, j) by {
                if 0 <= j < nb[bi as int].1.lods@.len() {
                    if j < pre_lods.len() {
                        assert(nb[bi as int].1.lods@[j] == pre_lods[j]);
                    } else {
                        assert(nb[bi as int].1.lods@[j] is None);
                    }
                }
            }
        }
    }
}

} // verus!
