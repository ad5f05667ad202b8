//! The physics synchronization adapter: the collision state the simulation
//! currently holds on behalf of terrain. Terrain feature shapes are keyed by
//! block and carry the content's entity ids; placeholder volumes live in a
//! distinct miscellaneous channel keyed by entity id alone.

use vstd::prelude::*;

use crate::assoc::{has_key, keys_unique, lemma_push_frame, lemma_remove_frame, lemma_value_at,
    value_of};
use crate::block_position::BlockPosition;
use crate::id_allocator::EntityId;

verus! {

/// No id occurs twice.
pub open spec fn ids_unique(s: Seq<EntityId>) -> bool {
    forall|i: int, j: int|
        0 <= i < s.len() && 0 <= j < s.len() && #[trigger] s[i] == #[trigger] s[j] ==> i == j
}

/// `id` occurs in `s`.
pub open spec fn has_id(s: Seq<EntityId>, id: EntityId) -> bool {
    exists|i: int| 0 <= i < s.len() && #[trigger] s[i] == id
}

/// The collision shapes the simulation holds.
pub struct Physics {
    pub terrain: Vec<(BlockPosition, Vec<EntityId>)>,
    pub misc: Vec<EntityId>,
}

impl Physics {
    pub open spec fn wf(self) -> bool {
        &&& keys_unique(self.terrain@)
        &&& ids_unique(self.misc@)
    }

    /// The terrain shape ids resident for `position`, if any.
    pub open spec fn spec_terrain(self, position: BlockPosition) -> Option<Seq<EntityId>> {
        if has_key(self.terrain@, position) {
            Some(value_of(self.terrain@, position)@)
        } else {
            None
        }
    }

    /// A placeholder volume with id `id` is present.
    pub open spec fn spec_has_misc(self, id: EntityId) -> bool {
        has_id(self.misc@, id)
    }

    pub fn new() -> (r: Physics)
        ensures
            r.wf(),
            r.terrain@.len() == 0,
            r.misc@.len() == 0,
            forall|p: BlockPosition| #[trigger] r.spec_terrain(p) is None,
            forall|id: EntityId| !(#[trigger] r.spec_has_misc(id)),
    {
        Physics { terrain: Vec::new(), misc: Vec::new() }
    }

    fn find_index(&self, position: &BlockPosition) -> (r: Option<usize>)
        ensures
            match r {
                Some(i) => i < self.terrain@.len() && self.terrain@[i as int].0 == *position,
                None => !has_key(self.terrain@, *position),
            },
    {
        let n = self.terrain.len();
        let mut i: usize = 0;
        while i < n
            invariant
                n == self.terrain@.len(),
                i <= n,
                forall|j: int| 0 <= j < i ==> (#[trigger] self.terrain@[j]).0 != *position,
            decreases n - i,
        {
            if self.terrain[i].0 == *position {
                return Some(i);
            }
            i = i + 1;
        }
        None
    }

    /// Inserts the collision shapes of one block's content. Duplicate
    /// insertion for a block is a contract violation, so the block must have
    /// no resident shapes.
    pub fn insert_shapes(&mut self, position: BlockPosition, ids: &Vec<EntityId>)
        requires
            old(self).wf(),
            old(self).spec_terrain(position) is None,
        ensures
            final(self).wf(),
            final(self).spec_terrain(position) == Some(ids@),
            forall|q: BlockPosition|
                q != position ==> #[trigger] final(self).spec_terrain(q) == old(self).spec_terrain(
                    q,
                ),
            final(self).misc@ == old(self).misc@,
    {
        let n = ids.len();
        let mut copy: Vec<EntityId> = Vec::new();
        let mut i: usize = 0;
        while i < n
            invariant
                n == ids@.len(),
                i <= n,
                copy@ == ids@.subrange(0, i as int),
            decreases n - i,
        {
            copy.push(ids[i]);
            proof {
                assert(copy@ =~= ids@.subrange(0, i + 1));
            }
            i = i + 1;
        }
        proof {
            assert(copy@ =~= ids@);
        }
        let ghost old_terrain = self.terrain@;
        self.terrain.push((position, copy));
        proof {
            lemma_push_frame(old_terrain, self.terrain@[old_terrain.len() as int]);
        }
    }

    /// Removes every terrain shape resident for `position`. Removing shapes
    /// that are not present is tolerated and does nothing.
    pub fn remove_shapes(&mut self, position: BlockPosition)
        requires
            old(self).wf(),
        ensures
            final(self).wf(),
            final(self).spec_terrain(position) is None,
            forall|q: BlockPosition|
                q != position ==> #[trigger] final(self).spec_terrain(q) == old(self).spec_terrain(
                    q,
                ),
            final(self).misc@ == old(self).misc@,
    {
        let ghost old_terrain = self.terrain@;
        match self.find_index(&position) {
            None => {},
            Some(i) => {
                let _ = self.terrain.remove(i);
                proof {
                    lemma_remove_frame(old_terrain, i as int);
                }
            },
        }
    }

    /// Inserts one placeholder volume. Duplicate insertion of an id is a
    /// contract violation.
    pub fn insert_misc(&mut self, id: EntityId)
        requires
            old(self).wf(),
            !old(self).spec_has_misc(id),
        ensures
            final(self).wf(),
            final(self).spec_has_misc(id),
            forall|x: EntityId|
                x != id ==> #[trigger] final(self).spec_has_misc(x) == old(self).spec_has_misc(x),
            final(self).terrain@ == old(self).terrain@,
    {
        let ghost old_misc = self.misc@;
        self.misc.push(id);
        proof {
            assert(self.misc@[old_misc.len() as int] == id);
            assert forall|a: int, b: int|
                0 <= a < self.misc@.len() && 0 <= b < self.misc@.len() && #[trigger] self.misc@[a]
                    == #[trigger] self.misc@[b] implies a == b by {
                if a < old_misc.len() && b < old_misc.len() {
                    assert(old_misc[a] == old_misc[b]);
                } else if a < old_misc.len() && b == old_misc.len() {
                    assert(has_id(old_misc, id));
                } else if b < old_misc.len() && a == old_misc.len() {
                    assert(has_id(old_misc, id));
                }
            }
            assert forall|x: EntityId| x != id implies #[trigger] final(self).spec_has_misc(x)
                == old(self).spec_has_misc(x) by {
                if has_id(self.misc@, x) {
                    let a = choose|a: int|
                        0 <= a < self.misc@.len() && #[trigger] self.misc@[a] == x;
                    assert(a < old_misc.len() && old_misc[a] == x);
                }
                if has_id(old_misc, x) {
                    let a = choose|a: int| 0 <= a < old_misc.len() && #[trigger] old_misc[a] == x;
                    assert(self.misc@[a] == x);
                }
            }
        }
    }

    /// Removes one placeholder volume. Removing an id that is not present is
    /// tolerated and does nothing.
    pub fn remove_misc(&mut self, id: EntityId)
        requires
            old(self).wf(),
        ensures
            final(self).wf(),
            !final(self).spec_has_misc(id),
            forall|x: EntityId|
                x != id ==> #[trigger] final(self).spec_has_misc(x) == old(self).spec_has_misc(x),
            final(self).terrain@ == old(self).terrain@,
    {
        let ghost old_misc = self.misc@;
        let n = self.misc.len();
        let mut i: usize = 0;
        while i < n
            invariant
                n == self.misc@.len(),
                i <= n,
                old_misc == old(self).misc@,
                self.misc@ == old_misc,
                self.terrain@ == old(self).terrain@,
                old(self).wf(),
                self.wf(),
                forall|j: int| 0 <= j < i ==> #[trigger] self.misc@[j] != id,
            decreases n - i,
        {
            if self.misc[i] == id {
                let _ = self.misc.remove(i);
                proof {
                    let t = self.misc@;
                    assert forall|a: int| 0 <= a < t.len() implies #[trigger] t[a] == old_misc[
                        if a < i {
                            a
                        } else {
                            a + 1
                        }
                    ] by {}
                    assert forall|a: int, b: int|
                        0 <= a < t.len() && 0 <= b < t.len() && #[trigger] t[a] == #[trigger] t[b]
                        implies a == b by {
                        let a0 = if a < i as int { a } else { a + 1 };
                        let b0 = if b < i as int { b } else { b + 1 };
                        assert(old_misc[a0] == old_misc[b0]);
                    }
                    if has_id(t, id) {
                        let a = choose|a: int| 0 <= a < t.len() && #[trigger] t[a] == id;
                        let a0 = if a < i as int { a } else { a + 1 };
                        assert(old_misc[a0] == id && old_misc[i as int] == id && a0 != i);
                    }
                    assert forall|x: EntityId| x != id implies #[trigger] self.spec_has_misc(x)
                        == has_id(old_misc, x) by {
                        assert(self.misc@ == t);
                        if has_id(t, x) {
                            let a = choose|a: int| 0 <= a < t.len() && #[trigger] t[a] == x;
                            let a0 = if a < i as int { a } else { a + 1 };
                            assert(old_misc[a0] == x);
                        }
                        if has_id(old_misc, x) {
                            let a = choose|a: int|
                                0 <= a < old_misc.len() && #[trigger] old_misc[a] == x;
                            if a < i as int {
                                assert(t[a] == x);
                            } else {
                                assert(a != i && t[a - 1] == x);
                            }
                        }
                    }
                    assert(old_misc == old(self).misc@);
                    assert forall|x: EntityId| x != id implies #[trigger] self.spec_has_misc(x)
                        == old(self).spec_has_misc(x) by {
                        assert(self.spec_has_misc(x) == has_id(old_misc, x));
                        assert(old(self).spec_has_misc(x) == has_id(old_misc, x));
                    }
                }
                return ;
            }
            i = i + 1;
        }
    }
}

} // verus!
