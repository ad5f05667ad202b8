//! The streaming coordinator: reconciles competing per-owner detail-level
//! requests into one per-block decision, consults the generation cache,
//! dispatches asynchronous generation requests on a miss, applies completed
//! generations, and keeps the physics adapter exactly in step with the level
//! that is resident.

use vstd::prelude::*;

use crate::assoc::{has_key, value_of};
use crate::block_position::BlockPosition;
use crate::id_allocator::{EntityId, IdAllocator};
use crate::in_progress_terrain::InProgressTerrain;
use crate::lod::{lod_le_exec, Lod, OwnerId};
use crate::lod_map::{at_most_one_at_least, is_max_of, lemma_decision_exact, lemma_max_unique,
    lemma_records_unique, max_change_decision, max_of_records, no_record_at_least, records_updated,
    LodMap, Transition};
use crate::physics::{ids_unique, Physics};
use crate::terrain::{Terrain, TerrainBlock};

verus! {

/// Outbound message to the asynchronous generation worker: produce content
/// for `position` at level `lod`, wanted on behalf of `owner`.
#[derive(Clone, Copy, PartialEq, Eq, Structural, Hash, Debug)]
pub struct GenerationRequest {
    pub position: BlockPosition,
    pub lod: u32,
    pub owner: OwnerId,
}

/// No id occurs in both sequences.
pub open spec fn ids_disjoint(a: Seq<EntityId>, b: Seq<EntityId>) -> bool {
    forall|i: int, j: int|
        0 <= i < a.len() && 0 <= j < b.len() ==> #[trigger] a[i] != #[trigger] b[j]
}

/// The ids of two cache slots never overlap (vacuous when either is empty).
pub open spec fn slots_disjoint(
    terrain: Terrain,
    p1: BlockPosition,
    k1: int,
    p2: BlockPosition,
    k2: int,
) -> bool {
    match (terrain.spec_slot(p1, k1), terrain.spec_slot(p2, k2)) {
        (Some(b1), Some(b2)) => ids_disjoint(b1.ids@, b2.ids@),
        _ => true,
    }
}

/// Cache hygiene: within a slot the feature ids are pairwise distinct, and
/// distinct slots never share an id.
pub open spec fn cache_wf(terrain: Terrain) -> bool {
    &&& forall|p: BlockPosition, k: int|
        (#[trigger] terrain.spec_slot(p, k)) matches Some(b) ==> ids_unique(b.ids@)
    &&& forall|p1: BlockPosition, k1: int, p2: BlockPosition, k2: int|
        (p1 != p2 || k1 != k2) ==> #[trigger] slots_disjoint(terrain, p1, k1, p2, k2)
}

/// Newly generated content carries ids never seen before: pairwise distinct
/// and absent from every cached slot.
pub open spec fn content_fresh(terrain: Terrain, block: TerrainBlock) -> bool {
    &&& ids_unique(block.ids@)
    &&& forall|p: BlockPosition, k: int|
        (#[trigger] terrain.spec_slot(p, k)) matches Some(b) ==> ids_disjoint(b.ids@, block.ids@)
}

/// What is resident for `position` matches the registry's resident record:
/// the placeholder volume exists exactly when the placeholder level is
/// resident, and the physics adapter holds exactly the resident content's
/// feature ids (and nothing when no real level is resident).
pub open spec fn resident_sync(
    lod_map: LodMap,
    terrain: Terrain,
    in_progress_terrain: InProgressTerrain,
    physics: Physics,
    p: BlockPosition,
) -> bool {
    &&& in_progress_terrain.spec_has(p) == (lod_map.spec_loaded(p) == Some(Lod::Placeholder))
    &&& match lod_map.spec_loaded(p) {
        Some(Lod::LodIndex(k)) => match terrain.spec_slot(p, k as int) {
            Some(b) => physics.spec_terrain(p) == Some(b.ids@),
            None => false,
        },
        _ => physics.spec_terrain(p) is None,
    }
}

/// The per-block coordinator invariant: an entry implies owners, the maximum
/// requested level is resident unless its content is still missing from the
/// cache (a generation is then in flight), and physics matches the resident
/// record exactly.
pub open spec fn inv_block(
    lod_map: LodMap,
    terrain: Terrain,
    in_progress_terrain: InProgressTerrain,
    physics: Physics,
    p: BlockPosition,
) -> bool {
    &&& lod_map.spec_has(p) ==> lod_map.spec_records(p).len() > 0
    &&& forall|m: Lod|
        is_max_of(#[trigger] lod_map.spec_records(p), m) ==> lod_map.spec_loaded(p) == Some(m) || (
        m matches Lod::LodIndex(k) && terrain.spec_slot(p, k as int) is None)
    &&& resident_sync(lod_map, terrain, in_progress_terrain, physics, p)
}

/// The coordinator invariant over all state the coordinator touches.
pub open spec fn components_inv(
    lod_map: LodMap,
    terrain: Terrain,
    in_progress_terrain: InProgressTerrain,
    physics: Physics,
) -> bool {
    &&& lod_map.wf()
    &&& terrain.wf()
    &&& in_progress_terrain.wf()
    &&& physics.wf()
    &&& cache_wf(terrain)
    &&& forall|p: BlockPosition|
        #[trigger] inv_block(lod_map, terrain, in_progress_terrain, physics, p)
}

/// The coordinator invariant as the apply step needs it: every other block
/// keeps its full invariant, while for `position` itself only the parts that
/// storing new content cannot disturb are demanded — the entry has owners,
/// a placeholder maximum is resident, and physics matches the resident
/// record. (Storing content for `position` may satisfy an in-flight maximum,
/// which is exactly what the apply step then reconciles.)
pub open spec fn apply_inv(
    lod_map: LodMap,
    terrain: Terrain,
    in_progress_terrain: InProgressTerrain,
    physics: Physics,
    position: BlockPosition,
) -> bool {
    &&& lod_map.wf()
    &&& terrain.wf()
    &&& in_progress_terrain.wf()
    &&& physics.wf()
    &&& cache_wf(terrain)
    &&& forall|q: BlockPosition|
        q != position ==> #[trigger] inv_block(lod_map, terrain, in_progress_terrain, physics, q)
    &&& lod_map.spec_has(position) ==> lod_map.spec_records(position).len() > 0
    &&& is_max_of(lod_map.spec_records(position), Lod::Placeholder) ==> lod_map.spec_loaded(
        position,
    ) == Some(Lod::Placeholder)
    &&& resident_sync(lod_map, terrain, in_progress_terrain, physics, position)
}

/// The full invariant implies the apply step's weaker one, at any block.
pub proof fn lemma_inv_implies_apply_inv(
    lod_map: LodMap,
    terrain: Terrain,
    in_progress_terrain: InProgressTerrain,
    physics: Physics,
    position: BlockPosition,
)
    requires
        components_inv(lod_map, terrain, in_progress_terrain, physics),
    ensures
        apply_inv(lod_map, terrain, in_progress_terrain, physics, position),
{
    assert(inv_block(lod_map, terrain, in_progress_terrain, physics, position));
}

/// Every id already spent on a placeholder volume lies below the allocator's
/// watermark, so freshly allocated ids never collide.
pub open spec fn ids_fresh(
    in_progress_terrain: InProgressTerrain,
    physics: Physics,
    next: EntityId,
) -> bool {
    &&& in_progress_terrain.ids_below(next)
    &&& forall|x: EntityId| #[trigger] physics.spec_has_misc(x) ==> x < next
}

/// Loads and unloads block content. Each block can be claimed by a set of
/// owners, each independently requesting a detail level; the maximum
/// requested level is the one actually kept loaded.
pub struct TerrainGameLoader {
    pub terrain: Terrain,
    pub in_progress_terrain: InProgressTerrain,
    pub lod_map: LodMap,
}

impl TerrainGameLoader {
    /// The coordinator invariant, tied to the physics adapter it drives.
    pub open spec fn inv(self, physics: Physics) -> bool {
        components_inv(self.lod_map, self.terrain, self.in_progress_terrain, physics)
    }

    /// An owner's desired detail level for a block changed: record it and
    /// reconcile.
    ///
    /// When the request leaves the block's maximum requested level unchanged
    /// only the registry record is updated: no generation request, no physics
    /// action. A repeated identical request changes nothing at all. When the
    /// maximum moves, the resident content is swapped at once if the needed
    /// content is cached (creating or destroying the placeholder volume as
    /// the levels dictate); on a cache miss the returned generation request
    /// must be forwarded to the generation worker, and the block keeps its
    /// current content until the result is applied.
    pub fn load(
        &mut self,
        id_allocator: &mut IdAllocator,
        physics: &mut Physics,
        position: BlockPosition,
        new_lod: Lod,
        owner: OwnerId,
    ) -> (r: Option<GenerationRequest>)
        requires
            old(self).inv(*old(physics)),
            ids_fresh(old(self).in_progress_terrain, *old(physics), old(id_allocator).next),
            old(id_allocator).next < EntityId::MAX,
        ensures
            final(self).inv(*final(physics)),
            ids_fresh(final(self).in_progress_terrain, *final(physics), final(id_allocator).next),
            old(id_allocator).next <= final(id_allocator).next <= old(id_allocator).next + 1,
            final(self).terrain == old(self).terrain,
            final(self).lod_map.spec_owner(position, owner) == Some(new_lod),
            forall|o: OwnerId|
                o != owner ==> #[trigger] final(self).lod_map.spec_owner(position, o) == old(
                    self,
                ).lod_map.spec_owner(position, o),
            forall|q: BlockPosition|
                q != position ==> #[trigger] final(self).lod_map.spec_records(q) == old(
                    self,
                ).lod_map.spec_records(q),
            forall|q: BlockPosition|
                q != position ==> #[trigger] final(self).lod_map.spec_loaded(q) == old(
                    self,
                ).lod_map.spec_loaded(q),
            forall|q: BlockPosition|
                q != position ==> #[trigger] final(physics).spec_terrain(q) == old(
                    physics,
                ).spec_terrain(q),
            forall|q: BlockPosition|
                q != position ==> #[trigger] final(self).in_progress_terrain.spec_has(q) == old(
                    self,
                ).in_progress_terrain.spec_has(q),
            // A repeated identical request is a complete no-op.
            old(self).lod_map.spec_owner(position, owner) == Some(new_lod) ==> *final(self) == *old(
                self,
            ) && *final(physics) == *old(physics) && *final(id_allocator) == *old(id_allocator)
                && r is None,
            // A request that does not move the maximum is bookkeeping only.
            !max_change_decision(
                old(self).lod_map.spec_records(position),
                old(self).lod_map.spec_owner(position, owner),
                new_lod,
            ) ==> final(self).lod_map.spec_loaded(position) == old(self).lod_map.spec_loaded(
                position,
            ) && *final(physics) == *old(physics) && final(self).in_progress_terrain == old(
                self,
            ).in_progress_terrain && *final(id_allocator) == *old(id_allocator) && r is None,
            // A generation request is dispatched exactly on a cache miss for
            // the new maximum, and then nothing else happens.
            match r {
                Some(req) => {
                    &&& req.position == position
                    &&& req.owner == owner
                    &&& is_max_of(
                        final(self).lod_map.spec_records(position),
                        Lod::LodIndex(req.lod),
                    )
                    &&& old(self).terrain.spec_slot(position, req.lod as int) is None
                    &&& final(self).lod_map.spec_loaded(position) == old(self).lod_map.spec_loaded(
                        position,
                    )
                    &&& *final(physics) == *old(physics)
                    &&& final(self).in_progress_terrain == old(self).in_progress_terrain
                    &&& *final(id_allocator) == *old(id_allocator)
                },
                None => max_change_decision(
                    old(self).lod_map.spec_records(position),
                    old(self).lod_map.spec_owner(position, owner),
                    new_lod,
                ) ==> forall|m: Lod|
                    is_max_of(#[trigger] final(self).lod_map.spec_records(position), m)
                        ==> final(self).lod_map.spec_loaded(position) == Some(m),
            },
    {
        let ghost old_records = self.lod_map.spec_records(position);
        let ghost old_prev = self.lod_map.spec_owner(position, owner);
        // Consult the registry and decide, by exact counting, whether this
        // request moves the block's maximum requested level.
        let prev_lod: Option<Lod>;
        let max_lod_changed: bool;
        match self.lod_map.get(&position, owner) {
            Some((prev, lods)) => {
                match prev {
                    Some(prev_val) => {
                        if new_lod == prev_val {
                            // Idempotent re-request.
                            return None;
                        }
                        prev_lod = Some(prev_val);
                        if lod_le_exec(new_lod, prev_val) {
                            // Lowering: the maximum moves only if this owner
                            // was the sole holder of the current maximum.
                            max_lod_changed = at_most_one_at_least(lods, prev_val);
                        } else {
                            // Raising: the maximum moves only if no record
                            // already demands at least this much.
                            max_lod_changed = no_record_at_least(lods, new_lod);
                        }
                    },
                    None => {
                        prev_lod = None;
                        max_lod_changed = no_record_at_least(lods, new_lod);
                    },
                }
            },
            None => {
                prev_lod = None;
                max_lod_changed = true;
            },
        }
        proof {
            assert(prev_lod == old_prev);
            assert(max_lod_changed == max_change_decision(old_records, old_prev, new_lod));
            assert(inv_block(
                self.lod_map,
                self.terrain,
                self.in_progress_terrain,
                *physics,
                position,
            ));
        }
        let (_, change) = self.lod_map.insert(position, new_lod, owner);
        proof {
            lemma_records_unique(old(self).lod_map, position);
            lemma_records_unique(self.lod_map, position);
            let t_recs = self.lod_map.spec_records(position);
            assert(has_key(t_recs, owner) && value_of(t_recs, owner) == new_lod);
            assert forall|k: OwnerId| k != owner implies #[trigger] has_key(t_recs, k) == has_key(
                old_records,
                k,
            ) by {
                assert(self.lod_map.spec_owner(position, k) == old(self).lod_map.spec_owner(
                    position,
                    k,
                ));
            }
            assert forall|k: OwnerId| k != owner && has_key(old_records, k) implies #[trigger]
            value_of(t_recs, k) == value_of(old_records, k) by {
                assert(self.lod_map.spec_owner(position, k) == old(self).lod_map.spec_owner(
                    position,
                    k,
                ));
            }
            assert(records_updated(old_records, t_recs, owner, new_lod));
        }
        if !max_lod_changed {
            // The maximum is untouched: the registry update was all there is
            // to do.
            proof {
                let m_new: Lod = match change {
                    Some(tt) => tt.desired->0,
                    None => self.lod_map.spec_loaded(position)->0,
                };
                assert(is_max_of(self.lod_map.spec_records(position), m_new));
                lemma_decision_exact(
                    old_records,
                    self.lod_map.spec_records(position),
                    owner,
                    new_lod,
                    old_prev,
                    m_new,
                );
                assert(is_max_of(old_records, m_new));
                assert forall|m2: Lod| is_max_of(
                    #[trigger] self.lod_map.spec_records(position),
                    m2,
                ) implies self.lod_map.spec_loaded(position) == Some(m2) || (
                m2 matches Lod::LodIndex(k2) && self.terrain.spec_slot(position, k2 as int)
                    is None) by {
                    lemma_max_unique(self.lod_map.spec_records(position), m2, m_new);
                    assert(is_max_of(old_records, m_new));
                    assert(inv_block(
                        old(self).lod_map,
                        self.terrain,
                        self.in_progress_terrain,
                        *physics,
                        position,
                    ));
                }
                assert(inv_block(
                    self.lod_map,
                    self.terrain,
                    self.in_progress_terrain,
                    *physics,
                    position,
                ));
                reconcile_frame_proof(
                    old(self).lod_map,
                    self.terrain,
                    self.in_progress_terrain,
                    *physics,
                    self.lod_map,
                    self.in_progress_terrain,
                    *physics,
                    position,
                );
            }
            return None;
        }
        match change {
            None => {
                // The registry says the new maximum is already resident.
                proof {
                    let m_new: Lod = self.lod_map.spec_loaded(position)->0;
                    assert(is_max_of(self.lod_map.spec_records(position), m_new));
                    assert(self.lod_map.spec_loaded(position) == Some(m_new));
                    assert forall|m2: Lod| is_max_of(
                        #[trigger] self.lod_map.spec_records(position),
                        m2,
                    ) implies self.lod_map.spec_loaded(position) == Some(m2) by {
                        lemma_max_unique(self.lod_map.spec_records(position), m2, m_new);
                    }
                    assert(inv_block(
                        self.lod_map,
                        self.terrain,
                        self.in_progress_terrain,
                        *physics,
                        position,
                    ));
                    reconcile_frame_proof(
                        old(self).lod_map,
                        self.terrain,
                        self.in_progress_terrain,
                        *physics,
                        self.lod_map,
                        self.in_progress_terrain,
                        *physics,
                        position,
                    );
                }
                None
            },
            Some(t) => {
                proof {
                    assert forall|q: BlockPosition| q != position implies #[trigger] inv_block(
                        self.lod_map,
                        self.terrain,
                        self.in_progress_terrain,
                        *physics,
                        q,
                    ) by {
                        assert(inv_block(
                            old(self).lod_map,
                            old(self).terrain,
                            old(self).in_progress_terrain,
                            *old(physics),
                            q,
                        ));
                        assert(self.lod_map.spec_records(q) == old(self).lod_map.spec_records(q));
                        assert(self.lod_map.spec_loaded(q) == old(self).lod_map.spec_loaded(q));
                        assert(self.lod_map.spec_has(q) == old(self).lod_map.spec_has(q));
                    }
                }
                let result = reconcile(
                    &self.terrain,
                    &mut self.lod_map,
                    &mut self.in_progress_terrain,
                    physics,
                    id_allocator,
                    position,
                    t,
                    owner,
                );
                proof {
                    if result is None {
                        let m: Lod = t.desired->0;
                        assert forall|m2: Lod| is_max_of(
                            #[trigger] self.lod_map.spec_records(position),
                            m2,
                        ) implies self.lod_map.spec_loaded(position) == Some(m2) by {
                            lemma_max_unique(self.lod_map.spec_records(position), m2, m);
                        }
                    }
                }
                result
            },
        }
    }

    /// The apply step, shared by the cache-hit path and a completed
    /// generation: brings the block in line with whatever its registry entry
    /// now calls for, using cached content only.
    ///
    /// A block without a registry entry (released before the apply) is left
    /// untouched: the stale result is discarded silently. A block whose
    /// maximum is already resident is likewise left untouched. Otherwise the
    /// resident content is swapped for the cached content of the maximum
    /// requested level, or — should that level's slot still be empty — a
    /// generation request for it is handed back.
    pub fn insert_block(
        position: BlockPosition,
        owner: OwnerId,
        terrain: &Terrain,
        lod_map: &mut LodMap,
        in_progress_terrain: &mut InProgressTerrain,
        physics: &mut Physics,
        id_allocator: &mut IdAllocator,
    ) -> (r: Option<GenerationRequest>)
        requires
            apply_inv(*old(lod_map), *terrain, *old(in_progress_terrain), *old(physics), position),
            ids_fresh(*old(in_progress_terrain), *old(physics), old(id_allocator).next),
        ensures
            components_inv(*final(lod_map), *terrain, *final(in_progress_terrain), *final(physics)),
            ids_fresh(*final(in_progress_terrain), *final(physics), final(id_allocator).next),
            *final(id_allocator) == *old(id_allocator),
            forall|q: BlockPosition|
                #[trigger] final(lod_map).spec_has(q) == old(lod_map).spec_has(q),
            forall|q: BlockPosition|
                #[trigger] final(lod_map).spec_records(q) == old(lod_map).spec_records(q),
            forall|q: BlockPosition|
                q != position ==> #[trigger] final(lod_map).spec_loaded(q) == old(
                    lod_map,
                ).spec_loaded(q),
            forall|q: BlockPosition|
                q != position ==> #[trigger] final(physics).spec_terrain(q) == old(
                    physics,
                ).spec_terrain(q),
            forall|q: BlockPosition|
                q != position ==> #[trigger] final(in_progress_terrain).spec_has(q) == old(
                    in_progress_terrain,
                ).spec_has(q),
            !old(lod_map).spec_has(position) ==> *final(lod_map) == *old(lod_map)
                && *final(physics) == *old(physics)
                && *final(in_progress_terrain) == *old(in_progress_terrain) && r is None,
            (old(lod_map).spec_loaded(position) matches Some(m) && is_max_of(
                old(lod_map).spec_records(position),
                m,
            )) ==> *final(lod_map) == *old(lod_map) && *final(physics) == *old(physics)
                && *final(in_progress_terrain) == *old(in_progress_terrain) && r is None,
            match r {
                Some(req) => {
                    &&& req.position == position
                    &&& req.owner == owner
                    &&& is_max_of(
                        final(lod_map).spec_records(position),
                        Lod::LodIndex(req.lod),
                    )
                    &&& terrain.spec_slot(position, req.lod as int) is None
                    &&& *final(lod_map) == *old(lod_map)
                    &&& *final(physics) == *old(physics)
                    &&& *final(in_progress_terrain) == *old(in_progress_terrain)
                },
                None => forall|m: Lod|
                    is_max_of(#[trigger] final(lod_map).spec_records(position), m)
                        ==> final(lod_map).spec_loaded(position) == Some(m),
            },
    {
        let m: Lod;
        let loaded: Option<Lod>;
        match lod_map.get(&position, owner) {
            None => {
                // Released before this apply: discard the stale result.
                proof {
                    assert(inv_block(
                        *lod_map,
                        *terrain,
                        *in_progress_terrain,
                        *physics,
                        position,
                    ));
                    assert forall|q: BlockPosition| #[trigger] inv_block(
                        *lod_map,
                        *terrain,
                        *in_progress_terrain,
                        *physics,
                        q,
                    ) by {
                        if q != position {
                            assert(inv_block(
                                *old(lod_map),
                                *terrain,
                                *old(in_progress_terrain),
                                *old(physics),
                                q,
                            ));
                        }
                    }
                }
                return None;
            },
            Some((_, lods)) => {
                proof {
                    assert(lod_map.spec_records(position).len() > 0);
                }
                m = max_of_records(lods);
                loaded = lod_map.get_loaded(&position);
            },
        }
        let act = match loaded {
            Some(l0) => l0 != m,
            None => true,
        };
        if !act {
            // The maximum is already resident: nothing to do.
            proof {
                assert forall|m2: Lod| is_max_of(
                    #[trigger] lod_map.spec_records(position),
                    m2,
                ) implies lod_map.spec_loaded(position) == Some(m2) by {
                    lemma_max_unique(lod_map.spec_records(position), m2, m);
                }
                assert(inv_block(
                    *lod_map,
                    *terrain,
                    *in_progress_terrain,
                    *physics,
                    position,
                ));
                assert forall|q: BlockPosition| #[trigger] inv_block(
                    *lod_map,
                    *terrain,
                    *in_progress_terrain,
                    *physics,
                    q,
                ) by {
                    if q != position {
                        assert(inv_block(
                            *old(lod_map),
                            *terrain,
                            *old(in_progress_terrain),
                            *old(physics),
                            q,
                        ));
                    }
                }
            }
            return None;
        }
        let t = Transition { loaded, desired: Some(m) };
        proof {
            if m == Lod::Placeholder {
                assert(lod_map.spec_loaded(position) == Some(Lod::Placeholder));
                assert(false);
            }
            match t.loaded {
                Some(l0) => {
                    if is_max_of(lod_map.spec_records(position), l0) {
                        lemma_max_unique(lod_map.spec_records(position), l0, m);
                        assert(false);
                    }
                },
                None => {},
            }
        }
        let result = reconcile(
            terrain,
            lod_map,
            in_progress_terrain,
            physics,
            id_allocator,
            position,
            t,
            owner,
        );
        proof {
            if result is None {
                assert forall|m2: Lod| is_max_of(
                    #[trigger] lod_map.spec_records(position),
                    m2,
                ) implies lod_map.spec_loaded(position) == Some(m2) by {
                    lemma_max_unique(lod_map.spec_records(position), m2, m);
                }
            }
        }
        result
    }

    /// A generation completed: store the content in the cache and apply it.
    ///
    /// A completion for the level already resident is dropped whole
    /// (duplicate delivery); one for a block that lost its owners leaves the
    /// block fully unloaded, keeping only the cached content. The content's
    /// feature ids must be fresh: pairwise distinct and never seen by the
    /// cache before.
    pub fn apply_generated(
        &mut self,
        id_allocator: &mut IdAllocator,
        physics: &mut Physics,
        position: BlockPosition,
        lod: u32,
        block: TerrainBlock,
        owner: OwnerId,
    ) -> (r: Option<GenerationRequest>)
        requires
            old(self).inv(*old(physics)),
            content_fresh(old(self).terrain, block),
            ids_fresh(old(self).in_progress_terrain, *old(physics), old(id_allocator).next),
        ensures
            final(self).inv(*final(physics)),
            ids_fresh(final(self).in_progress_terrain, *final(physics), final(id_allocator).next),
            *final(id_allocator) == *old(id_allocator),
            forall|q: BlockPosition|
                #[trigger] final(self).lod_map.spec_has(q) == old(self).lod_map.spec_has(q),
            forall|q: BlockPosition|
                #[trigger] final(self).lod_map.spec_records(q) == old(self).lod_map.spec_records(
                    q,
                ),
            forall|q: BlockPosition|
                q != position ==> #[trigger] final(self).lod_map.spec_loaded(q) == old(
                    self,
                ).lod_map.spec_loaded(q),
            forall|q: BlockPosition|
                q != position ==> #[trigger] final(physics).spec_terrain(q) == old(
                    physics,
                ).spec_terrain(q),
            forall|q: BlockPosition|
                q != position ==> #[trigger] final(self).in_progress_terrain.spec_has(q) == old(
                    self,
                ).in_progress_terrain.spec_has(q),
            forall|q: BlockPosition, j: int|
                q != position ==> #[trigger] final(self).terrain.spec_slot(q, j) == old(
                    self,
                ).terrain.spec_slot(q, j),
            // A completion for a block that was released leaves it unloaded.
            !old(self).lod_map.spec_has(position) ==> final(self).lod_map == old(self).lod_map
                && *final(physics) == *old(physics) && final(self).in_progress_terrain == old(
                self,
            ).in_progress_terrain && r is None,
            old(self).lod_map.spec_loaded(position) != Some(Lod::LodIndex(lod))
                ==> final(self).terrain.spec_slot(position, lod as int) == Some(block),
            r matches Some(req) ==> req.position == position && req.owner == owner && is_max_of(
                final(self).lod_map.spec_records(position),
                Lod::LodIndex(req.lod),
            ) && final(self).terrain.spec_slot(position, req.lod as int) is None,
            (r is None && old(self).lod_map.spec_loaded(position) != Some(Lod::LodIndex(lod)))
                ==> forall|m: Lod|
                is_max_of(#[trigger] final(self).lod_map.spec_records(position), m)
                    ==> final(self).lod_map.spec_loaded(position) == Some(m),
    {
        match self.lod_map.get_loaded(&position) {
            Some(l0) => {
                match l0 {
                    Lod::LodIndex(j) => {
                        if j == lod {
                            // Duplicate delivery for the resident level.
                            return None;
                        }
                    },
                    Lod::Placeholder => {},
                }
            },
            None => {},
        }
        let ghost old_terrain = self.terrain;
        self.terrain.put(position, lod, block);
        proof {
            apply_put_proof(
                self.lod_map,
                self.in_progress_terrain,
                *physics,
                old_terrain,
                self.terrain,
                position,
                lod,
                block,
            );
        }
        TerrainGameLoader::insert_block(
            position,
            owner,
            &self.terrain,
            &mut self.lod_map,
            &mut self.in_progress_terrain,
            physics,
            id_allocator,
        )
    }

    /// An owner no longer cares about a block: delete its record and
    /// reconcile.
    ///
    /// When the owner had no record, nothing happens. When other owners keep
    /// the maximum where it was, only the record disappears. When the
    /// maximum drops, the resident content is swapped down (or the
    /// placeholder volume restored, or — for the last owner — everything
    /// taken down); a swap down to a level whose content is not cached hands
    /// back a generation request for it.
    #[verifier::rlimit(50)]
    pub fn unload(
        &mut self,
        id_allocator: &mut IdAllocator,
        physics: &mut Physics,
        position: BlockPosition,
        owner: OwnerId,
    ) -> (r: Option<GenerationRequest>)
        requires
            old(self).inv(*old(physics)),
            ids_fresh(old(self).in_progress_terrain, *old(physics), old(id_allocator).next),
            old(id_allocator).next < EntityId::MAX,
        ensures
            final(self).inv(*final(physics)),
            ids_fresh(final(self).in_progress_terrain, *final(physics), final(id_allocator).next),
            old(id_allocator).next <= final(id_allocator).next <= old(id_allocator).next + 1,
            final(self).terrain == old(self).terrain,
            final(self).lod_map.spec_owner(position, owner) is None,
            forall|o: OwnerId|
                o != owner ==> #[trigger] final(self).lod_map.spec_owner(position, o) == old(
                    self,
                ).lod_map.spec_owner(position, o),
            forall|q: BlockPosition|
                q != position ==> #[trigger] final(self).lod_map.spec_records(q) == old(
                    self,
                ).lod_map.spec_records(q),
            forall|q: BlockPosition|
                q != position ==> #[trigger] final(self).lod_map.spec_loaded(q) == old(
                    self,
                ).lod_map.spec_loaded(q),
            forall|q: BlockPosition|
                q != position ==> #[trigger] final(physics).spec_terrain(q) == old(
                    physics,
                ).spec_terrain(q),
            forall|q: BlockPosition|
                q != position ==> #[trigger] final(self).in_progress_terrain.spec_has(q) == old(
                    self,
                ).in_progress_terrain.spec_has(q),
            // An owner without a record changes nothing.
            old(self).lod_map.spec_owner(position, owner) is None ==> *final(self) == *old(self)
                && *final(physics) == *old(physics) && *final(id_allocator) == *old(id_allocator)
                && r is None,
            // The last owner leaving takes the block down entirely: no
            // registry entry, no collision shapes, no placeholder volume.
            (forall|o: OwnerId|
                has_key(#[trigger] old(self).lod_map.spec_records(position), o) ==> o == owner)
                ==> !final(self).lod_map.spec_has(position) && final(physics).spec_terrain(
                position,
            ) is None && !final(self).in_progress_terrain.spec_has(position) && r is None,
            r matches Some(req) ==> req.position == position && req.owner == owner && is_max_of(
                final(self).lod_map.spec_records(position),
                Lod::LodIndex(req.lod),
            ) && old(self).terrain.spec_slot(position, req.lod as int) is None,
            (r is None && old(self).lod_map.spec_owner(position, owner) is Some) ==> forall|m: Lod|
                is_max_of(#[trigger] final(self).lod_map.spec_records(position), m)
                    ==> final(self).lod_map.spec_loaded(position) == Some(m),
    {
        let (prev, change) = self.lod_map.remove(position, owner);
        let ghost mid_lm = self.lod_map;
        match change {
            None => {
                proof {
                    assert(inv_block(
                        old(self).lod_map,
                        old(self).terrain,
                        old(self).in_progress_terrain,
                        *old(physics),
                        position,
                    ));
                    if prev is Some {
                        if self.lod_map.spec_has(position) {
                            let m_new: Lod = self.lod_map.spec_loaded(position)->0;
                            assert forall|m2: Lod| is_max_of(
                                #[trigger] self.lod_map.spec_records(position),
                                m2,
                            ) implies self.lod_map.spec_loaded(position) == Some(m2) by {
                                lemma_max_unique(self.lod_map.spec_records(position), m2, m_new);
                            }
                        }
                        assert(inv_block(
                            self.lod_map,
                            self.terrain,
                            self.in_progress_terrain,
                            *physics,
                            position,
                        ));
                        reconcile_frame_proof(
                            old(self).lod_map,
                            self.terrain,
                            self.in_progress_terrain,
                            *physics,
                            self.lod_map,
                            self.in_progress_terrain,
                            *physics,
                            position,
                        );
                    }
                    if forall|o: OwnerId|
                        has_key(#[trigger] old(self).lod_map.spec_records(position), o) ==> o
                            == owner {
                        if self.lod_map.spec_has(position) {
                            let recs = self.lod_map.spec_records(position);
                            if recs.len() > 0 {
                                assert(has_key(recs, recs[0].0));
                                assert(recs[0].0 == owner);
                                assert(self.lod_map.spec_owner(position, owner) is None);
                                assert(false);
                            } else {
                                assert(false);
                            }
                        }
                        assert(self.lod_map.spec_loaded(position) is None);
                        assert(!old(self).lod_map.spec_has(position) || old(
                            self,
                        ).lod_map.spec_loaded(position) is None);
                        assert(physics.spec_terrain(position) is None);
                        assert(!self.in_progress_terrain.spec_has(position));
                    }
                }
                None
            },
            Some(t) => {
                proof {
                    assert(inv_block(
                        old(self).lod_map,
                        old(self).terrain,
                        old(self).in_progress_terrain,
                        *old(physics),
                        position,
                    ));
                    assert forall|q: BlockPosition| q != position implies #[trigger] inv_block(
                        self.lod_map,
                        self.terrain,
                        self.in_progress_terrain,
                        *physics,
                        q,
                    ) by {
                        assert(inv_block(
                            old(self).lod_map,
                            old(self).terrain,
                            old(self).in_progress_terrain,
                            *old(physics),
                            q,
                        ));
                        assert(self.lod_map.spec_records(q) == old(self).lod_map.spec_records(q));
                        assert(self.lod_map.spec_loaded(q) == old(self).lod_map.spec_loaded(q));
                        assert(self.lod_map.spec_has(q) == old(self).lod_map.spec_has(q));
                    }
                }
                let result = reconcile(
                    &self.terrain,
                    &mut self.lod_map,
                    &mut self.in_progress_terrain,
                    physics,
                    id_allocator,
                    position,
                    t,
                    owner,
                );
                proof {
                    assert forall|o: OwnerId| o != owner implies #[trigger] self.lod_map.spec_owner(
                        position,
                        o,
                    ) == old(self).lod_map.spec_owner(position, o) by {
                        assert(mid_lm.spec_owner(position, o) == old(self).lod_map.spec_owner(
                            position,
                            o,
                        ));
                        if t.desired is Some {
                            assert(self.lod_map.spec_records(position) == mid_lm.spec_records(
                                position,
                            ));
                        } else {
                            assert(!self.lod_map.spec_has(position));
                            assert(mid_lm.spec_records(position).len() == 0);
                        }
                    }
                    if result is None && t.desired is Some {
                        let m: Lod = t.desired->0;
                        assert forall|m2: Lod| is_max_of(
                            #[trigger] self.lod_map.spec_records(position),
                            m2,
                        ) implies self.lod_map.spec_loaded(position) == Some(m2) by {
                            lemma_max_unique(self.lod_map.spec_records(position), m2, m);
                        }
                    }
                    if t.desired is None {
                        assert(self.lod_map.spec_records(position).len() == 0);
                    }
                    if forall|o: OwnerId|
                        has_key(#[trigger] old(self).lod_map.spec_records(position), o) ==> o
                            == owner {
                        match t.desired {
                            Some(mm) => {
                                let recs = mid_lm.spec_records(position);
                                assert(is_max_of(recs, mm));
                                let i0 = choose|i: int|
                                    0 <= i < recs.len() && (#[trigger] recs[i]).1 == mm;
                                assert(has_key(recs, recs[i0].0));
                                assert(recs[i0].0 == owner);
                                assert(mid_lm.spec_owner(position, owner) is None);
                                assert(false);
                            },
                            None => {},
                        }
                        assert(!self.lod_map.spec_has(position));
                        assert(inv_block(
                            self.lod_map,
                            self.terrain,
                            self.in_progress_terrain,
                            *physics,
                            position,
                        ));
                        assert(physics.spec_terrain(position) is None);
                        assert(!self.in_progress_terrain.spec_has(position));
                    }
                }
                result
            },
        }
    }

    pub fn new() -> (r: TerrainGameLoader)
        ensures
            r.lod_map.blocks@.len() == 0,
            r.terrain.all_blocks@.len() == 0,
            r.in_progress_terrain.blocks@.len() == 0,
    {
        TerrainGameLoader {
            terrain: Terrain::new(),
            in_progress_terrain: InProgressTerrain::new(),
            lod_map: LodMap::new(),
        }
    }
}

/// A coordinator with no entries, an empty cache and an empty physics
/// simulation satisfies the invariant, whatever the allocator's watermark.
pub proof fn lemma_empty_inv(
    lod_map: LodMap,
    terrain: Terrain,
    in_progress_terrain: InProgressTerrain,
    physics: Physics,
    next: EntityId,
)
    requires
        lod_map.blocks@.len() == 0,
        terrain.all_blocks@.len() == 0,
        in_progress_terrain.blocks@.len() == 0,
        physics.terrain@.len() == 0,
        physics.misc@.len() == 0,
    ensures
        components_inv(lod_map, terrain, in_progress_terrain, physics),
        ids_fresh(in_progress_terrain, physics, next),
{
    assert forall|p: BlockPosition| #[trigger] inv_block(
        lod_map,
        terrain,
        in_progress_terrain,
        physics,
        p,
    ) by {
        assert(!lod_map.spec_has(p));
        assert(lod_map.spec_records(p).len() == 0);
    }
}

/// Brings what is resident for `position` in line with the transition `t`
/// that a registry operation reported: destroys and creates the placeholder
/// volume and the content's collision shapes as needed, records the new
/// resident level, and — when the desired content is not cached yet — leaves
/// everything in place and hands back the generation request to dispatch.
fn reconcile(
    terrain: &Terrain,
    lod_map: &mut LodMap,
    in_progress_terrain: &mut InProgressTerrain,
    physics: &mut Physics,
    id_allocator: &mut IdAllocator,
    position: BlockPosition,
    t: Transition,
    owner: OwnerId,
) -> (r: Option<GenerationRequest>)
    requires
        old(lod_map).wf(),
        terrain.wf(),
        old(in_progress_terrain).wf(),
        old(physics).wf(),
        cache_wf(*terrain),
        forall|q: BlockPosition|
            q != position ==> #[trigger] inv_block(
                *old(lod_map),
                *terrain,
                *old(in_progress_terrain),
                *old(physics),
                q,
            ),
        old(lod_map).spec_has(position),
        t.loaded == old(lod_map).spec_loaded(position),
        t.desired != t.loaded,
        match t.desired {
            Some(m) => is_max_of(old(lod_map).spec_records(position), m),
            None => old(lod_map).spec_records(position).len() == 0,
        },
        resident_sync(*old(lod_map), *terrain, *old(in_progress_terrain), *old(physics), position),
        t.desired == Some(Lod::Placeholder) ==> old(id_allocator).next < EntityId::MAX,
        ids_fresh(*old(in_progress_terrain), *old(physics), old(id_allocator).next),
    ensures
        final(lod_map).wf(),
        final(in_progress_terrain).wf(),
        final(physics).wf(),
        forall|q: BlockPosition| #[trigger] inv_block(
            *final(lod_map),
            *terrain,
            *final(in_progress_terrain),
            *final(physics),
            q,
        ),
        forall|q: BlockPosition|
            q != position ==> #[trigger] final(lod_map).spec_has(q) == old(lod_map).spec_has(q),
        forall|q: BlockPosition|
            q != position ==> #[trigger] final(lod_map).spec_records(q) == old(
                lod_map,
            ).spec_records(q),
        forall|q: BlockPosition|
            q != position ==> #[trigger] final(lod_map).spec_loaded(q) == old(lod_map).spec_loaded(
                q,
            ),
        forall|q: BlockPosition|
            q != position ==> #[trigger] final(physics).spec_terrain(q) == old(
                physics,
            ).spec_terrain(q),
        forall|q: BlockPosition|
            q != position ==> #[trigger] final(in_progress_terrain).spec_has(q) == old(
                in_progress_terrain,
            ).spec_has(q),
        t.desired is Some ==> final(lod_map).spec_records(position) == old(lod_map).spec_records(
            position,
        ) && final(lod_map).spec_has(position),
        t.desired is None ==> !final(lod_map).spec_has(position),
        ids_fresh(*final(in_progress_terrain), *final(physics), final(id_allocator).next),
        old(id_allocator).next <= final(id_allocator).next <= old(id_allocator).next + 1,
        t.desired != Some(Lod::Placeholder) ==> *final(id_allocator) == *old(id_allocator),
        match r {
            Some(req) => {
                &&& req.position == position
                &&& req.owner == owner
                &&& t.desired == Some(Lod::LodIndex(req.lod))
                &&& terrain.spec_slot(position, req.lod as int) is None
                &&& *final(lod_map) == *old(lod_map)
                &&& *final(physics) == *old(physics)
                &&& *final(in_progress_terrain) == *old(in_progress_terrain)
                &&& *final(id_allocator) == *old(id_allocator)
            },
            None => final(lod_map).spec_loaded(position) == t.desired,
        },
{
    let ghost old_lm = *lod_map;
    let ghost old_ipt = *in_progress_terrain;
    let ghost old_phys = *physics;
    match t.desired {
        None => {
            // The block lost its last owner: take down whatever is resident.
            match t.loaded {
                None => {
                    proof {
                        assert(false);
                    }
                },
                Some(Lod::Placeholder) => {
                    in_progress_terrain.remove(physics, position);
                },
                Some(Lod::LodIndex(_)) => {
                    physics.remove_shapes(position);
                },
            }
            lod_map.set_loaded(position, None);
            proof {
                assert forall|x: EntityId| #[trigger] physics.spec_has_misc(x) implies x
                    < id_allocator.next by {
                    if t.loaded == Some(Lod::Placeholder) {
                        if x == old_ipt.spec_id(position) {
                            assert(!physics.spec_has_misc(x));
                        } else {
                            assert(old_phys.spec_has_misc(x));
                        }
                    } else {
                        assert(physics.misc@ == old_phys.misc@);
                        assert(old_phys.spec_has_misc(x));
                    }
                }
                assert(old_ipt.ids_below(id_allocator.next));
                assert(in_progress_terrain.ids_below(id_allocator.next));
                assert forall|q: BlockPosition| q != position implies #[trigger] physics
                    .spec_terrain(q) == old_phys.spec_terrain(q) by {
                    if t.loaded == Some(Lod::Placeholder) {
                        assert(physics.terrain@ == old_phys.terrain@);
                    }
                }
                reconcile_frame_proof(
                    old_lm,
                    *terrain,
                    old_ipt,
                    old_phys,
                    *lod_map,
                    *in_progress_terrain,
                    *physics,
                    position,
                );
                assert(inv_block(*lod_map, *terrain, *in_progress_terrain, *physics, position));
            }
            None
        },
        Some(Lod::Placeholder) => {
            // The placeholder level became the maximum: swap the resident
            // content, if any, for a coarse placeholder volume.
            match t.loaded {
                None => {},
                Some(Lod::Placeholder) => {
                    proof {
                        assert(false);
                    }
                },
                Some(Lod::LodIndex(_)) => {
                    physics.remove_shapes(position);
                },
            }
            let ghost mid_phys = *physics;
            proof {
                assert(physics.misc@ == old_phys.misc@);
                assert forall|x: EntityId| #[trigger] physics.spec_has_misc(x) implies x
                    < id_allocator.next by {
                    assert(old_phys.spec_has_misc(x));
                }
            }
            in_progress_terrain.insert(id_allocator, physics, position);
            lod_map.set_loaded(position, Some(Lod::Placeholder));
            proof {
                assert forall|q: BlockPosition| q != position implies #[trigger] physics
                    .spec_terrain(q) == old_phys.spec_terrain(q) by {
                    assert(physics.terrain@ == mid_phys.terrain@);
                    if t.loaded is None {
                        assert(mid_phys == old_phys);
                    } else {
                        assert(mid_phys.spec_terrain(q) == old_phys.spec_terrain(q));
                    }
                }
                reconcile_frame_proof(
                    old_lm,
                    *terrain,
                    old_ipt,
                    old_phys,
                    *lod_map,
                    *in_progress_terrain,
                    *physics,
                    position,
                );
                assert forall|m2: Lod| is_max_of(
                    #[trigger] lod_map.spec_records(position),
                    m2,
                ) implies lod_map.spec_loaded(position) == Some(m2) by {
                    lemma_max_unique(lod_map.spec_records(position), m2, Lod::Placeholder);
                }
                assert(inv_block(*lod_map, *terrain, *in_progress_terrain, *physics, position));
            }
            None
        },
        Some(Lod::LodIndex(k)) => {
            match terrain.get(&position, k) {
                None => {
                    // Not generated yet: ask the worker and leave the block
                    // as it stands until the result is applied.
                    proof {
                        assert forall|q: BlockPosition| #[trigger] inv_block(
                            *lod_map,
                            *terrain,
                            *in_progress_terrain,
                            *physics,
                            q,
                        ) by {
                            if q != position {
                                assert(inv_block(old_lm, *terrain, old_ipt, old_phys, q));
                            } else {
                                assert forall|m2: Lod| is_max_of(
                                    #[trigger] lod_map.spec_records(position),
                                    m2,
                                ) implies m2 == Lod::LodIndex(k) by {
                                    lemma_max_unique(
                                        lod_map.spec_records(position),
                                        m2,
                                        Lod::LodIndex(k),
                                    );
                                }
                            }
                        }
                    }
                    Some(GenerationRequest { position, lod: k, owner })
                },
                Some(block) => {
                    // Cached: remove what the old level had resident, insert
                    // the new level's shapes, and record the swap.
                    match t.loaded {
                        None => {},
                        Some(Lod::Placeholder) => {
                            in_progress_terrain.remove(physics, position);
                        },
                        Some(Lod::LodIndex(_)) => {
                            physics.remove_shapes(position);
                        },
                    }
                    let ghost mid_phys = *physics;
                    physics.insert_shapes(position, &block.ids);
                    lod_map.set_loaded(position, Some(Lod::LodIndex(k)));
                    proof {
                        assert(physics.misc@ == mid_phys.misc@);
                        assert forall|x: EntityId| #[trigger] physics.spec_has_misc(x) implies x
                            < id_allocator.next by {
                            assert(mid_phys.spec_has_misc(x));
                            if t.loaded == Some(Lod::Placeholder) {
                                if x == old_ipt.spec_id(position) {
                                    assert(!mid_phys.spec_has_misc(x));
                                } else {
                                    assert(old_phys.spec_has_misc(x));
                                }
                            } else {
                                assert(mid_phys.misc@ == old_phys.misc@);
                                assert(old_phys.spec_has_misc(x));
                            }
                        }
                        assert(old_ipt.ids_below(id_allocator.next));
                        assert(in_progress_terrain.ids_below(id_allocator.next));
                        reconcile_frame_proof(
                            old_lm,
                            *terrain,
                            old_ipt,
                            old_phys,
                            *lod_map,
                            *in_progress_terrain,
                            *physics,
                            position,
                        );
                        assert forall|m2: Lod| is_max_of(
                            #[trigger] lod_map.spec_records(position),
                            m2,
                        ) implies lod_map.spec_loaded(position) == Some(m2) by {
                            lemma_max_unique(lod_map.spec_records(position), m2, Lod::LodIndex(k));
                        }
                        assert(inv_block(
                            *lod_map,
                            *terrain,
                            *in_progress_terrain,
                            *physics,
                            position,
                        ));
                    }
                    None
                },
            }
        },
    }
}

/// The maximum invariant: in any reachable state, once the content for a
/// block's maximum requested level is in the cache (no generation is in
/// flight for it), that maximum is exactly what is resident — its collision
/// shapes are in physics when it is a real level, the placeholder volume
/// exists exactly when it is the placeholder level.
pub proof fn lemma_maximum_invariant(
    lod_map: LodMap,
    terrain: Terrain,
    in_progress_terrain: InProgressTerrain,
    physics: Physics,
    position: BlockPosition,
    m: Lod,
)
    requires
        components_inv(lod_map, terrain, in_progress_terrain, physics),
        is_max_of(lod_map.spec_records(position), m),
        m matches Lod::LodIndex(k) ==> terrain.spec_slot(position, k as int) is Some,
    ensures
        lod_map.spec_loaded(position) == Some(m),
        in_progress_terrain.spec_has(position) == (m == Lod::Placeholder),
        m matches Lod::LodIndex(k) ==> (match terrain.spec_slot(position, k as int) {
            Some(b) => physics.spec_terrain(position) == Some(b.ids@),
            None => false,
        }),
        m == Lod::Placeholder ==> physics.spec_terrain(position) is None,
{
    assert(inv_block(lod_map, terrain, in_progress_terrain, physics, position));
}

/// A block without owners holds nothing: no registry entry, no collision
/// shapes, no placeholder volume.
pub proof fn lemma_unloaded_block(
    lod_map: LodMap,
    terrain: Terrain,
    in_progress_terrain: InProgressTerrain,
    physics: Physics,
    position: BlockPosition,
)
    requires
        components_inv(lod_map, terrain, in_progress_terrain, physics),
        !lod_map.spec_has(position),
    ensures
        physics.spec_terrain(position) is None,
        !in_progress_terrain.spec_has(position),
{
    assert(inv_block(lod_map, terrain, in_progress_terrain, physics, position));
}

/// No duplicate and no dangling geometry: in any reachable state, the
/// collision shapes physics holds for a block are exactly the feature ids of
/// the content cached for its resident level — never a mix of levels, never
/// anything for a block with no real level resident — and those ids are
/// pairwise distinct.
pub proof fn lemma_geometry_exact(
    lod_map: LodMap,
    terrain: Terrain,
    in_progress_terrain: InProgressTerrain,
    physics: Physics,
    position: BlockPosition,
)
    requires
        components_inv(lod_map, terrain, in_progress_terrain, physics),
    ensures
        match lod_map.spec_loaded(position) {
            Some(Lod::LodIndex(k)) => match terrain.spec_slot(position, k as int) {
                Some(b) => physics.spec_terrain(position) == Some(b.ids@) && ids_unique(b.ids@),
                None => false,
            },
            _ => physics.spec_terrain(position) is None,
        },
{
    assert(inv_block(lod_map, terrain, in_progress_terrain, physics, position));
    match lod_map.spec_loaded(position) {
        Some(Lod::LodIndex(k)) => {
            assert(terrain.spec_slot(position, k as int) is Some);
        },
        _ => {},
    }
}

/// Storing fresh content in one cache slot, for a level that is not the one
/// resident, preserves the apply step's invariant.
proof fn apply_put_proof(
    lod_map: LodMap,
    in_progress_terrain: InProgressTerrain,
    physics: Physics,
    old_terrain: Terrain,
    new_terrain: Terrain,
    position: BlockPosition,
    lod: u32,
    block: TerrainBlock,
)
    requires
        components_inv(lod_map, old_terrain, in_progress_terrain, physics),
        content_fresh(old_terrain, block),
        lod_map.spec_loaded(position) != Some(Lod::LodIndex(lod)),
        new_terrain.wf(),
        new_terrain.spec_slot(position, lod as int) == Some(block),
        forall|q: BlockPosition, j: int|
            q != position ==> #[trigger] new_terrain.spec_slot(q, j) == old_terrain.spec_slot(
                q,
                j,
            ),
        forall|j: int|
            j != lod as int ==> #[trigger] new_terrain.spec_slot(position, j)
                == old_terrain.spec_slot(position, j),
    ensures
        apply_inv(lod_map, new_terrain, in_progress_terrain, physics, position),
{
    assert forall|p: BlockPosition, k: int| #[trigger] new_terrain.spec_slot(p, k) is Some
        implies (match new_terrain.spec_slot(p, k) {
        Some(b) => ids_unique(b.ids@),
        None => true,
    }) by {
        if p == position && k == lod as int {
        } else {
            assert(new_terrain.spec_slot(p, k) == old_terrain.spec_slot(p, k));
        }
    }
    assert forall|p1: BlockPosition, k1: int, p2: BlockPosition, k2: int|
        (p1 != p2 || k1 != k2) implies #[trigger] slots_disjoint(
        new_terrain,
        p1,
        k1,
        p2,
        k2,
    ) by {
        if p1 == position && k1 == lod as int {
            assert(new_terrain.spec_slot(p2, k2) == old_terrain.spec_slot(p2, k2));
            match old_terrain.spec_slot(p2, k2) {
                Some(b2) => {
                    assert(ids_disjoint(b2.ids@, block.ids@));
                    assert forall|i: int, j: int|
                        0 <= i < block.ids@.len() && 0 <= j < b2.ids@.len() implies #[trigger]
                    block.ids@[i] != #[trigger] b2.ids@[j] by {
                        assert(b2.ids@[j] != block.ids@[i]);
                    }
                },
                None => {},
            }
        } else if p2 == position && k2 == lod as int {
            assert(new_terrain.spec_slot(p1, k1) == old_terrain.spec_slot(p1, k1));
            match old_terrain.spec_slot(p1, k1) {
                Some(b1) => {
                    assert(ids_disjoint(b1.ids@, block.ids@));
                },
                None => {},
            }
        } else {
            assert(new_terrain.spec_slot(p1, k1) == old_terrain.spec_slot(p1, k1));
            assert(new_terrain.spec_slot(p2, k2) == old_terrain.spec_slot(p2, k2));
            assert(slots_disjoint(old_terrain, p1, k1, p2, k2));
        }
    }
    assert forall|q: BlockPosition| q != position implies #[trigger] inv_block(
        lod_map,
        new_terrain,
        in_progress_terrain,
        physics,
        q,
    ) by {
        assert(inv_block(lod_map, old_terrain, in_progress_terrain, physics, q));
        assert forall|m: Lod| is_max_of(#[trigger] lod_map.spec_records(q), m) implies lod_map
            .spec_loaded(q) == Some(m) || (m matches Lod::LodIndex(k) && new_terrain.spec_slot(
            q,
            k as int,
        ) is None) by {
            match m {
                Lod::LodIndex(k) => {
                    assert(new_terrain.spec_slot(q, k as int) == old_terrain.spec_slot(
                        q,
                        k as int,
                    ));
                },
                Lod::Placeholder => {},
            }
        }
        match lod_map.spec_loaded(q) {
            Some(Lod::LodIndex(j)) => {
                assert(new_terrain.spec_slot(q, j as int) == old_terrain.spec_slot(q, j as int));
            },
            _ => {},
        }
    }
    assert(inv_block(lod_map, old_terrain, in_progress_terrain, physics, position));
    match lod_map.spec_loaded(position) {
        Some(Lod::LodIndex(j)) => {
            assert(j != lod);
            assert(new_terrain.spec_slot(position, j as int) == old_terrain.spec_slot(
                position,
                j as int,
            ));
        },
        _ => {},
    }
}

/// After an operation that touched only `position`, every other block keeps
/// its invariant.
proof fn reconcile_frame_proof(
    old_lm: LodMap,
    terrain: Terrain,
    old_ipt: InProgressTerrain,
    old_phys: Physics,
    new_lm: LodMap,
    new_ipt: InProgressTerrain,
    new_phys: Physics,
    position: BlockPosition,
)
    requires
        forall|q: BlockPosition|
            q != position ==> #[trigger] inv_block(old_lm, terrain, old_ipt, old_phys, q),
        forall|q: BlockPosition|
            q != position ==> #[trigger] new_lm.spec_has(q) == old_lm.spec_has(q),
        forall|q: BlockPosition|
            q != position ==> #[trigger] new_lm.spec_records(q) == old_lm.spec_records(q),
        forall|q: BlockPosition|
            q != position ==> #[trigger] new_lm.spec_loaded(q) == old_lm.spec_loaded(q),
        forall|q: BlockPosition|
            q != position ==> #[trigger] new_phys.spec_terrain(q) == old_phys.spec_terrain(q),
        forall|q: BlockPosition|
            q != position ==> #[trigger] new_ipt.spec_has(q) == old_ipt.spec_has(q),
    ensures
        forall|q: BlockPosition|
            q != position ==> #[trigger] inv_block(new_lm, terrain, new_ipt, new_phys, q),
{
    assert forall|q: BlockPosition| q != position implies #[trigger] inv_block(
        new_lm,
        terrain,
        new_ipt,
        new_phys,
        q,
    ) by {
        assert(inv_block(old_lm, terrain, old_ipt, old_phys, q));
        assert(new_lm.spec_records(q) == old_lm.spec_records(q));
        assert(new_lm.spec_loaded(q) == old_lm.spec_loaded(q));
        assert(new_phys.spec_terrain(q) == old_phys.spec_terrain(q));
        assert(new_ipt.spec_has(q) == old_ipt.spec_has(q));
    }
}

} // verus!
