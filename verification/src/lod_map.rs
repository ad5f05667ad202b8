//! The owner registry: for every block, the detail level each owner
//! currently requests, together with the level whose content is currently
//! resident in physics.

use vstd::prelude::*;

use crate::assoc::{has_key, keys_unique, lemma_push_frame, lemma_remove_frame, lemma_update_frame,
    lemma_value_at, value_of};
use crate::block_position::BlockPosition;
use crate::lod::{lod_le, lod_le_exec, lod_lt, Lod, OwnerId};

verus! {

/// Returned by a registry operation whose outcome asks the caller to change
/// what is resident: `loaded` is the level resident before the call, `desired`
/// the maximum requested after it (`None` when the block lost its last owner).
#[derive(Clone, Copy, Debug)]
pub struct Transition {
    pub loaded: Option<Lod>,
    pub desired: Option<Lod>,
}

/// Per-block registry entry: one requested level per owner, plus the level
/// whose content is currently resident.
#[derive(Debug)]
pub struct BlockLoadState {
    pub owner_lods: Vec<(OwnerId, Lod)>,
    pub loaded_lod: Option<Lod>,
}

/// `m` is the maximum requested level among the records `s`.
pub open spec fn is_max_of(s: Seq<(OwnerId, Lod)>, m: Lod) -> bool {
    &&& exists|i: int| 0 <= i < s.len() && (#[trigger] s[i]).1 == m
    &&& forall|i: int| 0 <= i < s.len() ==> lod_le((#[trigger] s[i]).1, m)
}

/// A set of records has at most one maximum.
pub proof fn lemma_max_unique(s: Seq<(OwnerId, Lod)>, a: Lod, b: Lod)
    requires
        is_max_of(s, a),
        is_max_of(s, b),
    ensures
        a == b,
{
    let i = choose|i: int| 0 <= i < s.len() && (#[trigger] s[i]).1 == a;
    let j = choose|j: int| 0 <= j < s.len() && (#[trigger] s[j]).1 == b;
    assert(lod_le(s[i].1, b) && lod_le(s[j].1, a));
}

impl BlockLoadState {
    /// Owners are pairwise distinct, and an entry that has lost every owner
    /// can only persist while content for it is still resident.
    pub open spec fn wf(self) -> bool {
        &&& keys_unique(self.owner_lods@)
        &&& self.owner_lods@.len() > 0 || self.loaded_lod is Some
    }
}

/// The owner registry over all blocks.
pub struct LodMap {
    pub blocks: Vec<(BlockPosition, BlockLoadState)>,
}

impl LodMap {
    /// Block positions are pairwise distinct and every entry is well formed.
    pub open spec fn wf(self) -> bool {
        &&& keys_unique(self.blocks@)
        &&& forall|i: int|
            0 <= i < self.blocks@.len() ==> (#[trigger] self.blocks@[i]).1.wf()
    }

    /// The registry has an entry for `position`.
    pub open spec fn spec_has(self, position: BlockPosition) -> bool {
        has_key(self.blocks@, position)
    }

    /// All owner records for `position`; empty when the block has no entry.
    pub open spec fn spec_records(self, position: BlockPosition) -> Seq<(OwnerId, Lod)> {
        if has_key(self.blocks@, position) {
            value_of(self.blocks@, position).owner_lods@
        } else {
            Seq::empty()
        }
    }

    /// The level currently resident for `position`, if any.
    pub open spec fn spec_loaded(self, position: BlockPosition) -> Option<Lod> {
        if has_key(self.blocks@, position) {
            value_of(self.blocks@, position).loaded_lod
        } else {
            None
        }
    }

    /// The level `owner` currently requests for `position`, if any.
    pub open spec fn spec_owner(self, position: BlockPosition, owner: OwnerId) -> Option<Lod> {
        if has_key(self.spec_records(position), owner) {
            Some(value_of(self.spec_records(position), owner))
        } else {
            None
        }
    }

    pub fn new() -> (r: LodMap)
        ensures
            r.wf(),
            r.blocks@.len() == 0,
            forall|p: BlockPosition| !(#[trigger] r.spec_has(p)),
            forall|p: BlockPosition| #[trigger] r.spec_records(p) == Seq::<(OwnerId, Lod)>::empty(),
            forall|p: BlockPosition| #[trigger] r.spec_loaded(p) is None,
    {
        LodMap { blocks: Vec::new() }
    }

    /// Index of the entry for `position`, when one exists.
    fn find_index(&self, position: &BlockPosition) -> (r: Option<usize>)
        ensures
            match r {
                Some(i) => i < self.blocks@.len() && self.blocks@[i as int].0 == *position,
                None => !self.spec_has(*position),
            },
    {
        let n = self.blocks.len();
        let mut i: usize = 0;
        while i < n
            invariant
                n == self.blocks@.len(),
                i <= n,
                forall|j: int| 0 <= j < i ==> (#[trigger] self.blocks@[j]).0 != *position,
            decreases n - i,
        {
            if self.blocks[i].0 == *position {
                return Some(i);
            }
            i = i + 1;
        }
        None
    }

    /// Read-only snapshot for `position`: the level `owner` requests and a
    /// borrow of all owner records; `None` when the block has no entry.
    pub fn get(&self, position: &BlockPosition, owner: OwnerId) -> (r: Option<
        (Option<Lod>, &Vec<(OwnerId, Lod)>),
    >)
        requires
            self.wf(),
        ensures
            match r {
                Some((prev, lods)) => {
                    &&& self.spec_has(*position)
                    &&& lods@ == self.spec_records(*position)
                    &&& prev == self.spec_owner(*position, owner)
                },
                None => !self.spec_has(*position),
            },
    {
        let bi = match self.find_index(position) {
            None => {
                return None;
            },
            Some(bi) => bi,
        };
        proof {
            lemma_value_at(self.blocks@, bi as int);
        }
        let lods = &self.blocks[bi].1.owner_lods;
        let prev = match find_owner_index(lods, owner) {
            None => None,
            Some(oi) => {
                proof {
                    lemma_value_at(lods@, oi as int);
                }
                Some(lods[oi].1)
            },
        };
        Some((prev, lods))
    }

    /// The level currently resident for `position`, if any.
    pub fn get_loaded(&self, position: &BlockPosition) -> (r: Option<Lod>)
        requires
            self.wf(),
        ensures
            r == self.spec_loaded(*position),
    {
        match self.find_index(position) {
            None => None,
            Some(bi) => {
                proof {
                    lemma_value_at(self.blocks@, bi as int);
                }
                self.blocks[bi].1.loaded_lod
            },
        }
    }

    /// Sets (or creates) `owner`'s record for `position` and reports the
    /// resulting reconciliation duty.
    ///
    /// The first result is the level this owner requested before the call.
    /// The second is `Some` exactly when the maximum requested level after
    /// the update differs from the resident level; the resident level itself
    /// is left untouched — the caller brings physics in step and then
    /// records the outcome through `set_loaded`.
    pub fn insert(&mut self, position: BlockPosition, lod: Lod, owner: OwnerId) -> (r: (
        Option<Lod>,
        Option<Transition>,
    ))
        requires
            old(self).wf(),
        ensures
            final(self).wf(),
            r.0 == old(self).spec_owner(position, owner),
            final(self).spec_has(position),
            final(self).spec_records(position).len() > 0,
            final(self).spec_owner(position, owner) == Some(lod),
            forall|o: OwnerId|
                o != owner ==> #[trigger] final(self).spec_owner(position, o) == old(
                    self,
                ).spec_owner(position, o),
            forall|o: OwnerId|
                has_key(#[trigger] final(self).spec_records(position), o) ==> o == owner || has_key(
                    old(self).spec_records(position),
                    o,
                ),
            final(self).spec_loaded(position) == old(self).spec_loaded(position),
            forall|q: BlockPosition|
                q != position ==> #[trigger] final(self).spec_has(q) == old(self).spec_has(q),
            forall|q: BlockPosition|
                q != position ==> #[trigger] final(self).spec_records(q) == old(self).spec_records(
                    q,
                ),
            forall|q: BlockPosition|
                q != position ==> #[trigger] final(self).spec_loaded(q) == old(self).spec_loaded(q),
            match r.1 {
                Some(t) => {
                    &&& t.loaded == old(self).spec_loaded(position)
                    &&& t.desired matches Some(m) && is_max_of(final(self).spec_records(position), m)
                    &&& t.desired != old(self).spec_loaded(position)
                },
                None => old(self).spec_loaded(position) matches Some(m) && is_max_of(
                    final(self).spec_records(position),
                    m,
                ),
            },
    {
        let ghost old_blocks = self.blocks@;
        match self.find_index(&position) {
            None => {
                let mut lods: Vec<(OwnerId, Lod)> = Vec::new();
                lods.push((owner, lod));
                let st = BlockLoadState { owner_lods: lods, loaded_lod: None };
                self.blocks.push((position, st));
                proof {
                    lemma_push_frame(old_blocks, (position, st));
                    lemma_value_at(st.owner_lods@, 0);
                    assert(is_max_of(st.owner_lods@, lod));
                }
                (None, Some(Transition { loaded: None, desired: Some(lod) }))
            },
            Some(bi) => {
                proof {
                    lemma_value_at(old_blocks, bi as int);
                }
                let ghost old_lods = self.blocks@[bi as int].1.owner_lods@;
                let prev: Option<Lod>;
                match find_owner_index(&self.blocks[bi].1.owner_lods, owner) {
                    Some(oi) => {
                        proof {
                            lemma_value_at(old_lods, oi as int);
                        }
                        prev = Some(self.blocks[bi].1.owner_lods[oi].1);
                        self.blocks[bi].1.owner_lods[oi] = (owner, lod);
                        proof {
                            lemma_update_frame(old_lods, oi as int, (owner, lod));
                        }
                    },
                    None => {
                        prev = None;
                        self.blocks[bi].1.owner_lods.push((owner, lod));
                        proof {
                            lemma_push_frame(old_lods, (owner, lod));
                        }
                    },
                }
                proof {
                    lemma_update_frame(
                        old_blocks,
                        bi as int,
                        (position, self.blocks@[bi as int].1),
                    );
                    assert(self.blocks@ == old_blocks.update(
                        bi as int,
                        (position, self.blocks@[bi as int].1),
                    ));
                }
                let m = max_of_records(&self.blocks[bi].1.owner_lods);
                let loaded = self.blocks[bi].1.loaded_lod;
                let change = match loaded {
                    Some(l0) => if l0 == m {
                        None
                    } else {
                        Some(Transition { loaded: Some(l0), desired: Some(m) })
                    },
                    None => Some(Transition { loaded: None, desired: Some(m) }),
                };
                (prev, change)
            },
        }
    }

    /// Deletes `owner`'s record for `position` and reports the resulting
    /// reconciliation duty, under the same convention as `insert`. When
    /// nothing was recorded for this owner, nothing changes and no duty is
    /// reported. An entry that loses its last owner while nothing is resident
    /// disappears at once.
    pub fn remove(&mut self, position: BlockPosition, owner: OwnerId) -> (r: (
        Option<Lod>,
        Option<Transition>,
    ))
        requires
            old(self).wf(),
        ensures
            final(self).wf(),
            r.0 == old(self).spec_owner(position, owner),
            r.0 is None ==> *final(self) == *old(self) && r.1 is None,
            final(self).spec_owner(position, owner) is None,
            forall|o: OwnerId|
                o != owner ==> #[trigger] final(self).spec_owner(position, o) == old(
                    self,
                ).spec_owner(position, o),
            forall|o: OwnerId|
                has_key(#[trigger] final(self).spec_records(position), o) ==> has_key(
                    old(self).spec_records(position),
                    o,
                ),
            final(self).spec_records(position).len() == 0 || final(self).spec_loaded(position)
                == old(self).spec_loaded(position),
            final(self).spec_loaded(position) == old(self).spec_loaded(position)
                || final(self).spec_loaded(position) is None,
            forall|q: BlockPosition|
                q != position ==> #[trigger] final(self).spec_has(q) == old(self).spec_has(q),
            forall|q: BlockPosition|
                q != position ==> #[trigger] final(self).spec_records(q) == old(self).spec_records(
                    q,
                ),
            forall|q: BlockPosition|
                q != position ==> #[trigger] final(self).spec_loaded(q) == old(self).spec_loaded(q),
            match r.1 {
                Some(t) => {
                    &&& t.loaded == old(self).spec_loaded(position)
                    &&& t.desired != old(self).spec_loaded(position)
                    &&& match t.desired {
                        Some(m) => is_max_of(final(self).spec_records(position), m)
                            && final(self).spec_loaded(position) == old(self).spec_loaded(position),
                        None => final(self).spec_records(position).len() == 0
                            && final(self).spec_has(position) && final(self).spec_loaded(position)
                            == old(self).spec_loaded(position),
                    }
                },
                None => r.0 is Some ==> {
                    ||| (old(self).spec_loaded(position) matches Some(m) && is_max_of(
                        final(self).spec_records(position),
                        m,
                    ))
                    ||| (final(self).spec_records(position).len() == 0 && old(self).spec_loaded(
                        position,
                    ) is None && !final(self).spec_has(position))
                },
            },
    {
        let ghost old_blocks = self.blocks@;
        let bi = match self.find_index(&position) {
            None => {
                return (None, None);
            },
            Some(bi) => bi,
        };
        proof {
            lemma_value_at(old_blocks, bi as int);
        }
        let ghost old_lods = self.blocks@[bi as int].1.owner_lods@;
        let oi = match find_owner_index(&self.blocks[bi].1.owner_lods, owner) {
            None => {
                return (None, None);
            },
            Some(oi) => oi,
        };
        proof {
            lemma_value_at(old_lods, oi as int);
        }
        let prev = Some(self.blocks[bi].1.owner_lods[oi].1);
        let _ = self.blocks[bi].1.owner_lods.remove(oi);
        let ghost mid_blocks = self.blocks@;
        proof {
            lemma_remove_frame(old_lods, oi as int);
            lemma_update_frame(old_blocks, bi as int, (position, mid_blocks[bi as int].1));
            assert(mid_blocks == old_blocks.update(bi as int, (position, mid_blocks[bi as int].1)));
        }
        let loaded = self.blocks[bi].1.loaded_lod;
        if self.blocks[bi].1.owner_lods.len() == 0 {
            // The last owner left. With nothing resident the entry
            // disappears; otherwise it stays until the caller has unloaded
            // the resident content and recorded that through `set_loaded`.
            match loaded {
                None => {
                    let _ = self.blocks.remove(bi);
                    proof {
                        lemma_remove_frame(mid_blocks, bi as int);
                    }
                    (prev, None)
                },
                Some(l0) => {
                    (prev, Some(Transition { loaded: Some(l0), desired: None }))
                },
            }
        } else {
            let m = max_of_records(&self.blocks[bi].1.owner_lods);
            let change = match loaded {
                Some(l0) => if l0 == m {
                    None
                } else {
                    Some(Transition { loaded: Some(l0), desired: Some(m) })
                },
                None => Some(Transition { loaded: None, desired: Some(m) }),
            };
            (prev, change)
        }
    }

    /// Records the level now resident for `position`. An entry left with
    /// neither owners nor resident content disappears.
    pub fn set_loaded(&mut self, position: BlockPosition, loaded: Option<Lod>)
        requires
            old(self).wf(),
            old(self).spec_has(position),
        ensures
            final(self).wf(),
            final(self).spec_loaded(position) == loaded,
            final(self).spec_records(position) == old(self).spec_records(position),
            final(self).spec_has(position) == (old(self).spec_records(position).len() > 0
                || loaded is Some),
            forall|q: BlockPosition|
                q != position ==> #[trigger] final(self).spec_has(q) == old(self).spec_has(q),
            forall|q: BlockPosition|
                q != position ==> #[trigger] final(self).spec_records(q) == old(self).spec_records(
                    q,
                ),
            forall|q: BlockPosition|
                q != position ==> #[trigger] final(self).spec_loaded(q) == old(self).spec_loaded(q),
    {
        let ghost old_blocks = self.blocks@;
        let bi = match self.find_index(&position) {
            None => {
                proof {
                    assert(false);
                }
                return ;
            },
            Some(bi) => bi,
        };
        proof {
            lemma_value_at(old_blocks, bi as int);
        }
        let prune = self.blocks[bi].1.owner_lods.len() == 0 && loaded.is_none();
        if prune {
            let _ = self.blocks.remove(bi);
            proof {
                lemma_remove_frame(old_blocks, bi as int);
            }
        } else {
            self.blocks[bi].1.loaded_lod = loaded;
            proof {
                lemma_update_frame(old_blocks, bi as int, (position, self.blocks@[bi as int].1));
                assert(self.blocks@ == old_blocks.update(
                    bi as int,
                    (position, self.blocks@[bi as int].1),
                ));
            }
        }
    }
}

/// In a well-formed registry the records of any block carry pairwise
/// distinct owners.
pub proof fn lemma_records_unique(lm: LodMap, position: BlockPosition)
    requires
        lm.wf(),
    ensures
        keys_unique(lm.spec_records(position)),
{
    if lm.spec_has(position) {
        let i = choose|i: int|
            0 <= i < lm.blocks@.len() && (#[trigger] lm.blocks@[i]).0 == position;
        lemma_value_at(lm.blocks@, i);
    }
}

/// Index of `owner`'s record, when one exists.
pub fn find_owner_index(lods: &Vec<(OwnerId, Lod)>, owner: OwnerId) -> (r: Option<usize>)
    ensures
        match r {
            Some(i) => i < lods@.len() && lods@[i as int].0 == owner,
            None => !has_key(lods@, owner),
        },
{
    let n = lods.len();
    let mut i: usize = 0;
    while i < n
        invariant
            n == lods@.len(),
            i <= n,
            forall|j: int| 0 <= j < i ==> (#[trigger] lods@[j]).0 != owner,
        decreases n - i,
    {
        if lods[i].0 == owner {
            return Some(i);
        }
        i = i + 1;
    }
    None
}

/// No record requests at least `l`.
pub fn no_record_at_least(lods: &Vec<(OwnerId, Lod)>, l: Lod) -> (r: bool)
    ensures
        r == (forall|i: int| 0 <= i < lods@.len() ==> !lod_le(l, (#[trigger] lods@[i]).1)),
{
    let n = lods.len();
    let mut i: usize = 0;
    while i < n
        invariant
            n == lods@.len(),
            i <= n,
            forall|j: int| 0 <= j < i ==> !lod_le(l, (#[trigger] lods@[j]).1),
        decreases n - i,
    {
        if lod_le_exec(l, lods[i].1) {
            return false;
        }
        i = i + 1;
    }
    true
}

/// At most one record requests at least `l`.
pub fn at_most_one_at_least(lods: &Vec<(OwnerId, Lod)>, l: Lod) -> (r: bool)
    ensures
        r == (forall|i: int, j: int|
            0 <= i < lods@.len() && 0 <= j < lods@.len() && lod_le(l, (#[trigger] lods@[i]).1)
                && lod_le(l, (#[trigger] lods@[j]).1) ==> i == j),
{
    let n = lods.len();
    let mut seen: Option<usize> = None;
    let mut i: usize = 0;
    while i < n
        invariant
            n == lods@.len(),
            i <= n,
            match seen {
                None => forall|j: int| 0 <= j < i ==> !lod_le(l, (#[trigger] lods@[j]).1),
                Some(f) => f < i && lod_le(l, lods@[f as int].1) && forall|j: int|
                    0 <= j < i && j != f ==> !lod_le(l, (#[trigger] lods@[j]).1),
            },
        decreases n - i,
    {
        if lod_le_exec(l, lods[i].1) {
            match seen {
                None => {
                    seen = Some(i);
                },
                Some(f) => {
                    assert(lod_le(l, lods@[f as int].1) && lod_le(l, lods@[i as int].1) && f != i);
                    return false;
                },
            }
        }
        i = i + 1;
    }
    true
}

/// The maximum-change decision of the reconciliation algorithm, evaluated on
/// the records as they stand before the owner's update: `prev` is the level
/// this owner requested so far, `new` the one now requested.
///
/// A first request for a block with no records always changes the maximum; a
/// repeated identical request never does; a lowered request changes it only
/// when this owner was the sole holder of a level at least its own previous
/// one; a raised request changes it only when no record already demands at
/// least the new level.
pub open spec fn max_change_decision(s: Seq<(OwnerId, Lod)>, prev: Option<Lod>, new: Lod) -> bool {
    match prev {
        None => forall|i: int| 0 <= i < s.len() ==> !lod_le(new, (#[trigger] s[i]).1),
        Some(p) => if new == p {
            false
        } else if lod_lt(new, p) {
            forall|i: int, j: int|
                0 <= i < s.len() && 0 <= j < s.len() && lod_le(p, (#[trigger] s[i]).1) && lod_le(
                    p,
                    (#[trigger] s[j]).1,
                ) ==> i == j
        } else {
            forall|i: int| 0 <= i < s.len() ==> !lod_le(new, (#[trigger] s[i]).1)
        },
    }
}

/// `t` is `s` with `o`'s record set to `new` and nothing else disturbed.
pub open spec fn records_updated(
    s: Seq<(OwnerId, Lod)>,
    t: Seq<(OwnerId, Lod)>,
    o: OwnerId,
    new: Lod,
) -> bool {
    &&& keys_unique(s)
    &&& keys_unique(t)
    &&& has_key(t, o)
    &&& value_of(t, o) == new
    &&& forall|k: OwnerId| k != o ==> #[trigger] has_key(t, k) == has_key(s, k)
    &&& forall|k: OwnerId| k != o && has_key(s, k) ==> #[trigger] value_of(t, k) == value_of(s, k)
}

/// The counting decision is exact: it answers `true` precisely when setting
/// `o`'s record to `new` moves the maximum requested level.
pub proof fn lemma_decision_exact(
    s: Seq<(OwnerId, Lod)>,
    t: Seq<(OwnerId, Lod)>,
    o: OwnerId,
    new: Lod,
    prev: Option<Lod>,
    m_new: Lod,
)
    requires
        records_updated(s, t, o, new),
        prev == (if has_key(s, o) {
            Some(value_of(s, o))
        } else {
            None::<Lod>
        }),
        is_max_of(t, m_new),
    ensures
        max_change_decision(s, prev, new) == (s.len() == 0 || !is_max_of(s, m_new)),
{
    // Every record of t is either o's new record or a record of s under an
    // unchanged key, and every record of s under another key survives in t.
    assert forall|i: int| 0 <= i < t.len() && (#[trigger] t[i]).0 == o implies t[i].1 == new by {
        lemma_value_at(t, i);
    }
    assert forall|i: int| 0 <= i < t.len() && (#[trigger] t[i]).0 != o implies has_key(s, t[i].0)
        && value_of(s, t[i].0) == t[i].1 by {
        lemma_value_at(t, i);
    }
    assert forall|j: int| 0 <= j < s.len() && (#[trigger] s[j]).0 != o implies has_key(t, s[j].0)
        && value_of(t, s[j].0) == s[j].1 by {
        lemma_value_at(s, j);
    }
    if s.len() == 0 {
        // First record of the block: the maximum always changes, and indeed
        // every branch of the decision is a quantifier over no records.
        assert(max_change_decision(s, prev, new));
        return ;
    }
    match prev {
        None => {
            if max_change_decision(s, prev, new) {
                // No record reaches new, so new strictly exceeds them all and
                // becomes the maximum; the old maximum was below it.
                if is_max_of(s, m_new) {
                    let j = choose|j: int| 0 <= j < s.len() && (#[trigger] s[j]).1 == m_new;
                    let it = choose|i: int| 0 <= i < t.len() && (#[trigger] t[i]).0 == o;
                    assert(lod_le(t[it].1, m_new));
                    assert(!lod_le(new, s[j].1));
                    assert(false);
                }
            } else {
                // Some record v reaches new; v survives in t, so the old
                // maximum still bounds everything in t and stays maximal.
                let j = choose|j: int|
                    0 <= j < s.len() && lod_le(new, (#[trigger] s[j]).1);
                assert(s[j].0 != o);
                let jm = choose|jm: int| 0 <= jm < t.len() && (#[trigger] t[jm]).1 == m_new;
                if t[jm].0 == o {
                    // The maximum of t is o's record new, yet s[j] >= new
                    // survives in t, so new == s[j].1 is also an s-value.
                    assert(lod_le(value_of(t, s[j].0), m_new));
                    assert(has_key(t, s[j].0));
                    let j2 = choose|i: int| 0 <= i < t.len() && (#[trigger] t[i]).0 == s[j].0;
                    assert(t[j2].1 == s[j].1);
                    assert(lod_le(s[j].1, new) && lod_le(new, s[j].1));
                    assert(s[j].1 == m_new);
                    assert forall|i: int| 0 <= i < s.len() implies lod_le(
                        (#[trigger] s[i]).1,
                        m_new,
                    ) by {
                        assert(s[i].0 != o);
                        let i2 = choose|i2: int|
                            0 <= i2 < t.len() && (#[trigger] t[i2]).0 == s[i].0;
                        assert(t[i2].1 == s[i].1);
                    }
                    assert(is_max_of(s, m_new));
                } else {
                    assert(has_key(s, t[jm].0) && value_of(s, t[jm].0) == m_new);
                    let js = choose|i: int| 0 <= i < s.len() && (#[trigger] s[i]).0 == t[jm].0;
                    lemma_value_at(s, js);
                    assert(s[js].1 == m_new);
                    assert forall|i: int| 0 <= i < s.len() implies lod_le(
                        (#[trigger] s[i]).1,
                        m_new,
                    ) by {
                        assert(s[i].0 != o);
                        let i2 = choose|i2: int|
                            0 <= i2 < t.len() && (#[trigger] t[i2]).0 == s[i].0;
                        assert(t[i2].1 == s[i].1);
                    }
                    assert(is_max_of(s, m_new));
                }
            }
        },
        Some(p) => {
            let i0 = choose|i: int| 0 <= i < s.len() && (#[trigger] s[i]).0 == o;
            lemma_value_at(s, i0);
            assert(s[i0].1 == p);
            if new == p {
                // An identical request leaves every record's value in place.
                assert forall|i: int| 0 <= i < s.len() implies lod_le(
                    (#[trigger] s[i]).1,
                    m_new,
                ) by {
                    if s[i].0 == o {
                        let it = choose|i2: int| 0 <= i2 < t.len() && (#[trigger] t[i2]).0 == o;
                        assert(lod_le(t[it].1, m_new));
                    } else {
                        let i2 = choose|i2: int|
                            0 <= i2 < t.len() && (#[trigger] t[i2]).0 == s[i].0;
                        assert(t[i2].1 == s[i].1);
                    }
                }
                let jm = choose|jm: int| 0 <= jm < t.len() && (#[trigger] t[jm]).1 == m_new;
                if t[jm].0 == o {
                    assert(s[i0].1 == m_new);
                } else {
                    let js = choose|i: int| 0 <= i < s.len() && (#[trigger] s[i]).0 == t[jm].0;
                    lemma_value_at(s, js);
                    assert(s[js].1 == m_new);
                }
                assert(is_max_of(s, m_new));
            } else if lod_lt(new, p) {
                if max_change_decision(s, prev, new) {
                    // o was the sole holder of a level at least p, so p was
                    // the maximum of s; in t every record sits strictly below
                    // p, so the maximum moved.
                    assert forall|i: int| 0 <= i < s.len() implies lod_le(
                        (#[trigger] s[i]).1,
                        p,
                    ) by {
                        if !lod_le(s[i].1, p) {
                            assert(lod_le(p, s[i].1) && lod_le(p, s[i0].1));
                            assert(i == i0);
                        }
                    }
                    assert(is_max_of(s, p));
                    assert forall|i: int| 0 <= i < t.len() implies !lod_le(
                        p,
                        (#[trigger] t[i]).1,
                    ) by {
                        if t[i].0 == o {
                            assert(t[i].1 == new && lod_lt(new, p));
                        } else {
                            let js = choose|j: int|
                                0 <= j < s.len() && (#[trigger] s[j]).0 == t[i].0;
                            lemma_value_at(s, js);
                            assert(s[js].1 == t[i].1);
                            if lod_le(p, t[i].1) {
                                assert(lod_le(p, s[js].1) && lod_le(p, s[i0].1));
                                assert(js == i0);
                            }
                        }
                    }
                    let jm = choose|jm: int| 0 <= jm < t.len() && (#[trigger] t[jm]).1 == m_new;
                    assert(!lod_le(p, m_new));
                    if is_max_of(s, m_new) {
                        lemma_max_unique(s, p, m_new);
                    }
                } else {
                    // Another record also reaches p; it survives in t and
                    // keeps the maximum where it was.
                    let j = choose|i: int, j: int|
                        0 <= i < s.len() && 0 <= j < s.len() && lod_le(p, (#[trigger] s[i]).1)
                            && lod_le(p, (#[trigger] s[j]).1) && i != j;
                    let (ja, jb) = j;
                    let jo = if ja != i0 {
                        ja
                    } else {
                        jb
                    };
                    assert(0 <= jo < s.len() && jo != i0 && lod_le(p, s[jo].1));
                    assert(s[jo].0 != o);
                    // Everything in s and everything in t is bounded by m_new.
                    assert forall|i: int| 0 <= i < s.len() implies lod_le(
                        (#[trigger] s[i]).1,
                        m_new,
                    ) by {
                        if s[i].0 == o {
                            let i2 = choose|i2: int|
                                0 <= i2 < t.len() && (#[trigger] t[i2]).0 == s[jo].0;
                            assert(t[i2].1 == s[jo].1);
                            assert(lod_le(s[i].1, p) || lod_le(p, s[i].1));
                            assert(lod_le(p, m_new));
                            if lod_le(p, s[i].1) {
                                assert(i == i0 || i == jo);
                                assert(s[i].1 == p);
                            }
                        } else {
                            let i2 = choose|i2: int|
                                0 <= i2 < t.len() && (#[trigger] t[i2]).0 == s[i].0;
                            assert(t[i2].1 == s[i].1);
                        }
                    }
                    let jm = choose|jm: int| 0 <= jm < t.len() && (#[trigger] t[jm]).1 == m_new;
                    if t[jm].0 == o {
                        // m_new == new < p <= s[jo].1 <= m_new: impossible.
                        let i2 = choose|i2: int|
                            0 <= i2 < t.len() && (#[trigger] t[i2]).0 == s[jo].0;
                        assert(t[i2].1 == s[jo].1);
                        assert(lod_le(s[jo].1, m_new) && m_new == new);
                        assert(lod_le(p, new) && lod_lt(new, p));
                        assert(false);
                    } else {
                        let js = choose|i: int|
                            0 <= i < s.len() && (#[trigger] s[i]).0 == t[jm].0;
                        lemma_value_at(s, js);
                        assert(s[js].1 == m_new);
                        assert(is_max_of(s, m_new));
                    }
                }
            } else {
                // Raising: p < new.
                assert(lod_lt(p, new));
                if max_change_decision(s, prev, new) {
                    // Nothing in s reaches new, so in t the new record is the
                    // strict maximum, above the old one.
                    if is_max_of(s, m_new) {
                        let it = choose|i: int| 0 <= i < t.len() && (#[trigger] t[i]).0 == o;
                        assert(t[it].1 == new && lod_le(new, m_new));
                        let jm = choose|jm: int|
                            0 <= jm < s.len() && (#[trigger] s[jm]).1 == m_new;
                        assert(!lod_le(new, s[jm].1));
                        assert(false);
                    }
                } else {
                    // Some record reaches new; it is not o's (whose level is
                    // p < new), it survives, and it pins the maximum.
                    let j = choose|j: int|
                        0 <= j < s.len() && lod_le(new, (#[trigger] s[j]).1);
                    assert(s[j].0 != o);
                    assert forall|i: int| 0 <= i < s.len() implies lod_le(
                        (#[trigger] s[i]).1,
                        m_new,
                    ) by {
                        if s[i].0 == o {
                            let i2 = choose|i2: int|
                                0 <= i2 < t.len() && (#[trigger] t[i2]).0 == s[j].0;
                            assert(t[i2].1 == s[j].1);
                            assert(lod_le(p, new) && lod_le(new, s[j].1) && lod_le(
                                s[j].1,
                                m_new,
                            ));
                        } else {
                            let i2 = choose|i2: int|
                                0 <= i2 < t.len() && (#[trigger] t[i2]).0 == s[i].0;
                            assert(t[i2].1 == s[i].1);
                        }
                    }
                    let jm = choose|jm: int| 0 <= jm < t.len() && (#[trigger] t[jm]).1 == m_new;
                    if t[jm].0 == o {
                        let i2 = choose|i2: int|
                            0 <= i2 < t.len() && (#[trigger] t[i2]).0 == s[j].0;
                        assert(t[i2].1 == s[j].1);
                        assert(lod_le(s[j].1, m_new) && m_new == new);
                        assert(lod_le(new, s[j].1) && lod_le(s[j].1, new));
                        assert(s[j].1 == m_new);
                        assert(is_max_of(s, m_new));
                    } else {
                        let js = choose|i: int|
                            0 <= i < s.len() && (#[trigger] s[i]).0 == t[jm].0;
                        lemma_value_at(s, js);
                        assert(s[js].1 == m_new);
                        assert(is_max_of(s, m_new));
                    }
                }
            }
        },
    }
}

/// The maximum requested level among a non-empty set of records.
pub fn max_of_records(lods: &Vec<(OwnerId, Lod)>) -> (r: Lod)
    requires
        lods@.len() > 0,
    ensures
        is_max_of(lods@, r),
{
    let n = lods.len();
    let mut m = lods[0].1;
    let mut i: usize = 1;
    while i < n
        invariant
            n == lods@.len(),
            1 <= i <= n,
            exists|j: int| 0 <= j < i && (#[trigger] lods@[j]).1 == m,
            forall|j: int| 0 <= j < i ==> lod_le((#[trigger] lods@[j]).1, m),
        decreases n - i,
    {
        if lod_le_exec(m, lods[i].1) {
            m = lods[i].1;
        }
        i = i + 1;
    }
    m
}

} // verus!
