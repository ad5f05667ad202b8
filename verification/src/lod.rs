//! The detail-level domain: a totally ordered value type with a
//! distinguished placeholder member.

use vstd::prelude::*;

verus! {

/// Identifier of one independent requester (a player, a mob). Only equality
/// matters; two owners with equal tokens are the same owner.
#[derive(Clone, Copy, PartialEq, Eq, Structural, Hash, Debug)]
pub struct OwnerId(pub u32);

/// The detail level requested for, or resident in, a block.
///
/// `Placeholder` marks bare existence: no mesh, only a coarse collision
/// volume. `LodIndex(n)` is a real detail level, ranked by `n`. The domain is
/// totally ordered with `Placeholder` below every real level; the
/// reconciliation algorithm always keeps the maximum requested level loaded.
#[derive(Clone, Copy, PartialEq, Eq, Structural, Hash, Debug)]
pub enum Lod {
    Placeholder,
    LodIndex(u32),
}

/// The order of the detail-level domain: `a` demands no more detail than `b`.
pub open spec fn lod_le(a: Lod, b: Lod) -> bool {
    match (a, b) {
        (Lod::Placeholder, _) => true,
        (Lod::LodIndex(i), Lod::LodIndex(j)) => i <= j,
        (Lod::LodIndex(_), Lod::Placeholder) => false,
    }
}

/// Strict order on detail levels.
pub open spec fn lod_lt(a: Lod, b: Lod) -> bool {
    lod_le(a, b) && a != b
}

/// Decides `lod_le(a, b)` in executable code.
pub fn lod_le_exec(a: Lod, b: Lod) -> (r: bool)
    ensures
        r == lod_le(a, b),
{
    match (a, b) {
        (Lod::Placeholder, _) => true,
        (Lod::LodIndex(i), Lod::LodIndex(j)) => i <= j,
        (Lod::LodIndex(_), Lod::Placeholder) => false,
    }
}

/// The order is total: any two levels compare.
pub proof fn lemma_lod_order_total(a: Lod, b: Lod)
    ensures
        lod_le(a, b) || lod_le(b, a),
        lod_le(a, b) && lod_le(b, a) ==> a == b,
{
}

/// The order is transitive.
pub proof fn lemma_lod_order_transitive(a: Lod, b: Lod, c: Lod)
    requires
        lod_le(a, b),
        lod_le(b, c),
    ensures
        lod_le(a, c),
{
}

} // verus!
