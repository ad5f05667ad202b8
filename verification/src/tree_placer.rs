//! Deterministic tree placement seed. The geometry synthesis itself samples
//! noise and floating-point positions and lives with the generator; the
//! coordinator only carries the seed that makes placement reproducible.

use vstd::prelude::*;

verus! {

/// Places trees at local maxima of one-octave noise, derived from a fixed
/// seed so that every regeneration of a block places the same trees.
pub struct TreePlacer {
    pub seed: u32,
}

impl TreePlacer {
    pub fn new(seed: u32) -> (r: TreePlacer)
        ensures
            r.seed == seed,
    {
        TreePlacer { seed }
    }
}

} // verus!
