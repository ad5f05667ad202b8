//! Integer 3-coordinate identifying a cell of the fixed-size spatial grid.

use vstd::prelude::*;

verus! {

/// Position of a block in the world grid. Immutable once created; compared
/// structurally.
#[derive(Clone, Copy, PartialEq, Eq, Structural, Hash, Debug)]
pub struct BlockPosition {
    pub x: i32,
    pub y: i32,
    pub z: i32,
}

impl BlockPosition {
    pub fn new(x: i32, y: i32, z: i32) -> (r: BlockPosition)
        ensures
            r == (BlockPosition { x, y, z }),
    {
        BlockPosition { x, y, z }
    }
}

} // verus!
