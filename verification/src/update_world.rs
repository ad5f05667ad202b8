//! Per-tick glue between the surroundings planner and the coordinator: the
//! planner emits load and unload events per owner, and they are forwarded
//! verbatim.

use vstd::prelude::*;

use crate::block_position::BlockPosition;
use crate::id_allocator::{EntityId, IdAllocator};
use crate::lod::{Lod, OwnerId};
use crate::physics::Physics;
use crate::terrain_game_loader::{ids_fresh, GenerationRequest, TerrainGameLoader};

verus! {

/// An event from the surroundings planner: a block entered an owner's range
/// at some suggested level, or left it.
#[derive(Clone, Copy, PartialEq, Eq, Structural, Debug)]
pub enum LodChange {
    Load(BlockPosition, Lod),
    Unload(BlockPosition),
}

/// Forwards one planner event for a mob-like owner to the coordinator. Such
/// owners only ever keep blocks around as cheap placeholders, whatever level
/// the event suggests, so a load event requests the placeholder level.
pub fn load_placeholders(
    owner: OwnerId,
    loader: &mut TerrainGameLoader,
    id_allocator: &mut IdAllocator,
    physics: &mut Physics,
    lod_change: LodChange,
) -> (r: Option<GenerationRequest>)
    requires
        old(loader).inv(*old(physics)),
        ids_fresh(old(loader).in_progress_terrain, *old(physics), old(id_allocator).next),
        old(id_allocator).next < EntityId::MAX,
    ensures
        final(loader).inv(*final(physics)),
        ids_fresh(final(loader).in_progress_terrain, *final(physics), final(id_allocator).next),
        old(id_allocator).next <= final(id_allocator).next <= old(id_allocator).next + 1,
        match lod_change {
            LodChange::Load(p, _) => final(loader).lod_map.spec_owner(p, owner) == Some(
                Lod::Placeholder,
            ),
            LodChange::Unload(p) => final(loader).lod_map.spec_owner(p, owner) is None,
        },
{
    match lod_change {
        LodChange::Load(position, _) => {
            loader.load(id_allocator, physics, position, Lod::Placeholder, owner)
        },
        LodChange::Unload(position) => {
            loader.unload(id_allocator, physics, position, owner)
        },
    }
}

} // verus!
