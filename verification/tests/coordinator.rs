use terrain_loader::block_position::BlockPosition;
use terrain_loader::id_allocator::IdAllocator;
use terrain_loader::lod::{Lod, OwnerId};
use terrain_loader::physics::Physics;
use terrain_loader::terrain::{TerrainBlock, TerrainType};
use terrain_loader::terrain_game_loader::TerrainGameLoader;

fn block(ids: &[u64]) -> TerrainBlock {
    TerrainBlock {
        typs: ids.iter().map(|_| TerrainType::Grass).collect(),
        ids: ids.to_vec(),
    }
}

fn physics_ids(physics: &Physics, position: BlockPosition) -> Option<Vec<u64>> {
    physics
        .terrain
        .iter()
        .find(|(p, _)| *p == position)
        .map(|(_, ids)| ids.clone())
}

#[test]
fn repeated_request_fetches_once() {
    let mut loader = TerrainGameLoader::new();
    let mut alloc = IdAllocator::new();
    let mut physics = Physics::new();
    let p = BlockPosition::new(1, 2, 3);
    let a = OwnerId(1);

    let first = loader.load(&mut alloc, &mut physics, p, Lod::LodIndex(2), a);
    assert!(first.is_some());
    let req = first.unwrap();
    assert_eq!(req.position, p);
    assert_eq!(req.lod, 2);
    assert_eq!(req.owner, a);

    // The same request again does nothing: no second fetch, no physics call.
    let second = loader.load(&mut alloc, &mut physics, p, Lod::LodIndex(2), a);
    assert!(second.is_none());
    assert!(physics.terrain.is_empty());
    assert!(physics.misc.is_empty());
}

#[test]
fn applied_generation_becomes_resident() {
    let mut loader = TerrainGameLoader::new();
    let mut alloc = IdAllocator::new();
    let mut physics = Physics::new();
    let p = BlockPosition::new(0, 0, 0);
    let a = OwnerId(7);

    let req = loader.load(&mut alloc, &mut physics, p, Lod::LodIndex(1), a);
    assert!(req.is_some());
    let r = loader.apply_generated(&mut alloc, &mut physics, p, 1, block(&[100, 101]), a);
    assert!(r.is_none());
    assert_eq!(physics_ids(&physics, p), Some(vec![100, 101]));
}

#[test]
fn relevel_swaps_geometry_exactly() {
    let mut loader = TerrainGameLoader::new();
    let mut alloc = IdAllocator::new();
    let mut physics = Physics::new();
    let p = BlockPosition::new(4, 0, -4);
    let a = OwnerId(1);

    loader.load(&mut alloc, &mut physics, p, Lod::LodIndex(1), a);
    loader.apply_generated(&mut alloc, &mut physics, p, 1, block(&[100, 101]), a);
    assert_eq!(physics_ids(&physics, p), Some(vec![100, 101]));

    // Raise to level 2: a fetch goes out, level 1 stays resident meanwhile.
    let req = loader.load(&mut alloc, &mut physics, p, Lod::LodIndex(2), a);
    assert!(req.is_some());
    assert_eq!(req.unwrap().lod, 2);
    assert_eq!(physics_ids(&physics, p), Some(vec![100, 101]));

    // When level 2 arrives, its ids replace level 1's: never a mix.
    loader.apply_generated(&mut alloc, &mut physics, p, 2, block(&[200, 201, 202]), a);
    assert_eq!(physics_ids(&physics, p), Some(vec![200, 201, 202]));
    assert_eq!(physics.terrain.len(), 1);
}

#[test]
fn stale_completion_leaves_block_unloaded() {
    let mut loader = TerrainGameLoader::new();
    let mut alloc = IdAllocator::new();
    let mut physics = Physics::new();
    let p = BlockPosition::new(9, 9, 9);
    let a = OwnerId(3);

    let req = loader.load(&mut alloc, &mut physics, p, Lod::LodIndex(1), a);
    assert!(req.is_some());
    // The owner releases the block before the fetch completes.
    let r = loader.unload(&mut alloc, &mut physics, p, a);
    assert!(r.is_none());
    // The completion arrives late: it must be discarded.
    let r = loader.apply_generated(&mut alloc, &mut physics, p, 1, block(&[100]), a);
    assert!(r.is_none());
    assert!(physics.terrain.is_empty());
    assert!(physics.misc.is_empty());
    assert!(loader.lod_map.blocks.is_empty());
}

#[test]
fn downgrade_by_sole_holder_moves_maximum() {
    let mut loader = TerrainGameLoader::new();
    let mut alloc = IdAllocator::new();
    let mut physics = Physics::new();
    let p = BlockPosition::new(1, 0, 0);
    let a = OwnerId(1);

    loader.load(&mut alloc, &mut physics, p, Lod::LodIndex(5), a);
    loader.apply_generated(&mut alloc, &mut physics, p, 5, block(&[100]), a);

    // A is the sole holder of level 5, so lowering to 2 moves the maximum.
    let req = loader.load(&mut alloc, &mut physics, p, Lod::LodIndex(2), a);
    assert!(req.is_some());
    assert_eq!(req.unwrap().lod, 2);
    loader.apply_generated(&mut alloc, &mut physics, p, 2, block(&[200]), a);
    assert_eq!(physics_ids(&physics, p), Some(vec![200]));
}

#[test]
fn downgrade_with_second_holder_is_bookkeeping() {
    let mut loader = TerrainGameLoader::new();
    let mut alloc = IdAllocator::new();
    let mut physics = Physics::new();
    let p = BlockPosition::new(1, 0, 0);
    let a = OwnerId(1);
    let b = OwnerId(2);

    loader.load(&mut alloc, &mut physics, p, Lod::LodIndex(5), a);
    loader.apply_generated(&mut alloc, &mut physics, p, 5, block(&[100]), a);
    let r = loader.load(&mut alloc, &mut physics, p, Lod::LodIndex(5), b);
    assert!(r.is_none());

    // B still holds level 5, so A lowering to 2 changes nothing outside the
    // registry: no fetch, level 5 stays resident.
    let r = loader.load(&mut alloc, &mut physics, p, Lod::LodIndex(2), a);
    assert!(r.is_none());
    assert_eq!(physics_ids(&physics, p), Some(vec![100]));
}

#[test]
fn upgrade_below_other_owner_has_no_effect() {
    let mut loader = TerrainGameLoader::new();
    let mut alloc = IdAllocator::new();
    let mut physics = Physics::new();
    let p = BlockPosition::new(2, 0, 0);
    let a = OwnerId(1);
    let b = OwnerId(2);

    loader.load(&mut alloc, &mut physics, p, Lod::LodIndex(2), a);
    loader.apply_generated(&mut alloc, &mut physics, p, 2, block(&[100]), a);
    // B demands level 5; the fetch for it is still in flight.
    let req = loader.load(&mut alloc, &mut physics, p, Lod::LodIndex(5), b);
    assert!(req.is_some());

    // A raising 2 -> 3 stays below B's 5: no fetch, nothing moves.
    let r = loader.load(&mut alloc, &mut physics, p, Lod::LodIndex(3), a);
    assert!(r.is_none());
    assert_eq!(physics_ids(&physics, p), Some(vec![100]));
}

#[test]
fn last_owner_release_destroys_placeholder() {
    let mut loader = TerrainGameLoader::new();
    let mut alloc = IdAllocator::new();
    let mut physics = Physics::new();
    let p = BlockPosition::new(-1, -1, -1);
    let a = OwnerId(4);

    let r = loader.load(&mut alloc, &mut physics, p, Lod::Placeholder, a);
    assert!(r.is_none());
    assert_eq!(physics.misc.len(), 1);
    assert_eq!(loader.in_progress_terrain.blocks.len(), 1);

    // The single owner releases: volume destroyed, entry removed, no error
    // even though no real-level content ever existed.
    let r = loader.unload(&mut alloc, &mut physics, p, a);
    assert!(r.is_none());
    assert!(physics.misc.is_empty());
    assert!(physics.terrain.is_empty());
    assert!(loader.in_progress_terrain.blocks.is_empty());
    assert!(loader.lod_map.blocks.is_empty());
}

#[test]
fn placeholder_upgrades_to_real_level() {
    let mut loader = TerrainGameLoader::new();
    let mut alloc = IdAllocator::new();
    let mut physics = Physics::new();
    let p = BlockPosition::new(0, 1, 0);
    let a = OwnerId(1);

    loader.load(&mut alloc, &mut physics, p, Lod::Placeholder, a);
    assert_eq!(physics.misc.len(), 1);

    let req = loader.load(&mut alloc, &mut physics, p, Lod::LodIndex(0), a);
    assert!(req.is_some());
    loader.apply_generated(&mut alloc, &mut physics, p, 0, block(&[100]), a);
    // The placeholder volume is gone; the content's shapes are resident.
    assert!(physics.misc.is_empty());
    assert_eq!(physics_ids(&physics, p), Some(vec![100]));
}

#[test]
fn release_restores_placeholder_for_remaining_owner() {
    let mut loader = TerrainGameLoader::new();
    let mut alloc = IdAllocator::new();
    let mut physics = Physics::new();
    let p = BlockPosition::new(3, 3, 3);
    let a = OwnerId(1);
    let b = OwnerId(2);

    loader.load(&mut alloc, &mut physics, p, Lod::Placeholder, a);
    let req = loader.load(&mut alloc, &mut physics, p, Lod::LodIndex(1), b);
    assert!(req.is_some());
    loader.apply_generated(&mut alloc, &mut physics, p, 1, block(&[100]), b);
    assert!(physics.misc.is_empty());

    // B leaves; A's placeholder request is the maximum again.
    let r = loader.unload(&mut alloc, &mut physics, p, b);
    assert!(r.is_none());
    assert!(physics_ids(&physics, p).is_none());
    assert_eq!(physics.misc.len(), 1);
    assert_eq!(loader.in_progress_terrain.blocks.len(), 1);
}

#[test]
fn duplicate_completion_is_dropped() {
    let mut loader = TerrainGameLoader::new();
    let mut alloc = IdAllocator::new();
    let mut physics = Physics::new();
    let p = BlockPosition::new(5, 5, 5);
    let a = OwnerId(1);

    loader.load(&mut alloc, &mut physics, p, Lod::LodIndex(1), a);
    loader.apply_generated(&mut alloc, &mut physics, p, 1, block(&[100, 101]), a);
    // The worker delivers the same completion again.
    let r = loader.apply_generated(&mut alloc, &mut physics, p, 1, block(&[300, 301]), a);
    assert!(r.is_none());
    assert_eq!(physics_ids(&physics, p), Some(vec![100, 101]));
    assert_eq!(physics.terrain.len(), 1);
}

#[test]
fn release_with_uncached_lower_level_refetches() {
    let mut loader = TerrainGameLoader::new();
    let mut alloc = IdAllocator::new();
    let mut physics = Physics::new();
    let p = BlockPosition::new(6, 0, 0);
    let a = OwnerId(1);
    let b = OwnerId(2);

    loader.load(&mut alloc, &mut physics, p, Lod::LodIndex(5), a);
    loader.apply_generated(&mut alloc, &mut physics, p, 5, block(&[100]), a);
    // B's level 2 request is bookkeeping while A holds 5.
    let r = loader.load(&mut alloc, &mut physics, p, Lod::LodIndex(2), b);
    assert!(r.is_none());

    // A leaves: the maximum drops to B's 2, whose content was never
    // generated, so a fetch for it goes out and 5 stays resident meanwhile.
    let req = loader.unload(&mut alloc, &mut physics, p, a);
    assert!(req.is_some());
    assert_eq!(req.unwrap().lod, 2);
    assert_eq!(physics_ids(&physics, p), Some(vec![100]));
    loader.apply_generated(&mut alloc, &mut physics, p, 2, block(&[200]), b);
    assert_eq!(physics_ids(&physics, p), Some(vec![200]));
}

#[test]
fn downgrade_with_intermediate_holder_targets_true_maximum() {
    let mut loader = TerrainGameLoader::new();
    let mut alloc = IdAllocator::new();
    let mut physics = Physics::new();
    let p = BlockPosition::new(7, 0, 0);
    let a = OwnerId(1);
    let b = OwnerId(2);

    loader.load(&mut alloc, &mut physics, p, Lod::LodIndex(5), a);
    loader.apply_generated(&mut alloc, &mut physics, p, 5, block(&[100]), a);
    // B's level 4 sits between A's 5 and A's upcoming 2.
    let r = loader.load(&mut alloc, &mut physics, p, Lod::LodIndex(4), b);
    assert!(r.is_none());

    // A lowers to 2; the maximum drops to B's 4, and that is what gets
    // fetched, not A's 2.
    let req = loader.load(&mut alloc, &mut physics, p, Lod::LodIndex(2), a);
    assert!(req.is_some());
    assert_eq!(req.unwrap().lod, 4);
    assert_eq!(physics_ids(&physics, p), Some(vec![100]));
    loader.apply_generated(&mut alloc, &mut physics, p, 4, block(&[400, 401]), b);
    assert_eq!(physics_ids(&physics, p), Some(vec![400, 401]));
}

#[test]
fn release_by_unknown_owner_changes_nothing() {
    let mut loader = TerrainGameLoader::new();
    let mut alloc = IdAllocator::new();
    let mut physics = Physics::new();
    let p = BlockPosition::new(8, 8, 8);
    let a = OwnerId(1);
    let b = OwnerId(2);

    loader.load(&mut alloc, &mut physics, p, Lod::LodIndex(1), a);
    loader.apply_generated(&mut alloc, &mut physics, p, 1, block(&[100]), a);
    let r = loader.unload(&mut alloc, &mut physics, p, b);
    assert!(r.is_none());
    assert_eq!(physics_ids(&physics, p), Some(vec![100]));
}
