use terrain_loader::block_position::BlockPosition;
use terrain_loader::id_allocator::IdAllocator;
use terrain_loader::lod::{lod_le_exec, Lod, OwnerId};
use terrain_loader::lod_map::LodMap;
use terrain_loader::terrain::{Terrain, TerrainBlock, TerrainType};
use terrain_loader::tree_placer::TreePlacer;
use terrain_loader::update_world::{load_placeholders, LodChange};
use terrain_loader::physics::Physics;
use terrain_loader::terrain_game_loader::TerrainGameLoader;

#[test]
fn detail_levels_order_with_placeholder_lowest() {
    assert!(lod_le_exec(Lod::Placeholder, Lod::Placeholder));
    assert!(lod_le_exec(Lod::Placeholder, Lod::LodIndex(0)));
    assert!(!lod_le_exec(Lod::LodIndex(0), Lod::Placeholder));
    assert!(lod_le_exec(Lod::LodIndex(1), Lod::LodIndex(4)));
    assert!(!lod_le_exec(Lod::LodIndex(4), Lod::LodIndex(1)));
}

#[test]
fn registry_reports_transitions() {
    let mut map = LodMap::new();
    let p = BlockPosition::new(0, 0, 0);
    let a = OwnerId(1);
    let b = OwnerId(2);

    // First owner: the maximum appears.
    let (old, change) = map.insert(p, Lod::LodIndex(3), a);
    assert!(old.is_none());
    let t = change.unwrap();
    assert_eq!(t.loaded, None);
    assert_eq!(t.desired, Some(Lod::LodIndex(3)));
    map.set_loaded(p, Some(Lod::LodIndex(3)));

    // A lower second owner does not move the maximum.
    let (old, change) = map.insert(p, Lod::LodIndex(1), b);
    assert!(old.is_none());
    assert!(change.is_none());

    // Removing the top owner drops the maximum to the survivor's level.
    let (old, change) = map.remove(p, a);
    assert_eq!(old, Some(Lod::LodIndex(3)));
    let t = change.unwrap();
    assert_eq!(t.loaded, Some(Lod::LodIndex(3)));
    assert_eq!(t.desired, Some(Lod::LodIndex(1)));
    map.set_loaded(p, Some(Lod::LodIndex(1)));

    // Removing the last owner asks for a full unload.
    let (old, change) = map.remove(p, b);
    assert_eq!(old, Some(Lod::LodIndex(1)));
    let t = change.unwrap();
    assert_eq!(t.loaded, Some(Lod::LodIndex(1)));
    assert_eq!(t.desired, None);
    map.set_loaded(p, None);
    assert!(map.blocks.is_empty());
}

#[test]
fn cache_stores_per_level_slots() {
    let mut terrain = Terrain::new();
    let p = BlockPosition::new(1, 1, 1);
    assert!(terrain.get(&p, 0).is_none());

    let content = TerrainBlock {
        typs: vec![TerrainType::Dirt, TerrainType::Stone],
        ids: vec![10, 11],
    };
    terrain.put(p, 2, content);
    assert!(terrain.get(&p, 0).is_none());
    assert!(terrain.get(&p, 1).is_none());
    let got = terrain.get(&p, 2).unwrap();
    assert_eq!(got.ids, vec![10, 11]);
    assert_eq!(got.typs.len(), 2);
    assert!(terrain.get(&BlockPosition::new(1, 1, 2), 2).is_none());
}

#[test]
fn allocator_hands_out_sequential_ids() {
    let mut alloc = IdAllocator::new();
    assert_eq!(alloc.allocate(), 0);
    assert_eq!(alloc.allocate(), 1);
    assert_eq!(alloc.allocate(), 2);
    assert_eq!(alloc.next, 3);
}

#[test]
fn empty_terrain_block_has_no_features() {
    let b = TerrainBlock::new();
    assert!(b.ids.is_empty());
    assert!(b.typs.is_empty());
}

#[test]
fn tree_placer_keeps_its_seed() {
    let placer = TreePlacer::new(0xDEAD);
    assert_eq!(placer.seed, 0xDEAD);
}

#[test]
fn planner_events_route_to_placeholder_requests() {
    let mut loader = TerrainGameLoader::new();
    let mut alloc = IdAllocator::new();
    let mut physics = Physics::new();
    let p = BlockPosition::new(2, 2, 2);
    let owner = OwnerId(9);

    // A load event requests only a placeholder, whatever level it suggests.
    let r = load_placeholders(
        owner,
        &mut loader,
        &mut alloc,
        &mut physics,
        LodChange::Load(p, Lod::LodIndex(4)),
    );
    assert!(r.is_none());
    assert_eq!(physics.misc.len(), 1);
    assert!(physics.terrain.is_empty());

    let r = load_placeholders(
        owner,
        &mut loader,
        &mut alloc,
        &mut physics,
        LodChange::Unload(p),
    );
    assert!(r.is_none());
    assert!(physics.misc.is_empty());
    assert!(loader.lod_map.blocks.is_empty());
}
