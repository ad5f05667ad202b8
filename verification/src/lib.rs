//! Multi-owner terrain level-of-detail streaming coordinator.
//!
//! Every block of a spatially gridded world can be claimed by several
//! independent owners, each requesting its own detail level. The coordinator
//! reconciles those requests into a single per-block decision (the maximum
//! requested level), asks an asynchronous generator for content that is not
//! yet cached, and keeps a physics adapter's collision state exactly in step
//! with whatever detail level is currently resident.

pub mod assoc;
pub mod block_position;
pub mod id_allocator;
pub mod lod;
pub mod lod_map;
pub mod terrain;
pub mod physics;
pub mod in_progress_terrain;
pub mod terrain_game_loader;
pub mod update_world;
pub mod tree_placer;
