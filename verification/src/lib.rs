//! Waraner engine client library: entity storage, asset archives and
//! world-map serialization with machine-checked contracts.

pub mod asset_id;
pub mod asset_system;
pub mod audio;
pub mod components;
pub mod config;
pub mod console;
pub mod ecs;
pub mod engine_state;
pub mod entity_types;
pub mod input;
pub mod orders;
pub mod scene;
pub mod text;
pub mod world_frames;
pub mod world_laws;
pub mod world_steps;
pub mod wpak;
pub mod wpak_build;
pub mod wpak_laws;
pub mod wmap;
pub mod wmap_file;
pub mod wmap_laws;
pub mod wmap_world;
pub mod wmesh;
pub mod wmesh_laws;
