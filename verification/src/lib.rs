//! Verified core of a voxel game client: chunk storage, padded chunks for
//! meshing, ambient occlusion and greedy meshing of chunk faces, the GPU mesh
//! buffer sub-allocator and what the buffer ends up holding, texture array
//! slots, the world's chunk bookkeeping, and the player's keys and protocol.

pub mod block;
pub mod chunk;
pub mod capacity;
pub mod mesh_manager;
pub mod buffer_contents;
pub mod padded_chunk;
pub mod meshing;
pub mod greedy;
pub mod greedy_mesh;
pub mod world;
pub mod world_mesh;
pub mod texture;
pub mod render_manager;
pub mod player;
pub mod input;
