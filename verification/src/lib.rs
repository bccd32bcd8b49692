//! Verified core of a voxel world streamer.
//!
//! The library models the coordination-heavy heart of the system: converting
//! world positions to chunk lattice coordinates, culling and greedily merging
//! voxel faces into triangle meshes, reference-counting chunks shared by
//! several viewpoints, and the per-cycle decisions of the streaming worker.
//! Rendering, terrain noise, physics shapes and channel plumbing live outside
//! the library and only exchange plain values with it.

pub mod chunk;
pub mod client_aux;
pub mod coords;
pub mod material;
pub mod mesh;
pub mod mesh_laws;
pub mod messages;
pub mod server;
pub mod table;
