//! The message protocol between viewpoints, the authority and the chunk
//! worker. Transport is outside the library: these are plain values carried
//! by whatever channel the surrounding program provides.

use vstd::prelude::*;

use crate::chunk::Chunk;
use crate::coords::{ChunkPos, WorldPos};
use crate::material::Material;

verus! {

/// Viewpoint <-> authority traffic.
pub enum Message {
    /// Viewpoint to authority, throttled: the viewpoint moved.
    PlayerMove(WorldPos),
    /// Authority to viewpoint: delivery of chunk data.
    Chunks(Vec<(ChunkPos, Chunk)>),
    /// Viewpoint to authority: place a material at a world block position,
    /// applied immediately to canonical state.
    SetBlock(WorldPos, Material),
    /// Viewpoint to authority, and the authority's acknowledgement back once
    /// cleanup is complete.
    Leave,
}

/// Authority <-> chunk-worker traffic.
pub enum ChunkMessage {
    /// The worker finished and is shutting down.
    Done,
    /// Chunks whose contents changed and may need regeneration elsewhere.
    UpdateChunks(Vec<ChunkPos>),
    /// Authority to worker: generate or load these chunks.
    LoadChunks(Vec<ChunkPos>),
    /// Worker to authority: the generated or loaded chunks.
    Chunks(Vec<(ChunkPos, Chunk)>),
    /// Current viewpoint positions, for prioritisation.
    Players(Vec<WorldPos>),
}

} // verus!
