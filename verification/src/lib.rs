//! Chunk engine of a voxel world: blocks, chunks and their neighbor graph,
//! greedy meshing, and the chunk synchronization protocol between a server
//! and its clients.

use vstd::prelude::*;

pub mod block;
pub mod channel;
pub mod chunk;
pub mod chunk_mesh_generation;
pub mod chunk_updating;
pub mod click_detection;
pub mod client_chunks;
pub mod codec;
pub mod direction;
pub mod loaded_chunks;
pub mod lz4_block;
pub mod message;
pub mod persistence;
pub mod position;
pub mod position_index;
pub mod server_chunks;
pub mod world;

pub use block::Block;
pub use channel::Channel;
pub use chunk::{Chunk, ChunkId, CompressedChunk, DecodeError};
pub use chunk_mesh_generation::{create_chunk_mesh, MeshDescription, Sheet};
pub use chunk_updating::{
    apply_buffered_chunk_writes, update_dirt, update_dirt_sys, update_dirty_chunks,
};
pub use click_detection::{ClickEvent, MouseButton};
pub use client_chunks::{initial_chunk_requests, load_chunks_from_server, spawn_chunk_meshes};
pub use direction::Direction;
pub use loaded_chunks::{BufferedWrite, ChunkComp, LoadedChunks};
pub use message::{ClientMessage, MessageError, Peer, SendError, ServerBlockMessage, ServerMessage};
pub use position::IVec3;
pub use server_chunks::{
    gen_chunk, server_edit_block, server_load_chunk, ChunkRequest, ChunkSource, RequestQueue,
};

verus! {

/// Edge length of a chunk, in voxels.
pub const CHUNK_SIZE: usize = 16;

/// Number of voxels in a chunk.
pub const CHUNK_VOLUME: usize = 4096;

/// Edge length, in chunks, of the region a client asks for when it joins.
pub const WORLD_SIZE: usize = 2;

/// After this many chunks have been remeshed in one pass, the pass handles
/// one more and stops.
pub const MAX_CHUNK_UPDATES_PER_FRAME: usize = 30;

/// Identifies the protocol to the transport.
pub const PROTOCOL_ID: u64 = 1000;

} // verus!
