//! What a click on a voxel does on the client.

use vstd::prelude::*;
use crate::block::Block;
use crate::chunk::Chunk;
use crate::loaded_chunks::LoadedChunks;
use crate::message::ClientMessage;
use crate::position::IVec3;
use crate::world::spec_write_block;

verus! {

/// A button of the mouse.
#[derive(Clone, Copy, Debug, PartialEq, Eq, Structural)]
pub enum MouseButton {
    Left,
    Right,
    Middle,
    Other(u16),
}

/// A click that hit a voxel.
#[derive(Clone, Copy, Debug, PartialEq, Eq, Structural)]
pub struct ClickEvent {
    pub button: MouseButton,
    /// World position of the voxel that was hit.
    pub world_pos: IVec3,
    /// World position of the empty voxel in front of it, seen from the eye.
    pub prev_pos: IVec3,
}

/// Whether chunk `id` of `world` is the chunk that holds the world position
/// `pos`.
pub open spec fn holds(world: &LoadedChunks, id: int, pos: IVec3) -> bool {
    0 <= id < world@.len() && world@[id].chunk.pos == pos.spec_chunk_pos()
}

/// A click of the left button breaks the voxel that was hit. Where the chunk
/// of that voxel is loaded, the voxel becomes air at once, as `write_block`
/// does it, and the message that tells the server is returned. Any other
/// click, or one into a chunk that is not loaded, does nothing.
pub fn click_to_break(world: &mut LoadedChunks, event: &ClickEvent) -> (message: Option<
    ClientMessage,
>)
    requires
        old(world).wf(),
    ensures
        final(world).wf(),
        match message {
            Some(m) => {
                let at = event.world_pos.spec_chunk_offset();
                &&& event.button == MouseButton::Left
                &&& m == ClientMessage::BreakBlock(event.world_pos)
                &&& exists|id: int|
                    holds(old(world), id, event.world_pos) && final(world)@ == spec_write_block(
                        old(world)@,
                        id,
                        at.x as int,
                        at.y as int,
                        at.z as int,
                        Block::Air,
                    )
            },
            None => {
                &&& final(world)@ == old(world)@
                &&& event.button != MouseButton::Left || forall|id: int|
                    !holds(old(world), id, event.world_pos)
            },
        },
{
    if event.button != MouseButton::Left {
        return None;
    }
    let (chunk_pos, offset) = Chunk::i_world_to_chunk(event.world_pos);
    match world.lookup(chunk_pos) {
        Some(id) => {
            world.write_block(id, offset, Block::Air);
            assert(holds(old(world), id as int, event.world_pos));
            Some(ClientMessage::BreakBlock(event.world_pos))
        },
        None => None,
    }
}

/// A click of the right button places `block` in the empty voxel in front of
/// the voxel that was hit. Where the chunk of that empty voxel is loaded and
/// the voxel holds air, it gets `block` at once, as `write_block` does it,
/// and the message that tells the server is returned. Any other click does
/// nothing.
pub fn click_to_place(world: &mut LoadedChunks, event: &ClickEvent, block: Block) -> (message:
    Option<ClientMessage>)
    requires
        old(world).wf(),
    ensures
        final(world).wf(),
        match message {
            Some(m) => {
                let at = event.prev_pos.spec_chunk_offset();
                &&& event.button == MouseButton::Right
                &&& m == ClientMessage::PlaceBlock(event.prev_pos, block)
                &&& exists|id: int|
                    {
                        &&& holds(old(world), id, event.prev_pos)
                        &&& old(world)@[id].chunk.cube(at.x as int, at.y as int, at.z as int)
                            == Block::Air
                        &&& final(world)@ == spec_write_block(
                            old(world)@,
                            id,
                            at.x as int,
                            at.y as int,
                            at.z as int,
                            block,
                        )
                    }
            },
            None => {
                let at = event.prev_pos.spec_chunk_offset();
                &&& final(world)@ == old(world)@
                &&& event.button != MouseButton::Right || forall|id: int|
                    holds(old(world), id, event.prev_pos) ==> old(world)@[id].chunk.cube(
                        at.x as int,
                        at.y as int,
                        at.z as int,
                    ) != Block::Air
            },
        },
{
    if event.button != MouseButton::Right {
        return None;
    }
    let (chunk_pos, offset) = Chunk::i_world_to_chunk(event.prev_pos);
    match world.lookup(chunk_pos) {
        Some(id) => {
            if world.get(id).read_block(offset) == Block::Air {
                world.write_block(id, offset, block);
                assert(holds(old(world), id as int, event.prev_pos));
                Some(ClientMessage::PlaceBlock(event.prev_pos, block))
            } else {
                assert forall|other: int| holds(old(world), other, event.prev_pos) implies old(
                    world,
                )@[other].chunk.cube(offset.x as int, offset.y as int, offset.z as int)
                    != Block::Air by {
                    if other != id {
                        if other < id {
                            assert(old(world)@[other].chunk.pos != old(world)@[id as int].chunk.pos);
                        } else {
                            assert(old(world)@[id as int].chunk.pos != old(world)@[other].chunk.pos);
                        }
                    }
                }
                None
            }
        },
        None => None,
    }
}

} // verus!
