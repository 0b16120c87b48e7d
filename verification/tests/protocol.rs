use logic_voxels::block::Block;
use logic_voxels::channel::Channel;
use logic_voxels::chunk::{Chunk, DecodeError};
use logic_voxels::click_detection::{click_to_break, click_to_place, ClickEvent, MouseButton};
use logic_voxels::client_chunks::{load_chunks_from_server, spawn_chunk_meshes};
use logic_voxels::direction::Direction;
use logic_voxels::loaded_chunks::LoadedChunks;
use logic_voxels::message::{
    check_all_can_send, ClientMessage, MessageError, Peer, SendError, ServerBlockMessage,
    ServerMessage,
};
use logic_voxels::position::IVec3;
use logic_voxels::server_chunks::{
    gen_chunk, loaded_payload, ping_test, server_create_chunks, server_edit_block,
    server_load_chunk, ChunkRequest, ChunkSource, Received, RequestQueue,
};
use noise::{NoiseFn, Perlin};

fn v(x: i32, y: i32, z: i32) -> IVec3 {
    IVec3::new(x, y, z)
}

fn same_voxels(a: &Chunk, b: &Chunk) -> bool {
    (0..16).all(|x| (0..16).all(|y| (0..16).all(|z| a.cube(x, y, z) == b.cube(x, y, z))))
}

/// The terrain of the chunk at `pos`: solid where the noise is high.
fn terrain(pos: IVec3, threshold: f64) -> Vec<bool> {
    let perlin = Perlin::new();
    let mut solid = Vec::with_capacity(4096);
    for x in 0..16 {
        for y in 0..16 {
            for z in 0..16 {
                let wx = (x + pos.x * 16) as f64;
                let wy = (y + pos.y * 16) as f64;
                let wz = (z + pos.z * 16) as f64;
                let value = (perlin.get([wx / 21.912, wy / 29.312, wz / 23.253]) + 1.0) / 2.0
                    + (0.12 * perlin.get([wx / 3.912, wy / 2.312, wz / 3.253]) + 0.06);
                solid.push(value >= threshold);
            }
        }
    }
    solid
}

#[test]
fn channel_ids_are_those_of_the_transport() {
    assert_eq!(Channel::Reliable.id(), 0);
    assert_eq!(Channel::Unreliable.id(), 1);
    assert_eq!(Channel::Block.id(), 2);
    assert_eq!(ClientMessage::channel(), Channel::Reliable);
    assert_eq!(ServerMessage::channel(), Channel::Reliable);
    assert_eq!(ServerBlockMessage::channel(), Channel::Block);
}

#[test]
fn client_messages_have_the_bytes_of_the_codec() {
    assert_eq!(ClientMessage::Ping.encode(), bincode::serialize(&0u32).unwrap());
    assert_eq!(
        ClientMessage::BreakBlock(v(1, -2, 300)).encode(),
        bincode::serialize(&(1u32, (1i32, -2i32, 300i32))).unwrap()
    );
    assert_eq!(
        ClientMessage::PlaceBlock(v(-5, 6, 7), Block::Metal).encode(),
        bincode::serialize(&(2u32, (-5i32, 6i32, 7i32), 3u32)).unwrap()
    );
    assert_eq!(
        ClientMessage::RequestChunk(v(0, 0, -1)).encode(),
        vec![3, 0, 0, 0, 0, 0, 0, 0, 0, 0, 0, 0, 255, 255, 255, 255]
    );
    assert_eq!(ServerMessage::Pong.encode(), vec![0, 0, 0, 0]);
    assert_eq!(
        ServerBlockMessage::Chunk(vec![9, 8, 7]).encode(),
        bincode::serialize(&(0u32, vec![9u8, 8, 7])).unwrap()
    );
}

#[test]
fn messages_are_read_back() {
    for message in [
        ClientMessage::Ping,
        ClientMessage::BreakBlock(v(i32::MIN, 0, i32::MAX)),
        ClientMessage::PlaceBlock(v(3, 3, 3), Block::Glass),
        ClientMessage::RequestChunk(v(-1, -1, -1)),
    ] {
        let mut bytes = message.encode();
        assert_eq!(ClientMessage::decode(&bytes), Ok(message));
        bytes.push(200);
        assert_eq!(ClientMessage::decode(&bytes), Ok(message));
    }
    assert_eq!(ServerMessage::decode(&ServerMessage::Pong.encode()), Ok(ServerMessage::Pong));
    let payload = vec![1u8, 2, 3, 4, 5];
    match ServerBlockMessage::decode(&ServerBlockMessage::Chunk(payload.clone()).encode()) {
        Ok(ServerBlockMessage::Chunk(read)) => assert_eq!(read, payload),
        Err(e) => panic!("{:?}", e),
    }
}

#[test]
fn malformed_messages_are_rejected() {
    assert_eq!(ClientMessage::decode(&vec![0, 0, 0]), Err(MessageError::Truncated));
    assert_eq!(ClientMessage::decode(&vec![4, 0, 0, 0]), Err(MessageError::InvalidTag));
    assert_eq!(ClientMessage::decode(&vec![1, 0, 0, 1]), Err(MessageError::InvalidTag));
    assert_eq!(ClientMessage::decode(&vec![1, 0, 0, 0, 1, 2]), Err(MessageError::Truncated));
    let mut place = ClientMessage::PlaceBlock(v(0, 0, 0), Block::Dirt).encode();
    assert_eq!(ClientMessage::decode(&place[..19].to_vec()), Err(MessageError::Truncated));
    place[16] = 9;
    assert_eq!(ClientMessage::decode(&place), Err(MessageError::InvalidBlock));
    assert_eq!(ServerMessage::decode(&vec![]), Err(MessageError::Truncated));
    assert_eq!(ServerMessage::decode(&vec![1, 0, 0, 0]), Err(MessageError::InvalidTag));
    assert!(matches!(ServerBlockMessage::decode(&vec![0, 0]), Err(MessageError::Truncated)));
    assert!(matches!(ServerBlockMessage::decode(&vec![2, 0, 0, 0]), Err(MessageError::InvalidTag)));
    assert!(matches!(
        ServerBlockMessage::decode(&vec![0, 0, 0, 0, 1, 0, 0]),
        Err(MessageError::Truncated)
    ));
    assert!(matches!(
        ServerBlockMessage::decode(&vec![0, 0, 0, 0, 2, 0, 0, 0, 0, 0, 0, 0, 7]),
        Err(MessageError::Truncated)
    ));
}

#[test]
fn a_message_is_sent_only_where_the_channel_takes_it() {
    let ping = ClientMessage::Ping;
    assert_eq!(ping.send(true), Ok(vec![0, 0, 0, 0]));
    assert_eq!(ping.send(false), Err(SendError::CannotSend));
    assert_eq!(ServerMessage::Pong.send(true), Ok(vec![0, 0, 0, 0]));
    assert_eq!(ServerMessage::Pong.send(false), Err(SendError::CannotSend));
    let chunk = ServerBlockMessage::Chunk(vec![5]);
    assert_eq!(chunk.send(true), Ok(chunk.encode()));
    assert_eq!(chunk.send(false), Err(SendError::CannotSend));

    let peers = vec![
        Peer { id: 1, can_send: true },
        Peer { id: 2, can_send: false },
        Peer { id: 3, can_send: true },
    ];
    assert!(!check_all_can_send(&peers, None));
    assert!(check_all_can_send(&peers, Some(2)));
    assert!(!check_all_can_send(&peers, Some(1)));
    assert!(check_all_can_send(&vec![], None));
    assert_eq!(chunk.broadcast(&peers), Err(SendError::CannotSend));
    assert_eq!(chunk.broadcast_except(&peers, 2), Ok(chunk.encode()));
    assert_eq!(chunk.broadcast_except(&peers, 3), Err(SendError::CannotSend));
    assert_eq!(ServerMessage::Pong.broadcast(&peers), Err(SendError::CannotSend));
    assert_eq!(ServerMessage::Pong.broadcast_except(&peers, 2), Ok(vec![0, 0, 0, 0]));
}

#[test]
fn requests_wait_until_the_transport_takes_them() {
    let mut queue = RequestQueue::new();
    let a = ChunkRequest { client: 1, pos: v(0, 0, 0) };
    let b = ChunkRequest { client: 2, pos: v(1, 0, 0) };
    assert!(queue.attempt(a, true));
    assert_eq!(queue.len(), 0);
    assert!(!queue.attempt(a, false));
    assert!(!queue.attempt(b, false));
    assert_eq!(queue.len(), 2);
    assert_eq!(queue.begin_tick(), vec![a, b]);
    assert_eq!(queue.len(), 0);
    let serve = queue.attempt_all(&vec![a, b, a], &vec![false, true, false]);
    assert_eq!(serve, vec![b]);
    assert_eq!(queue.begin_tick(), vec![a, a]);
}

#[test]
fn the_queue_drains_one_request_a_tick_in_order() {
    let n = 7;
    let requests: Vec<ChunkRequest> =
        (0..n).map(|i| ChunkRequest { client: 42, pos: v(i, 0, -i) }).collect();
    let mut queue = RequestQueue::new();
    let mut delivered = Vec::new();
    for tick in 0..n {
        let mut attempts = queue.begin_tick();
        if tick == 0 {
            attempts.extend(requests.iter().copied());
        }
        // the transport takes one chunk in a tick
        let mut room = 1;
        for request in attempts {
            let can_send = room > 0;
            if queue.attempt(request, can_send) {
                room -= 1;
                delivered.push(request);
            }
        }
        assert_eq!(queue.len() as i32, n - 1 - tick);
    }
    assert_eq!(queue.len(), 0);
    assert_eq!(delivered, requests);
}

#[test]
fn generated_chunk_follows_the_terrain() {
    let mut solid = vec![false; 4096];
    solid[0] = true;
    solid[4095] = true;
    solid[(3 * 16 + 4) * 16 + 5] = true;
    let chunk = gen_chunk(v(2, -1, 0), &solid);
    assert_eq!(chunk.pos(), v(2, -1, 0));
    assert!(!chunk.dirty());
    assert_eq!(chunk.cube(0, 0, 0), Block::Grass);
    assert_eq!(chunk.cube(15, 15, 15), Block::Grass);
    assert_eq!(chunk.cube(3, 4, 5), Block::Grass);
    assert_eq!(chunk.cube(5, 4, 3), Block::Air);
    let short = gen_chunk(v(0, 0, 0), &vec![true; 10]);
    assert_eq!(short.cube(0, 0, 9), Block::Grass);
    assert_eq!(short.cube(0, 0, 10), Block::Air);
}

#[test]
fn requested_chunk_is_generated_sent_and_read_by_the_client() {
    let pos = v(0, 0, 0);
    let mut server = LoadedChunks::new();
    let mut queue = RequestQueue::new();
    let request = match ClientMessage::decode(&ClientMessage::RequestChunk(pos).encode()) {
        Ok(ClientMessage::RequestChunk(pos)) => ChunkRequest { client: 7, pos },
        other => panic!("{:?}", other),
    };
    // first tick: the channel is busy, the request waits
    assert!(!queue.attempt(request, false));
    assert!(loaded_payload(&server, pos).is_none());
    // second tick: the channel takes the chunk
    let again = queue.begin_tick();
    assert_eq!(again, vec![request]);
    assert!(queue.attempt(again[0], true));
    assert!(loaded_payload(&server, pos).is_none());
    let source = ChunkSource::Generated(terrain(pos, 0.5));
    let loaded = server_load_chunk(&mut server, pos, || source).unwrap();
    assert!(loaded.persist);
    assert_eq!(server.lookup(pos), Some(loaded.id));
    let wire = ServerBlockMessage::Chunk(loaded.payload.clone()).send(true).unwrap();

    // the client reads the message
    let message = ServerBlockMessage::decode(&wire).unwrap();
    let received = load_chunks_from_server(&message).unwrap();
    // a second, independent run of the generator gives the same chunk
    let expected = gen_chunk(pos, &terrain(pos, 0.5));
    assert!(same_voxels(&received.chunk, &expected));
    assert_eq!(received.chunk.pos(), pos);
    assert_eq!(received.chunk.encode(), expected.encode());
    let filled = (0..4096).filter(|i| expected.cube(i / 256, i / 16 % 16, i % 16).is_filled()).count();
    assert!(filled > 0 && filled < 4096);
    assert!(received.mesh.quad_count() > 0);

    // asked again, the server sends the loaded chunk
    let second = loaded_payload(&server, pos).unwrap();
    assert_eq!(second.id, loaded.id);
    assert!(!second.persist);
    assert_eq!(second.payload, loaded.payload);
}

#[test]
fn stored_chunk_is_loaded_at_the_requested_position() {
    let mut other = Chunk::new();
    other.set_cube(1, 1, 1, Block::Metal);
    let stored = ChunkSource::Stored(other.compress());
    let mut server = LoadedChunks::new();
    let loaded = server_load_chunk(&mut server, v(4, 5, 6), || stored).unwrap();
    assert!(!loaded.persist);
    let chunk = server.get(loaded.id).read_chunk();
    assert_eq!(chunk.pos(), v(4, 5, 6));
    assert_eq!(chunk.cube(1, 1, 1), Block::Metal);
    let sent = Chunk::from_compressed(&loaded.payload).unwrap();
    assert_eq!(sent.pos(), v(4, 5, 6));

    let broken = ChunkSource::Stored(vec![1, 2, 3]);
    assert!(matches!(
        server_load_chunk(&mut server, v(0, 0, 0), || broken),
        Err(DecodeError::Compression)
    ));
    assert_eq!(server.len(), 1);
}

#[test]
fn break_block_clears_the_voxel_and_goes_to_the_other_clients() {
    let mut server = LoadedChunks::new();
    let mut solid = vec![false; 4096];
    solid[(3 * 16 + 3) * 16 + 3] = true;
    let loaded = server_load_chunk(&mut server, v(0, 0, 0), || ChunkSource::Generated(solid)).unwrap();
    assert_eq!(server.get(loaded.id).read_block(v(3, 3, 3)), Block::Grass);
    server.write_dirty(loaded.id, false);

    let broadcast = server_edit_block(&mut server, 11, ClientMessage::BreakBlock(v(3, 3, 3))).unwrap();
    assert_eq!(broadcast.id, loaded.id);
    assert_eq!(broadcast.except, 11);
    assert_eq!(server.get(loaded.id).read_block(v(3, 3, 3)), Block::Air);
    assert!(server.get(loaded.id).read_dirty());
    let updated = Chunk::from_compressed(&broadcast.payload).unwrap();
    assert_eq!(updated.cube(3, 3, 3), Block::Air);
    assert!(updated.dirty());

    let peers = vec![
        Peer { id: 11, can_send: false },
        Peer { id: 12, can_send: true },
        Peer { id: 13, can_send: true },
    ];
    let message = ServerBlockMessage::Chunk(broadcast.payload);
    assert_eq!(message.broadcast_except(&peers, broadcast.except), Ok(message.encode()));
}

#[test]
fn place_block_writes_and_edits_elsewhere_are_ignored() {
    let mut server = LoadedChunks::new();
    let (id, _) = server.spawn(Chunk::new());
    let placed =
        server_edit_block(&mut server, 1, ClientMessage::PlaceBlock(v(15, 0, 0), Block::Glass)).unwrap();
    assert_eq!(placed.id, id);
    assert_eq!(server.get(id).read_block(v(15, 0, 0)), Block::Glass);
    // a negative world position lies in a chunk that is not loaded
    assert!(server_edit_block(&mut server, 1, ClientMessage::BreakBlock(v(-1, 0, 0))).is_none());
    assert!(server_edit_block(&mut server, 1, ClientMessage::Ping).is_none());
    assert!(server_edit_block(&mut server, 1, ClientMessage::RequestChunk(v(0, 0, 0))).is_none());
    assert_eq!(server.get(id).read_block(v(15, 0, 0)), Block::Glass);
}

#[test]
fn clicks_edit_the_local_chunk_and_tell_the_server() {
    let mut world = LoadedChunks::new();
    let mut chunk = Chunk::new();
    chunk.set_pos(v(-1, 0, 0));
    chunk.set_cube(15, 2, 2, Block::Dirt);
    let (id, _) = world.spawn(chunk);
    let hit = ClickEvent { button: MouseButton::Left, world_pos: v(-1, 2, 2), prev_pos: v(-2, 2, 2) };
    assert_eq!(click_to_place(&mut world, &hit, Block::Metal), None);
    assert_eq!(click_to_break(&mut world, &hit), Some(ClientMessage::BreakBlock(v(-1, 2, 2))));
    assert_eq!(world.get(id).read_block(v(15, 2, 2)), Block::Air);

    let place = ClickEvent { button: MouseButton::Right, world_pos: v(-1, 2, 2), prev_pos: v(-2, 2, 2) };
    assert_eq!(click_to_break(&mut world, &place), None);
    assert_eq!(
        click_to_place(&mut world, &place, Block::Metal),
        Some(ClientMessage::PlaceBlock(v(-2, 2, 2), Block::Metal))
    );
    assert_eq!(world.get(id).read_block(v(14, 2, 2)), Block::Metal);
    // the place is taken now
    assert_eq!(click_to_place(&mut world, &place, Block::Glass), None);
    assert_eq!(world.get(id).read_block(v(14, 2, 2)), Block::Metal);
    // a click into a chunk that is not loaded
    let away = ClickEvent { button: MouseButton::Left, world_pos: v(40, 0, 0), prev_pos: v(41, 0, 0) };
    assert_eq!(click_to_break(&mut world, &away), None);
    let middle = ClickEvent { button: MouseButton::Middle, world_pos: v(-1, 2, 2), prev_pos: v(-2, 2, 2) };
    assert_eq!(click_to_break(&mut world, &middle), None);
}

#[test]
fn received_chunks_are_registered_thirty_one_a_pass() {
    let mut world = LoadedChunks::new();
    let mut ready: Vec<Chunk> = (0..35)
        .map(|i| {
            let mut chunk = Chunk::new();
            chunk.set_pos(v(i % 33, 0, 0));
            chunk
        })
        .collect();
    let done = spawn_chunk_meshes(&mut world, &mut ready);
    assert_eq!(done.len(), 31);
    assert_eq!(ready.len(), 4);
    assert!(done.iter().all(|s| !s.replaced));
    assert_eq!(world.len(), 31);
    let done = spawn_chunk_meshes(&mut world, &mut ready);
    assert_eq!(done.len(), 4);
    assert!(ready.is_empty());
    // the last two came for positions 0 and 1 again
    assert_eq!(done.iter().map(|s| s.replaced).collect::<Vec<bool>>(), vec![false, false, true, true]);
    assert_eq!(done[2].id, world.lookup(v(0, 0, 0)).unwrap());
    assert_eq!(world.len(), 33);
    assert!(spawn_chunk_meshes(&mut world, &mut ready).is_empty());
}

#[test]
fn a_received_chunk_that_cannot_be_read_is_an_error() {
    assert!(matches!(
        load_chunks_from_server(&ServerBlockMessage::Chunk(vec![0, 0])),
        Err(DecodeError::Compression)
    ));
}

#[test]
fn a_tick_tries_waiting_requests_before_new_ones() {
    let mut queue = RequestQueue::new();
    let old = ChunkRequest { client: 9, pos: v(5, 5, 5) };
    assert!(!queue.attempt(old, false));
    let messages = vec![
        Received { client: 1, message: ClientMessage::Ping },
        Received { client: 2, message: ClientMessage::RequestChunk(v(1, 2, 3)) },
        Received { client: 1, message: ClientMessage::BreakBlock(v(0, 0, 0)) },
        Received { client: 1, message: ClientMessage::RequestChunk(v(-1, 0, 0)) },
        Received { client: 3, message: ClientMessage::Ping },
    ];
    let attempts = server_create_chunks(&mut queue, &messages);
    assert_eq!(
        attempts,
        vec![
            old,
            ChunkRequest { client: 2, pos: v(1, 2, 3) },
            ChunkRequest { client: 1, pos: v(-1, 0, 0) },
        ]
    );
    assert_eq!(queue.len(), 0);
    assert_eq!(ping_test(&messages), vec![1, 3]);
    assert!(ping_test(&vec![]).is_empty());
}

#[test]
fn a_loaded_chunk_is_sent_as_it_is_now_and_not_loaded_again() {
    let pos = v(2, 0, -1);
    let mut server = LoadedChunks::new();
    let first = server_load_chunk(&mut server, pos, || ChunkSource::Generated(vec![false; 4096])).unwrap();
    assert!(first.persist);
    // a client edits the chunk
    let world_pos = v(2 * 16 + 5, 6, -16 + 7);
    server_edit_block(&mut server, 3, ClientMessage::PlaceBlock(world_pos, Block::Dirt)).unwrap();
    assert_eq!(server.get(first.id).read_block(v(5, 6, 7)), Block::Dirt);

    // asked again, the source is not touched and the edit is kept
    let mut asked = false;
    let again = server_load_chunk(&mut server, pos, || {
        asked = true;
        ChunkSource::Generated(vec![true; 4096])
    })
    .unwrap();
    assert!(!asked);
    assert_eq!(again.id, first.id);
    assert!(!again.persist);
    assert_eq!(server.len(), 1);
    assert_eq!(server.get(first.id).read_block(v(5, 6, 7)), Block::Dirt);
    assert_eq!(server.get(first.id).read_block(v(0, 0, 0)), Block::Air);
    assert_eq!(again.payload, server.get(first.id).read_chunk().compress());
    let sent = Chunk::from_compressed(&again.payload).unwrap();
    assert_eq!(sent.pos(), pos);
    assert_eq!(sent.cube(5, 6, 7), Block::Dirt);
    assert_eq!(sent.cube(0, 0, 0), Block::Air);

    // a stored chunk that cannot be read does no harm where the chunk is loaded
    let live = server_load_chunk(&mut server, pos, || ChunkSource::Stored(vec![1, 2, 3])).unwrap();
    assert_eq!(live.payload, again.payload);
}

#[test]
fn chunks_registered_in_one_pass_are_linked_with_each_other() {
    let mut world = LoadedChunks::new();
    let mut already = Chunk::new();
    already.set_pos(v(0, 0, 0));
    let (first, _) = world.spawn(already);
    // three chunks come in together: two beside the loaded one, and one
    // beside one of the new ones
    let mut ready: Vec<Chunk> = [v(1, 0, 0), v(0, 1, 0), v(1, 1, 0)]
        .iter()
        .map(|pos| {
            let mut chunk = Chunk::new();
            chunk.set_pos(*pos);
            chunk
        })
        .collect();
    let done = spawn_chunk_meshes(&mut world, &mut ready);
    assert_eq!(done.len(), 3);
    let (front, top, corner) = (done[0].id, done[1].id, done[2].id);
    let link = |from: usize, d: Direction| world.get(from).read_chunk().neighbor(d);
    let (front_side, back_side, top_side, bottom_side) =
        (Direction::Front, Direction::Back, Direction::Top, Direction::Bottom);
    assert_eq!(link(first, front_side), Some(front));
    assert_eq!(link(front, back_side), Some(first));
    assert_eq!(link(first, top_side), Some(top));
    assert_eq!(link(top, bottom_side), Some(first));
    // the two that were registered in this pass, with the third of them
    assert_eq!(link(corner, back_side), Some(top));
    assert_eq!(link(top, front_side), Some(corner));
    assert_eq!(link(corner, bottom_side), Some(front));
    assert_eq!(link(front, top_side), Some(corner));
    for a in 0..world.len() {
        for d in [front_side, back_side, top_side, bottom_side] {
            if let Some(b) = link(a, d) {
                assert_eq!(link(b, d.opposite()), Some(a));
            }
        }
    }
}
