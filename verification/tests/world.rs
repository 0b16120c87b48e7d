use logic_voxels::block::Block;
use logic_voxels::chunk::Chunk;
use logic_voxels::chunk_updating::{
    apply_buffered_chunk_writes, update_dirt, update_dirt_sys, update_dirty_chunks,
};
use logic_voxels::direction::Direction;
use logic_voxels::loaded_chunks::{ChunkComp, LoadedChunks};
use logic_voxels::position::IVec3;

fn v(x: i32, y: i32, z: i32) -> IVec3 {
    IVec3::new(x, y, z)
}

fn chunk_at(x: i32, y: i32, z: i32) -> Chunk {
    let mut chunk = Chunk::new();
    chunk.set_pos(v(x, y, z));
    chunk
}

const ALL: [Direction; 6] = [
    Direction::Front,
    Direction::Back,
    Direction::Left,
    Direction::Right,
    Direction::Top,
    Direction::Bottom,
];

#[test]
fn world_position_splits_into_chunk_and_offset() {
    assert_eq!(Chunk::i_world_to_chunk(v(0, 0, 0)), (v(0, 0, 0), v(0, 0, 0)));
    assert_eq!(Chunk::i_world_to_chunk(v(15, 16, 17)), (v(0, 1, 1), v(15, 0, 1)));
    assert_eq!(Chunk::i_world_to_chunk(v(-1, -16, -17)), (v(-1, -1, -2), v(15, 0, 15)));
    assert_eq!(
        Chunk::i_world_to_chunk(v(i32::MIN, i32::MAX, 35)),
        (v(-134217728, 134217727, 2), v(0, 15, 3))
    );
}

#[test]
fn chunk_and_offset_join_to_the_world_position() {
    for p in [-40, -17, -16, -15, -1, 0, 1, 15, 16, 31, 32, 1000] {
        let pos = v(p, -p, p / 2);
        let (chunk, offset) = Chunk::i_world_to_chunk(pos);
        assert!(offset.is_offset());
        assert_eq!(Chunk::chunk_to_world(chunk, offset), Some(pos));
    }
    assert_eq!(Chunk::chunk_to_world(v(134217727, 0, 0), v(15, 0, 0)), Some(v(i32::MAX, 0, 0)));
    assert_eq!(Chunk::chunk_to_world(v(134217728, 0, 0), v(0, 0, 0)), None);
}

#[test]
fn opposite_directions_pair_up() {
    assert_eq!(Direction::Front.opposite(), Direction::Back);
    assert_eq!(Direction::Back.opposite(), Direction::Front);
    assert_eq!(Direction::Left.opposite(), Direction::Right);
    assert_eq!(Direction::Right.opposite(), Direction::Left);
    assert_eq!(Direction::Top.opposite(), Direction::Bottom);
    assert_eq!(Direction::Bottom.opposite(), Direction::Top);
    for (i, d) in ALL.iter().enumerate() {
        assert_eq!(d.index(), i);
        assert_eq!(Direction::from_index(i), *d);
        assert_eq!(d.opposite().opposite(), *d);
        let (a, b) = (d.offset(), d.opposite().offset());
        assert_eq!((a.0 + b.0, a.1 + b.1, a.2 + b.2), (0, 0, 0));
    }
    assert_eq!(Direction::Front.offset(), (1, 0, 0));
    assert_eq!(Direction::Left.offset(), (0, 0, 1));
    assert_eq!(Direction::Top.offset(), (0, 1, 0));
    assert_eq!(v(1, 2, 3).step(Direction::Bottom), Some(v(1, 1, 3)));
    assert_eq!(v(i32::MAX, 0, 0).step(Direction::Front), None);
}

#[test]
fn block_faces_and_tags() {
    assert!(!Block::Air.is_filled());
    for b in [Block::Grass, Block::Dirt, Block::Metal, Block::Glass] {
        assert!(b.is_filled());
    }
    assert_eq!(Block::default(), Block::Air);
    assert_eq!(Block::Grass.get_face_index(Direction::Top), 0);
    assert_eq!(Block::Grass.get_face_index(Direction::Left), 1);
    assert_eq!(Block::Grass.get_face_index(Direction::Bottom), 2);
    assert_eq!(Block::Dirt.get_face_index(Direction::Top), 2);
    assert_eq!(Block::Metal.get_face_index(Direction::Front), 3);
    assert_eq!(Block::Metal.get_face_index(Direction::Top), 5);
    assert_eq!(Block::Metal.get_face_index(Direction::Bottom), 6);
    assert_eq!(Block::Glass.get_face_index(Direction::Back), 4);
    assert_eq!(Block::Air.get_face_index(Direction::Back), 0);
    for (tag, b) in [Block::Air, Block::Grass, Block::Dirt, Block::Metal, Block::Glass]
        .iter()
        .enumerate()
    {
        assert_eq!(b.tag(), tag as u32);
        assert_eq!(Block::from_tag(tag as u32), Some(*b));
    }
    assert_eq!(Block::from_tag(5), None);
}

#[test]
fn lookup_finds_chunks_by_position() {
    let mut world = LoadedChunks::new();
    assert_eq!(world.len(), 0);
    assert_eq!(world.lookup(v(0, 0, 0)), None);
    let (a, replaced) = world.insert(chunk_at(0, 0, 0));
    assert!(replaced.is_none());
    let (b, _) = world.insert(chunk_at(-3, 7, 2));
    assert_eq!(world.len(), 2);
    assert_eq!(world.lookup(v(0, 0, 0)), Some(a));
    assert_eq!(world.lookup(v(-3, 7, 2)), Some(b));
    assert_eq!(world.lookup(v(1, 0, 0)), None);
    assert_eq!(world.get(b).read_chunk().pos(), v(-3, 7, 2));
}

#[test]
fn wiring_links_both_ways_and_dirties_the_neighbor() {
    let mut world = LoadedChunks::new();
    let (center, _) = world.spawn(chunk_at(0, 0, 0));
    assert!(ALL.iter().all(|d| world.get(center).read_chunk().neighbor(*d).is_none()));
    let mut ids = Vec::new();
    for d in ALL {
        let (x, y, z) = d.offset();
        let (id, _) = world.spawn(chunk_at(x, y, z));
        ids.push(id);
    }
    for (i, d) in ALL.iter().enumerate() {
        assert_eq!(world.get(center).read_chunk().neighbor(*d), Some(ids[i]));
        assert_eq!(world.get(ids[i]).read_chunk().neighbor(d.opposite()), Some(center));
        assert!(!world.get(ids[i]).read_dirty());
    }
    assert!(world.get(center).read_dirty());
    // a chunk two steps away is no neighbor
    let (far, _) = world.spawn(chunk_at(3, 0, 0));
    assert!(ALL.iter().all(|d| world.get(far).read_chunk().neighbor(*d).is_none()));
}

#[test]
fn every_link_is_answered_after_wiring() {
    let mut world = LoadedChunks::new();
    for x in -1..=1 {
        for y in -1..=1 {
            for z in -1..=1 {
                world.spawn(chunk_at(x, y, z));
            }
        }
    }
    assert_eq!(world.len(), 27);
    for a in 0..world.len() {
        for d in ALL {
            if let Some(b) = world.get(a).read_chunk().neighbor(d) {
                assert_eq!(world.get(b).read_chunk().neighbor(d.opposite()), Some(a));
                assert_eq!(world.get(a).read_chunk().pos().step(d), Some(world.get(b).read_chunk().pos()));
            }
        }
    }
    let middle = world.lookup(v(0, 0, 0)).unwrap();
    assert!(ALL.iter().all(|d| world.get(middle).read_chunk().neighbor(*d).is_some()));
}

#[test]
fn a_chunk_at_a_loaded_position_replaces_the_old_one() {
    let mut world = LoadedChunks::new();
    let (a, _) = world.spawn(chunk_at(0, 0, 0));
    let (b, _) = world.spawn(chunk_at(1, 0, 0));
    world.write_block(a, v(2, 2, 2), Block::Dirt);
    let mut newer = chunk_at(0, 0, 0);
    newer.set_cube(1, 1, 1, Block::Glass);
    let (id, replaced) = world.insert(newer);
    assert_eq!(id, a);
    assert_eq!(world.len(), 2);
    let replaced = replaced.unwrap();
    assert_eq!(replaced.read_block_xyz(2, 2, 2), Block::Dirt);
    assert_eq!(world.get(a).read_block_xyz(1, 1, 1), Block::Glass);
    assert_eq!(world.get(a).read_block_xyz(2, 2, 2), Block::Air);
    // the old chunk is torn down: nothing links to it any more
    assert_eq!(world.get(b).read_chunk().neighbor(Direction::Back), None);
    assert_eq!(world.get(a).read_chunk().neighbor(Direction::Front), None);
    world.wire_neighbors(a);
    assert_eq!(world.get(b).read_chunk().neighbor(Direction::Back), Some(a));
    assert_eq!(world.get(a).read_chunk().neighbor(Direction::Front), Some(b));
    assert!(world.get(b).read_dirty());
}

#[test]
fn write_block_dirties_the_chunk_and_the_touched_neighbors() {
    let mut world = LoadedChunks::new();
    let (a, _) = world.spawn(chunk_at(0, 0, 0));
    let (front, _) = world.spawn(chunk_at(1, 0, 0));
    let (top, _) = world.spawn(chunk_at(0, 1, 0));
    let (right, _) = world.spawn(chunk_at(0, 0, -1));
    for id in [a, front, top, right] {
        world.write_dirty(id, false);
    }
    world.write_block(a, v(5, 5, 5), Block::Dirt);
    assert_eq!(world.get(a).read_block(v(5, 5, 5)), Block::Dirt);
    assert!(world.get(a).read_dirty());
    assert!(!world.get(front).read_dirty());
    assert!(!world.get(top).read_dirty());
    assert!(!world.get(right).read_dirty());

    world.write_dirty(a, false);
    world.write_block_xyz(a, 15, 15, 0, Block::Metal);
    assert!(world.get(a).read_dirty());
    assert!(world.get(front).read_dirty());
    assert!(world.get(top).read_dirty());
    assert!(world.get(right).read_dirty());
    // no voxel of a neighbor was touched
    for id in [front, top, right] {
        for x in 0..16 {
            for y in 0..16 {
                for z in 0..16 {
                    assert_eq!(world.get(id).read_block_xyz(x, y, z), Block::Air);
                }
            }
        }
    }
}

#[test]
fn dirty_neighbor_marks_only_a_loaded_neighbor() {
    let mut world = LoadedChunks::new();
    let (a, _) = world.spawn(chunk_at(0, 0, 0));
    let (b, _) = world.spawn(chunk_at(0, 0, 1));
    world.write_dirty(a, false);
    world.write_dirty(b, false);
    world.dirty_neighbor(a, Direction::Right);
    assert!(!world.get(b).read_dirty());
    world.dirty_neighbor(a, Direction::Left);
    assert!(world.get(b).read_dirty());
    assert!(!world.get(a).read_dirty());
}

#[test]
fn remesh_pass_cleans_dirty_chunks() {
    let mut world = LoadedChunks::new();
    let (a, _) = world.spawn(chunk_at(0, 0, 0));
    let (b, _) = world.spawn(chunk_at(1, 0, 0));
    world.write_dirty(a, false);
    world.write_dirty(b, false);
    assert!(update_dirty_chunks(&mut world).is_empty());
    world.write_block(a, v(15, 3, 3), Block::Dirt);
    assert!(world.get(a).read_dirty() && world.get(b).read_dirty());
    let meshes = update_dirty_chunks(&mut world);
    assert_eq!(meshes.len(), 2);
    assert_eq!(meshes[0].0, a);
    assert_eq!(meshes[1].0, b);
    // the front face of the voxel looks into the neighbor, which is empty there
    assert_eq!(meshes[0].1.quad_count(), 6);
    assert_eq!(meshes[1].1.quad_count(), 0);
    assert!(!world.get(a).read_dirty() && !world.get(b).read_dirty());
    assert_eq!(world.get(a).read_block(v(15, 3, 3)), Block::Dirt);
}

#[test]
fn remesh_pass_stops_after_thirty_one_chunks() {
    let mut world = LoadedChunks::new();
    for x in 0..40 {
        let mut chunk = chunk_at(x * 2, 0, 0);
        chunk.set_dirty(true);
        world.spawn(chunk);
    }
    let meshes = update_dirty_chunks(&mut world);
    assert_eq!(meshes.len(), 31);
    let ids: Vec<usize> = meshes.iter().map(|m| m.0).collect();
    assert_eq!(ids, (0..31).collect::<Vec<usize>>());
    let dirty: Vec<usize> = (0..40).filter(|id| world.get(*id).read_dirty()).collect();
    assert_eq!(dirty, (31..40).collect::<Vec<usize>>());
    assert_eq!(update_dirty_chunks(&mut world).len(), 9);
    assert!((0..40).all(|id| !world.get(id).read_dirty()));
}

#[test]
fn buffered_writes_wait_until_they_are_applied() {
    let mut world = LoadedChunks::new();
    let (a, _) = world.spawn(chunk_at(0, 0, 0));
    let (b, _) = world.spawn(chunk_at(-1, 0, 0));
    world.write_dirty(a, false);
    world.write_dirty(b, false);
    world.buffered_write(a, v(0, 1, 1), Block::Dirt);
    world.buffered_write(a, v(4, 4, 4), Block::Grass);
    world.buffered_write(a, v(4, 4, 4), Block::Glass);
    assert_eq!(world.get(a).read_block(v(0, 1, 1)), Block::Air);
    assert!(!world.get(a).read_dirty());
    world.apply_buffered_writes(a);
    assert_eq!(world.get(a).read_block(v(0, 1, 1)), Block::Dirt);
    assert_eq!(world.get(a).read_block(v(4, 4, 4)), Block::Glass);
    assert!(world.get(a).read_dirty());
    assert!(world.get(b).read_dirty());
    // the queue is empty now
    world.write_block(a, v(4, 4, 4), Block::Air);
    world.apply_buffered_writes(a);
    assert_eq!(world.get(a).read_block(v(4, 4, 4)), Block::Air);
}

#[test]
fn chunk_comp_queues_writes_on_its_own() {
    let mut chunk = Chunk::new();
    chunk.set_cube(1, 2, 3, Block::Metal);
    chunk.set_dirty(true);
    let mut comp = ChunkComp::new(chunk);
    comp.buffered_write(v(1, 2, 3), Block::Air);
    assert_eq!(comp.read_block(v(1, 2, 3)), Block::Metal);
    assert_eq!(comp.read_block_xyz(1, 2, 3), Block::Metal);
    assert!(comp.read_dirty());
    assert_eq!(comp.read_chunk().cube(1, 2, 3), Block::Metal);
}

#[test]
fn get_block_looks_into_loaded_neighbors() {
    let mut world = LoadedChunks::new();
    let mut here = chunk_at(0, 0, 0);
    here.set_cube(0, 0, 0, Block::Dirt);
    let mut back = chunk_at(-1, 0, 0);
    back.set_cube(15, 2, 3, Block::Metal);
    let mut top = chunk_at(0, 1, 0);
    top.set_cube(4, 0, 5, Block::Glass);
    let (a, _) = world.spawn(here);
    world.spawn(back);
    world.spawn(top);
    let chunk = world.get(a).read_chunk();
    assert_eq!(chunk.get_block(0, 0, 0, &world), Some(Block::Dirt));
    assert_eq!(chunk.get_block(7, 7, 7, &world), Some(Block::Air));
    assert_eq!(chunk.get_block(-1, 2, 3, &world), Some(Block::Metal));
    assert_eq!(chunk.get_block(-1, 2, 4, &world), Some(Block::Air));
    assert_eq!(chunk.get_block(4, 16, 5, &world), Some(Block::Glass));
    assert_eq!(chunk.get_block(16, 0, 0, &world), None);
    assert_eq!(chunk.get_block(0, -1, 0, &world), None);
    assert_eq!(chunk.get_block(0, 0, 16, &world), None);
    assert_eq!(chunk.get_block(0, 0, -1, &world), None);
    assert_eq!(
        chunk.get_block_neighbors(0, 15, 0, &world),
        [Some(Block::Air), Some(Block::Air), Some(Block::Air), None, Some(Block::Air), Some(Block::Air)]
    );
    assert_eq!(
        chunk.get_block_neighbors(4, 15, 5, &world),
        [
            Some(Block::Air),
            Some(Block::Air),
            Some(Block::Air),
            Some(Block::Air),
            Some(Block::Glass),
            Some(Block::Air)
        ]
    );
    assert!(Chunk::index_inbounds(0) && Chunk::index_inbounds(15));
    assert!(!Chunk::index_inbounds(-1) && !Chunk::index_inbounds(16));
}

#[test]
fn update_dirt_turns_covered_grass_to_dirt() {
    let none = [None; 6];
    let mut covered = [None; 6];
    covered[Direction::Top.index()] = Some(Block::Metal);
    let mut open = [Some(Block::Dirt); 6];
    open[Direction::Top.index()] = Some(Block::Air);
    assert_eq!(update_dirt(&Block::Grass, covered), Some(Block::Dirt));
    assert_eq!(update_dirt(&Block::Grass, open), None);
    assert_eq!(update_dirt(&Block::Grass, none), None);
    assert_eq!(update_dirt(&Block::Dirt, covered), None);
    assert_eq!(update_dirt(&Block::Air, covered), None);
}

#[test]
fn update_dirt_sys_reads_first_and_writes_later() {
    let mut world = LoadedChunks::new();
    let mut lower = chunk_at(0, 0, 0);
    // a column of grass: every voxel but the top one is covered
    for y in 0..16 {
        lower.set_cube(3, y, 3, Block::Grass);
    }
    lower.set_cube(8, 15, 8, Block::Grass);
    let mut upper = chunk_at(0, 1, 0);
    upper.set_cube(8, 0, 8, Block::Metal);
    let (a, _) = world.spawn(lower);
    let (b, _) = world.spawn(upper);
    update_dirt_sys(&mut world);
    // nothing has changed yet
    assert_eq!(world.get(a).read_block(v(3, 0, 3)), Block::Grass);
    apply_buffered_chunk_writes(&mut world);
    for y in 0..15 {
        assert_eq!(world.get(a).read_block(v(3, y, 3)), Block::Dirt);
    }
    assert_eq!(world.get(a).read_block(v(3, 15, 3)), Block::Grass);
    // covered by a voxel of the chunk above
    assert_eq!(world.get(a).read_block(v(8, 15, 8)), Block::Dirt);
    assert_eq!(world.get(b).read_block(v(8, 0, 8)), Block::Metal);
}

#[test]
fn apply_function_to_blocks_queues_what_the_function_answers() {
    let mut world = LoadedChunks::new();
    let mut chunk = chunk_at(0, 0, 0);
    chunk.set_cube(1, 1, 1, Block::Dirt);
    chunk.set_cube(2, 2, 2, Block::Dirt);
    let (a, _) = world.spawn(chunk);
    world.apply_function_to_blocks(a, |block: &Block, _beside: [Option<Block>; 6]| {
        if *block == Block::Dirt {
            Some(Block::Glass)
        } else {
            None
        }
    });
    assert_eq!(world.get(a).read_block(v(1, 1, 1)), Block::Dirt);
    world.apply_buffered_writes(a);
    assert_eq!(world.get(a).read_block(v(1, 1, 1)), Block::Glass);
    assert_eq!(world.get(a).read_block(v(2, 2, 2)), Block::Glass);
    assert_eq!(world.get(a).read_block(v(3, 3, 3)), Block::Air);
}

#[test]
fn default_values_are_empty() {
    let chunk = Chunk::default();
    assert_eq!(chunk.pos(), v(0, 0, 0));
    assert!(!chunk.dirty());
    assert!(ALL.iter().all(|d| chunk.neighbor(*d).is_none()));
    assert_eq!(chunk.cube(15, 15, 15), Block::Air);
    assert_eq!(chunk.clone().encode(), chunk.encode());
    assert_eq!(LoadedChunks::default().len(), 0);
    assert_eq!(IVec3::zero(), v(0, 0, 0));
    let mut linked = LoadedChunks::new();
    linked.spawn(chunk_at(0, 0, 0));
    linked.spawn(chunk_at(0, 1, 0));
    let mut copy = linked.get(0).read_chunk().clone();
    assert!(copy.neighbor(Direction::Top).is_some());
    copy.detach();
    assert!(ALL.iter().all(|d| copy.neighbor(*d).is_none()));
}

#[test]
fn connect_neighbor_links_one_side_at_a_time() {
    let mut world = LoadedChunks::new();
    let (a, _) = world.insert(chunk_at(0, 0, 0));
    let (b, _) = world.insert(chunk_at(0, 0, 1));
    let (c, _) = world.insert(chunk_at(0, -1, 0));
    assert!(ALL.iter().all(|d| world.get(a).read_chunk().neighbor(*d).is_none()));
    world.connect_neighbor(a, Direction::Right);
    assert!(ALL.iter().all(|d| world.get(a).read_chunk().neighbor(*d).is_none()));
    world.connect_neighbor(a, Direction::Left);
    assert_eq!(world.get(a).read_chunk().neighbor(Direction::Left), Some(b));
    assert_eq!(world.get(b).read_chunk().neighbor(Direction::Right), Some(a));
    assert!(world.get(b).read_dirty());
    assert!(!world.get(a).read_dirty());
    assert_eq!(world.get(a).read_chunk().neighbor(Direction::Bottom), None);
    assert_eq!(world.get(c).read_chunk().neighbor(Direction::Top), None);
}
