use logic_voxels::block::Block;
use logic_voxels::chunk::Chunk;
use logic_voxels::client_chunks::{distance_key, initial_chunk_requests, sort_by_distance};
use logic_voxels::loaded_chunks::LoadedChunks;
use logic_voxels::persistence::{chunk_file_name, save_all};
use logic_voxels::position::IVec3;

fn v(x: i32, y: i32, z: i32) -> IVec3 {
    IVec3::new(x, y, z)
}

#[test]
fn distance_key_is_the_squared_distance() {
    assert_eq!(distance_key(v(0, 0, 0)), 0);
    assert_eq!(distance_key(v(1, -2, 3)), 14);
    assert_eq!(distance_key(v(i32::MIN, 0, 0)), 1u64 << 62);
    assert_eq!(distance_key(v(i32::MIN, i32::MIN, i32::MIN)), 3u64 << 62);
}

#[test]
fn sorting_is_by_distance_and_stable() {
    let positions = vec![v(3, 0, 0), v(0, 1, 0), v(0, 0, -1), v(0, 0, 0), v(-1, 0, 0), v(1, 1, 0)];
    assert_eq!(
        sort_by_distance(&positions),
        vec![v(0, 0, 0), v(0, 1, 0), v(0, 0, -1), v(-1, 0, 0), v(1, 1, 0), v(3, 0, 0)]
    );
    assert!(sort_by_distance(&vec![]).is_empty());
}

#[test]
fn a_client_asks_for_the_chunks_around_the_origin_nearest_first() {
    let requests = initial_chunk_requests();
    assert_eq!(requests.len(), 64);
    assert_eq!(requests[0], v(0, 0, 0));
    // the six positions one step away, in the order of the grid
    assert_eq!(
        &requests[1..7],
        &[v(-1, 0, 0), v(0, -1, 0), v(0, 0, -1), v(0, 0, 1), v(0, 1, 0), v(1, 0, 0)]
    );
    assert_eq!(requests[63], v(-2, -2, -2));
    for pair in requests.windows(2) {
        assert!(distance_key(pair[0]) <= distance_key(pair[1]));
    }
    for x in -2..2 {
        for y in -2..2 {
            for z in -2..2 {
                assert_eq!(requests.iter().filter(|p| **p == v(x, y, z)).count(), 1);
            }
        }
    }
    // the same order as sorting by the distance itself
    let mut by_float: Vec<IVec3> = Vec::new();
    for x in -2..2 {
        for y in -2..2 {
            for z in -2..2 {
                by_float.push(v(x, y, z));
            }
        }
    }
    by_float.sort_by(|a, b| {
        let da = ((a.x * a.x + a.y * a.y + a.z * a.z) as f32).sqrt();
        let db = ((b.x * b.x + b.y * b.y + b.z * b.z) as f32).sqrt();
        da.partial_cmp(&db).unwrap()
    });
    assert_eq!(requests, by_float);
}

#[test]
fn chunk_files_are_named_by_position() {
    assert_eq!(chunk_file_name(v(0, 0, 0)), "saves/chunk_0_0_0.chunk");
    assert_eq!(chunk_file_name(v(1, -2, 30)), "saves/chunk_1_-2_30.chunk");
    assert_eq!(chunk_file_name(v(-105, 9, 10)), "saves/chunk_-105_9_10.chunk");
    assert_eq!(
        chunk_file_name(v(i32::MIN, i32::MAX, 7)),
        format!("saves/chunk_{}_{}_{}.chunk", i32::MIN, i32::MAX, 7)
    );
}

#[test]
fn saving_names_and_compresses_every_loaded_chunk() {
    let mut world = LoadedChunks::new();
    let mut first = Chunk::new();
    first.set_pos(v(0, -1, 2));
    first.set_cube(1, 1, 1, Block::Dirt);
    world.spawn(first);
    world.spawn(Chunk::new());
    let files = save_all(&world);
    assert_eq!(files.len(), 2);
    assert_eq!(files[0].name, "saves/chunk_0_-1_2.chunk");
    assert_eq!(files[1].name, "saves/chunk_0_0_0.chunk");
    let read = Chunk::from_compressed(&files[0].payload).unwrap();
    assert_eq!(read.pos(), v(0, -1, 2));
    assert_eq!(read.cube(1, 1, 1), Block::Dirt);
    assert!(save_all(&LoadedChunks::new()).is_empty());
}
