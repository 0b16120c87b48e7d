use logic_voxels::block::Block;
use logic_voxels::chunk::{Chunk, DecodeError, CHUNK_ENCODED_LEN};
use logic_voxels::position::IVec3;

#[test]
fn empty_chunk_encodes_to_zeroes() {
    let chunk = Chunk::new();
    let bytes = chunk.encode();
    assert_eq!(bytes.len(), CHUNK_ENCODED_LEN);
    assert!(bytes.iter().all(|b| *b == 0));
}

#[test]
fn encoding_places_position_voxels_and_flag() {
    let mut chunk = Chunk::new();
    chunk.set_pos(IVec3::new(1, -1, 258));
    chunk.set_cube(0, 0, 1, Block::Grass);
    chunk.set_cube(15, 15, 15, Block::Glass);
    chunk.set_dirty(true);
    let bytes = chunk.encode();
    assert_eq!(&bytes[0..4], &[1, 0, 0, 0]);
    assert_eq!(&bytes[4..8], &[255, 255, 255, 255]);
    assert_eq!(&bytes[8..12], &[2, 1, 0, 0]);
    assert_eq!(&bytes[12..16], &[0, 0, 0, 0]);
    assert_eq!(&bytes[16..20], &[1, 0, 0, 0]);
    assert_eq!(&bytes[12 + 4 * 4095..12 + 4 * 4096], &[4, 0, 0, 0]);
    assert_eq!(bytes[16396], 1);
}

#[test]
fn encoding_matches_bincode() {
    let mut chunk = Chunk::new();
    chunk.set_pos(IVec3::new(-7, 3, 1000));
    let mut cubes = [[[0u32; 16]; 16]; 16];
    for x in 0..16usize {
        for y in 0..16usize {
            for z in 0..16usize {
                let block = match (x * 7 + y * 3 + z) % 5 {
                    0 => Block::Air,
                    1 => Block::Grass,
                    2 => Block::Dirt,
                    3 => Block::Metal,
                    _ => Block::Glass,
                };
                chunk.set_cube(x, y, z, block);
                cubes[x][y][z] = block.tag();
            }
        }
    }
    chunk.set_dirty(true);
    let expected = bincode::serialize(&((-7i32, 3i32, 1000i32), cubes, true)).unwrap();
    assert_eq!(chunk.encode(), expected);
}

#[test]
fn decode_reads_what_encode_wrote() {
    let mut chunk = Chunk::new();
    chunk.set_pos(IVec3::new(-3, 0, 9));
    chunk.set_cube(2, 3, 4, Block::Metal);
    chunk.set_dirty(true);
    let decoded = Chunk::decode(&chunk.encode()).unwrap();
    assert_eq!(decoded.pos(), IVec3::new(-3, 0, 9));
    assert!(decoded.dirty());
    for x in 0..16 {
        for y in 0..16 {
            for z in 0..16 {
                assert_eq!(decoded.cube(x, y, z), chunk.cube(x, y, z));
            }
        }
    }
}

#[test]
fn decode_rejects_malformed_bytes() {
    let good = Chunk::new().encode();
    assert!(matches!(Chunk::decode(&good[..16396].to_vec()), Err(DecodeError::Truncated)));
    let mut bad_block = good.clone();
    bad_block[12] = 5;
    assert!(matches!(Chunk::decode(&bad_block), Err(DecodeError::InvalidBlock)));
    let mut high_byte = good.clone();
    high_byte[15] = 1;
    assert!(matches!(Chunk::decode(&high_byte), Err(DecodeError::InvalidBlock)));
    let mut bad_flag = good.clone();
    bad_flag[16396] = 2;
    assert!(matches!(Chunk::decode(&bad_flag), Err(DecodeError::InvalidFlag)));
    let mut trailing = good.clone();
    trailing.push(77);
    assert!(Chunk::decode(&trailing).is_ok());
}

#[test]
fn compressed_chunk_round_trips() {
    let mut chunk = Chunk::new();
    chunk.set_pos(IVec3::new(4, -5, 6));
    chunk.set_cube(0, 0, 0, Block::Grass);
    chunk.set_cube(15, 0, 7, Block::Dirt);
    let packed = chunk.compress();
    assert!(packed.len() < CHUNK_ENCODED_LEN);
    assert_ne!(packed, chunk.encode());
    let back = Chunk::from_compressed(&packed).unwrap();
    assert_eq!(back.encode(), chunk.encode());
}

#[test]
fn from_compressed_rejects_garbage() {
    assert!(matches!(Chunk::from_compressed(&vec![1, 2]), Err(DecodeError::Compression)));
    let short = lz4::block::compress(&[1u8, 2, 3], None, true).unwrap();
    assert!(matches!(Chunk::from_compressed(&short), Err(DecodeError::Truncated)));
}
