use logic_voxels::block::Block;
use logic_voxels::chunk::Chunk;
use logic_voxels::chunk_mesh_generation::{
    build_sheet, coarse_normal_code, create_chunk_mesh, create_collider, create_greedy_face, greedy,
    true_normal, MeshDescription, Sheet,
};
use logic_voxels::direction::Direction;
use logic_voxels::loaded_chunks::LoadedChunks;
use logic_voxels::position::IVec3;

fn v(x: i32, y: i32, z: i32) -> IVec3 {
    IVec3::new(x, y, z)
}

fn solid(block: Block) -> Chunk {
    let mut chunk = Chunk::new();
    for x in 0..16 {
        for y in 0..16 {
            for z in 0..16 {
                chunk.set_cube(x, y, z, block);
            }
        }
    }
    chunk
}

#[test]
fn empty_chunk_has_empty_mesh() {
    let mesh = create_chunk_mesh(&Chunk::new(), &LoadedChunks::new());
    assert_eq!(mesh.quad_count(), 0);
    assert!(mesh.verts.is_empty());
    assert!(mesh.vert_indicies.is_empty());
}

#[test]
fn solid_chunk_has_six_quads() {
    let mesh = create_chunk_mesh(&solid(Block::Dirt), &LoadedChunks::new());
    assert_eq!(mesh.quad_count(), 6);
    assert_eq!(mesh.verts.len(), 24);
    assert_eq!(mesh.true_normals.len(), 24);
    assert_eq!(mesh.normals.len(), 24);
    assert_eq!(mesh.uvs.len(), 24);
    assert_eq!(mesh.texture_indices.len(), 24);
    assert_eq!(mesh.vert_indicies.len(), 36);
    // back, right, bottom in the first slice; front, left, top in the last
    assert_eq!(&mesh.verts[0..4], &[v(0, 0, 0), v(0, 0, 16), v(0, 16, 16), v(0, 16, 0)]);
    assert_eq!(&mesh.verts[4..8], &[v(16, 0, 0), v(0, 0, 0), v(0, 16, 0), v(16, 16, 0)]);
    assert_eq!(&mesh.verts[8..12], &[v(0, 0, 0), v(16, 0, 0), v(16, 0, 16), v(0, 0, 16)]);
    assert_eq!(&mesh.verts[12..16], &[v(16, 0, 16), v(16, 0, 0), v(16, 16, 0), v(16, 16, 16)]);
    assert_eq!(&mesh.verts[16..20], &[v(0, 0, 16), v(16, 0, 16), v(16, 16, 16), v(0, 16, 16)]);
    assert_eq!(&mesh.verts[20..24], &[v(0, 16, 16), v(16, 16, 16), v(16, 16, 0), v(0, 16, 0)]);
    assert_eq!(&mesh.true_normals[0..4], &[v(-1, 0, 0); 4]);
    assert_eq!(&mesh.true_normals[4..8], &[v(0, 0, -1); 4]);
    assert_eq!(&mesh.true_normals[8..12], &[v(0, -1, 0); 4]);
    assert_eq!(&mesh.true_normals[12..16], &[v(1, 0, 0); 4]);
    assert_eq!(&mesh.true_normals[16..20], &[v(0, 0, 1); 4]);
    assert_eq!(&mesh.true_normals[20..24], &[v(0, 1, 0); 4]);
    assert_eq!(&mesh.uvs[0..4], &[[0, 16], [16, 16], [16, 0], [0, 0]]);
    assert!(mesh.texture_indices.iter().all(|layer| *layer == 2));
    assert_eq!(&mesh.vert_indicies[0..6], &[0, 1, 2, 0, 2, 3]);
    assert_eq!(&mesh.vert_indicies[30..36], &[20, 21, 22, 20, 22, 23]);
}

#[test]
fn solid_grass_chunk_uses_a_texture_per_side() {
    let mesh = create_chunk_mesh(&solid(Block::Grass), &LoadedChunks::new());
    assert_eq!(mesh.quad_count(), 6);
    let layers: Vec<u32> = (0..6).map(|q| mesh.texture_indices[q * 4]).collect();
    assert_eq!(layers, vec![1, 1, 2, 1, 1, 0]);
}

#[test]
fn single_voxel_has_six_unit_quads() {
    let mut chunk = Chunk::new();
    chunk.set_cube(3, 4, 5, Block::Metal);
    let mesh = create_chunk_mesh(&chunk, &LoadedChunks::new());
    assert_eq!(mesh.quad_count(), 6);
    for q in 0..6 {
        assert_eq!(&mesh.uvs[q * 4..q * 4 + 4], &[[0, 1], [1, 1], [1, 0], [0, 0]]);
    }
    // slice 3 holds back and front, slice 4 top and bottom, slice 5 left and right
    assert_eq!(&mesh.verts[0..4], &[v(3, 4, 5), v(3, 4, 6), v(3, 5, 6), v(3, 5, 5)]);
    assert_eq!(&mesh.verts[4..8], &[v(4, 4, 6), v(4, 4, 5), v(4, 5, 5), v(4, 5, 6)]);
    assert_eq!(&mesh.verts[8..12], &[v(3, 5, 6), v(4, 5, 6), v(4, 5, 5), v(3, 5, 5)]);
    assert_eq!(&mesh.verts[12..16], &[v(3, 4, 5), v(4, 4, 5), v(4, 4, 6), v(3, 4, 6)]);
    assert_eq!(&mesh.verts[16..20], &[v(3, 4, 6), v(4, 4, 6), v(4, 5, 6), v(3, 5, 6)]);
    assert_eq!(&mesh.verts[20..24], &[v(4, 4, 5), v(3, 4, 5), v(3, 5, 5), v(4, 5, 5)]);
    let layers: Vec<u32> = (0..6).map(|q| mesh.texture_indices[q * 4]).collect();
    assert_eq!(layers, vec![3, 3, 5, 6, 3, 3]);
    let codes: Vec<[u8; 2]> = (0..6).map(|q| mesh.normals[q * 4]).collect();
    assert_eq!(codes, vec![[0, 2], [0, 1], [0, 3], [0, 4], [0, 5], [0, 6]]);
}

#[test]
fn greedy_merges_width_first_then_height() {
    // an L: a column of three along x at y = 0, and one more at (0, 1)
    let mut blocks = [Block::Air; 256];
    blocks[0 * 16 + 0] = Block::Dirt;
    blocks[1 * 16 + 0] = Block::Dirt;
    blocks[2 * 16 + 0] = Block::Dirt;
    blocks[0 * 16 + 1] = Block::Dirt;
    let sheet = Sheet { blocks };
    let mut mesh = MeshDescription::new();
    greedy(&sheet, Direction::Left, &mut mesh, 0);
    assert_eq!(mesh.quad_count(), 2);
    // first rectangle: 3 wide, 1 high, at the origin
    assert_eq!(&mesh.uvs[0..4], &[[0, 1], [3, 1], [3, 0], [0, 0]]);
    assert_eq!(&mesh.verts[0..4], &[v(0, 0, 1), v(3, 0, 1), v(3, 1, 1), v(0, 1, 1)]);
    // second rectangle: the single place left over
    assert_eq!(&mesh.uvs[4..8], &[[0, 1], [1, 1], [1, 0], [0, 0]]);
    assert_eq!(&mesh.verts[4..8], &[v(0, 1, 1), v(1, 1, 1), v(1, 2, 1), v(0, 2, 1)]);
}

#[test]
fn greedy_keeps_different_blocks_apart() {
    let mut blocks = [Block::Dirt; 256];
    for y in 0..16 {
        blocks[8 * 16 + y] = Block::Glass;
    }
    let sheet = Sheet { blocks };
    let mut mesh = MeshDescription::new();
    greedy(&sheet, Direction::Top, &mut mesh, 2);
    assert_eq!(mesh.quad_count(), 3);
    assert_eq!(&mesh.uvs[0..4], &[[0, 16], [8, 16], [8, 0], [0, 0]]);
    assert_eq!(&mesh.uvs[4..8], &[[0, 16], [1, 16], [1, 0], [0, 0]]);
    assert_eq!(&mesh.uvs[8..12], &[[0, 16], [7, 16], [7, 0], [0, 0]]);
    assert_eq!(mesh.texture_indices[0], 2);
    assert_eq!(mesh.texture_indices[4], 4);
}

#[test]
fn greedy_covers_every_face_once() {
    let mut blocks = [Block::Air; 256];
    let mut filled = 0usize;
    for k in 0..256usize {
        if (k * 7 + k / 16) % 3 != 0 {
            blocks[k] = if k % 5 == 0 { Block::Grass } else { Block::Dirt };
            filled += 1;
        }
    }
    let sheet = Sheet { blocks };
    let mut mesh = MeshDescription::new();
    greedy(&sheet, Direction::Bottom, &mut mesh, 0);
    let area: usize =
        (0..mesh.quad_count()).map(|q| mesh.uvs[q * 4 + 1][0] as usize * mesh.uvs[q * 4 + 1][1] as usize).sum();
    assert_eq!(area, filled);
    assert!(mesh.quad_count() < filled);
}

#[test]
fn face_quad_is_appended_after_what_is_there() {
    let mut mesh = MeshDescription::new();
    create_greedy_face(Block::Grass, Direction::Top, 1, 2, 3, 4, 5, &mut mesh);
    create_greedy_face(Block::Grass, Direction::Front, 0, 0, 15, 16, 16, &mut mesh);
    assert_eq!(mesh.quad_count(), 2);
    assert_eq!(&mesh.verts[0..4], &[v(1, 4, 7), v(5, 4, 7), v(5, 4, 2), v(1, 4, 2)]);
    assert_eq!(&mesh.uvs[0..4], &[[0, 5], [4, 5], [4, 0], [0, 0]]);
    assert_eq!(&mesh.vert_indicies[0..6], &[0, 1, 2, 0, 2, 3]);
    assert_eq!(&mesh.vert_indicies[6..12], &[4, 5, 6, 4, 6, 7]);
    assert_eq!(mesh.texture_indices[0], 0);
    assert_eq!(mesh.texture_indices[4], 1);
    assert_eq!(mesh.normals[4], [0, 1]);
}

#[test]
fn loaded_neighbor_hides_the_shared_face() {
    let mut world = LoadedChunks::new();
    let mut left = solid(Block::Dirt);
    left.set_pos(v(0, 0, 0));
    let mut right = solid(Block::Dirt);
    right.set_pos(v(1, 0, 0));
    let (a, _) = world.spawn(left);
    let (b, _) = world.spawn(right);
    let mesh_a = create_chunk_mesh(world.get(a).read_chunk(), &world);
    let mesh_b = create_chunk_mesh(world.get(b).read_chunk(), &world);
    assert_eq!(mesh_a.quad_count(), 5);
    assert_eq!(mesh_b.quad_count(), 5);
    assert!(mesh_a.true_normals.iter().all(|n| *n != v(1, 0, 0)));
    assert!(mesh_b.true_normals.iter().all(|n| *n != v(-1, 0, 0)));
    let front = build_sheet(world.get(a).read_chunk(), &world, Direction::Front, 15);
    assert!(front.blocks.iter().all(|b| *b == Block::Air));
    let back = build_sheet(world.get(a).read_chunk(), &world, Direction::Back, 0);
    assert!(back.blocks.iter().all(|b| *b == Block::Dirt));
}

#[test]
fn collider_takes_the_triangles_of_the_mesh() {
    assert_eq!(create_collider(&MeshDescription::default()), None);
    let mut mesh = MeshDescription::new();
    create_greedy_face(Block::Dirt, Direction::Back, 0, 0, 0, 2, 2, &mut mesh);
    create_greedy_face(Block::Dirt, Direction::Top, 0, 0, 0, 1, 1, &mut mesh);
    assert_eq!(create_collider(&mesh), Some(vec![(0, 1, 2), (0, 2, 3), (4, 5, 6), (4, 6, 7)]));
    // indices that make no whole triangle are left out
    mesh.vert_indicies.push(0);
    mesh.vert_indicies.push(1);
    assert_eq!(create_collider(&mesh).unwrap().len(), 4);
    let mut two = MeshDescription::new();
    two.vert_indicies.push(0);
    two.vert_indicies.push(1);
    assert_eq!(create_collider(&two), None);
}

#[test]
fn normals_follow_the_directions() {
    assert_eq!(true_normal(Direction::Front), v(1, 0, 0));
    assert_eq!(true_normal(Direction::Back), v(-1, 0, 0));
    assert_eq!(true_normal(Direction::Left), v(0, 0, 1));
    assert_eq!(true_normal(Direction::Right), v(0, 0, -1));
    assert_eq!(true_normal(Direction::Top), v(0, 1, 0));
    assert_eq!(true_normal(Direction::Bottom), v(0, -1, 0));
    assert!(Sheet::default().blocks.iter().all(|b| *b == Block::Air));
}

#[test]
fn every_side_has_a_normal_code_of_its_own() {
    let sides = [
        (Direction::Front, 1),
        (Direction::Back, 2),
        (Direction::Top, 3),
        (Direction::Bottom, 4),
        (Direction::Left, 5),
        (Direction::Right, 6),
    ];
    for (direction, code) in sides {
        assert_eq!(coarse_normal_code(true_normal(direction)), [0, code]);
        let mut mesh = MeshDescription::new();
        create_greedy_face(Block::Dirt, direction, 0, 0, 0, 1, 1, &mut mesh);
        assert_eq!(mesh.normals, vec![[0, code]; 4]);
    }
    assert_eq!(coarse_normal_code(v(0, 0, 0)), [0, 0]);
    let solid_codes: Vec<u8> = {
        let mut chunk = Chunk::new();
        for x in 0..16 {
            for y in 0..16 {
                for z in 0..16 {
                    chunk.set_cube(x, y, z, Block::Dirt);
                }
            }
        }
        let mesh = create_chunk_mesh(&chunk, &LoadedChunks::new());
        (0..6).map(|q| mesh.normals[q * 4][1]).collect()
    };
    // back, right, bottom in the first slice; front, left, top in the last
    assert_eq!(solid_codes, vec![2, 6, 4, 1, 5, 3]);
}
