use rustycraft::blocks::block::{Block, FaceDirections};
use rustycraft::blocks::block_type::BlockType;
use rustycraft::chunk::{Chunk, Column};
use rustycraft::effects::{calc_vertex_ao, from_vertex_position};
use rustycraft::utils::BlockPos;
use rustycraft::world::World;

fn empty_chunk(x: i32, y: i32) -> Chunk {
    let blocks: Vec<Column> = (0..256).map(|_| Vec::new()).collect();
    Chunk::from_blocks(x, y, blocks)
}

fn world_with_blocks(blocks: &[Block]) -> World {
    let mut world = World::new(0, vec![0u32; 1024 * 1024]);
    world.insert_chunk(empty_chunk(0, 0));
    for b in blocks {
        world.place_block(*b);
    }
    world
}

#[test]
fn vertex_ao_levels() {
    assert_eq!(calc_vertex_ao(true, true, false), 0);
    assert_eq!(calc_vertex_ao(true, true, true), 0);
    assert_eq!(calc_vertex_ao(true, false, true), 1);
    assert_eq!(calc_vertex_ao(false, false, true), 2);
    assert_eq!(calc_vertex_ao(false, false, false), 3);
}

#[test]
fn ao_from_blocks_around_a_vertex() {
    let stone = Block::new(BlockPos::new(5, 1, 4), (0, 0), BlockType::Stone);
    let water = Block::new(BlockPos::new(4, 1, 5), (0, 0), BlockType::Water);
    let world = world_with_blocks(&[stone, water]);
    let listed = vec![(0, 0)];
    // Side one (5, 1, 4) is stone; side two (4, 1, 5) is water, which does not shade.
    assert_eq!(from_vertex_position(&world, &listed, &BlockPos::new(5, 1, 5)), 2);
    // Chunks that are not listed are not looked at.
    assert_eq!(from_vertex_position(&world, &vec![], &BlockPos::new(5, 1, 5)), 3);
}

#[test]
fn face_data_of_a_single_block() {
    let b = Block::new(BlockPos::new(5, 0, 5), (0, 0), BlockType::Dirt);
    let world = world_with_blocks(&[b]);
    let (vertices, indices) = FaceDirections::Back.create_face_data(&b, &world, &vec![(0, 0)]);
    assert_eq!(indices, vec![0, 1, 2, 0, 2, 3]);
    let corners: Vec<u32> = vertices.iter().map(|v| v.corner).collect();
    assert_eq!(corners, vec![7, 6, 5, 4]);
    let aos: Vec<u8> = vertices.iter().map(|v| v.ao).collect();
    assert_eq!(aos, vec![3, 3, 3, 2]);
    let tex: Vec<u32> = vertices.iter().map(|v| v.tex_corner).collect();
    assert_eq!(tex, vec![0, 1, 2, 3]);
    assert!(vertices.iter().all(|v| v.position == b.position && v.face == FaceDirections::Back));
}

#[test]
fn mesh_of_a_lonely_block_skips_the_ground_face() {
    let b = Block::new(BlockPos::new(5, 0, 5), (0, 0), BlockType::Dirt);
    let world = world_with_blocks(&[b]);
    let i = world.find_chunk((0, 0)).unwrap();
    let mesh = world.chunks[i].build_mesh(&world);
    assert_eq!(mesh.vertices.len(), 20);
    assert_eq!(mesh.indices.len(), 30);
    assert_eq!(&mesh.indices[6..12], &[4, 5, 6, 4, 6, 7]);
    let faces: Vec<FaceDirections> = mesh.vertices.iter().step_by(4).map(|v| v.face).collect();
    assert_eq!(
        faces,
        vec![
            FaceDirections::Back,
            FaceDirections::Top,
            FaceDirections::Front,
            FaceDirections::Left,
            FaceDirections::Right,
        ]
    );
    assert!(mesh.water_vertices.is_empty() && mesh.water_indices.is_empty());
}

#[test]
fn touching_blocks_hide_their_shared_faces() {
    let a = Block::new(BlockPos::new(5, 0, 5), (0, 0), BlockType::Dirt);
    let b = Block::new(BlockPos::new(6, 0, 5), (0, 0), BlockType::Dirt);
    let world = world_with_blocks(&[a, b]);
    let i = world.find_chunk((0, 0)).unwrap();
    let mesh = world.chunks[i].build_mesh(&world);
    // Each block shows Back, Top and Front, and one of Left / Right.
    assert_eq!(mesh.vertices.len(), 4 * 8);
}

#[test]
fn water_shows_its_top_and_the_faces_behind_it() {
    let water = Block::new(BlockPos::new(5, 0, 5), (0, 0), BlockType::Water);
    let dirt = Block::new(BlockPos::new(6, 0, 5), (0, 0), BlockType::Dirt);
    let world = world_with_blocks(&[water, dirt]);
    let i = world.find_chunk((0, 0)).unwrap();
    let mesh = world.chunks[i].build_mesh(&world);
    assert_eq!(mesh.water_vertices.len(), 4);
    assert_eq!(mesh.water_vertices[0].face, FaceDirections::Top);
    assert_eq!(mesh.water_indices, vec![0, 1, 2, 0, 2, 3]);
    // The dirt block's Left face looks at water and is drawn.
    assert_eq!(mesh.vertices.len(), 4 * 5);
}

#[test]
fn border_faces_look_at_unloaded_terrain_height() {
    let b = Block::new(BlockPos::new(0, 0, 7), (0, 0), BlockType::Stone);
    let world = world_with_blocks(&[b]);
    let i = world.find_chunk((0, 0)).unwrap();
    let mesh = world.chunks[i].build_mesh(&world);
    // The Left face borders chunk (-1, 0), not loaded, whose terrain reaches height 0.
    let faces: Vec<FaceDirections> = mesh.vertices.iter().step_by(4).map(|v| v.face).collect();
    assert!(!faces.contains(&FaceDirections::Left));
    assert_eq!(faces.len(), 4);
}
