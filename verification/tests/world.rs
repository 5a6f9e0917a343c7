use rustycraft::blocks::block::{Block, FaceDirections};
use rustycraft::blocks::block_type::BlockType;
use rustycraft::chunk::{Chunk, Column};
use rustycraft::utils::BlockPos;
use rustycraft::world::{block_beside, initial_chunk_positions, World, CHUNKS_REGION, LB, UB};
use std::collections::HashSet;

fn empty_chunk(x: i32, y: i32) -> Chunk {
    let blocks: Vec<Column> = (0..256).map(|_| Vec::new()).collect();
    Chunk::from_blocks(x, y, blocks)
}

fn world_with(keys: &[(i32, i32)]) -> World {
    let mut world = World::new(0, vec![0u32; 1024 * 1024]);
    for &(x, y) in keys {
        world.insert_chunk(empty_chunk(x, y));
    }
    world
}

fn keys_of(world: &World) -> HashSet<(i32, i32)> {
    world.chunks.iter().map(|c| (c.x, c.y)).collect()
}

fn window(c: (i32, i32)) -> HashSet<(i32, i32)> {
    let mut s = HashSet::new();
    for x in LB + c.0..=UB + c.0 {
        for y in LB + c.1..=UB + c.1 {
            s.insert((x, y));
        }
    }
    s
}

#[test]
fn insert_replaces_the_chunk_under_the_same_key() {
    let mut world = world_with(&[(0, 0), (1, 0)]);
    let mut c = empty_chunk(1, 0);
    c.visible = false;
    world.insert_chunk(c);
    assert_eq!(world.chunks.len(), 2);
    let i = world.find_chunk((1, 0)).unwrap();
    assert!(!world.chunks[i].visible);
    assert_eq!(world.find_chunk((5, 5)), None);
}

#[test]
fn placed_block_is_found_at_its_absolute_position() {
    let mut world = world_with(&[(0, 0), (-1, 0)]);
    let b = Block::new(BlockPos::new(15, 3, 4), (-1, 0), BlockType::Stone);
    let rerender = world.place_block(b);
    assert_eq!(rerender, vec![(-1, 0), (0, 0)]);
    assert_eq!(world.get_blocks_absolute(&BlockPos::new(-1, 3, 4)), Some(b));
    assert_eq!(world.get_blocks_absolute(&BlockPos::new(-1, 2, 4)), None);
    let i = world.find_chunk((-1, 0)).unwrap();
    assert!(world.chunks[i].modified);
    // A position in a chunk that is not loaded holds nothing.
    assert_eq!(world.get_blocks_absolute(&BlockPos::new(100, 3, 4)), None);
}

#[test]
fn removed_block_leaves_air_or_water() {
    let mut world = world_with(&[(0, 0)]);
    let b = Block::new(BlockPos::new(5, 1, 5), (0, 0), BlockType::Dirt);
    world.place_block(b);
    let rerender = world.remove_block(b);
    assert_eq!(rerender, vec![(0, 0)]);
    assert_eq!(world.get_blocks_absolute(&BlockPos::new(5, 1, 5)), None);

    let water = Block::new(BlockPos::new(6, 1, 5), (0, 0), BlockType::Water);
    world.place_block(b);
    world.place_block(water);
    world.remove_block(b);
    let refilled = world.get_blocks_absolute(&BlockPos::new(5, 1, 5)).unwrap();
    assert_eq!(refilled.block_type, BlockType::Water);
    assert_eq!(refilled.position, b.position);
}

#[test]
fn nearby_blocks_are_the_cube_around_the_player() {
    let mut world = world_with(&[(0, 0), (-1, 0), (0, -1), (-1, -1)]);
    let near = Block::new(BlockPos::new(3, 5, 3), (0, 0), BlockType::Stone);
    let far = Block::new(BlockPos::new(10, 5, 3), (0, 0), BlockType::Stone);
    let other_chunk = Block::new(BlockPos::new(14, 4, 15), (-1, -1), BlockType::Sand);
    world.place_block(near);
    world.place_block(far);
    world.place_block(other_chunk);
    let found = world.get_blocks_nearby(&BlockPos::new(1, 5, 1));
    assert_eq!(found, vec![other_chunk, near]);
}

#[test]
fn outside_blocks_go_to_their_chunks() {
    let mut world = world_with(&[(0, 0), (1, 0)]);
    let leaf = Block::new(BlockPos::new(0, 8, 8), (1, 0), BlockType::Leaf);
    let lost = Block::new(BlockPos::new(0, 8, 8), (9, 9), BlockType::Leaf);
    let i = world.find_chunk((0, 0)).unwrap();
    world.chunks[i].outside_blocks.push(leaf);
    world.chunks[i].outside_blocks.push(lost);
    world.handle_outside_blocks();
    assert_eq!(world.get_blocks_absolute(&BlockPos::new(16, 8, 8)), Some(leaf));
    assert!(world.chunks.iter().all(|c| c.outside_blocks.is_empty()));
    let j = world.find_chunk((1, 0)).unwrap();
    assert!(!world.chunks[j].modified);
}

#[test]
fn initial_chunks_are_the_square_around_the_player() {
    let positions = initial_chunk_positions((3, -2));
    assert_eq!(positions.len() as u32, CHUNKS_REGION);
    assert_eq!(positions[0], (-7, -12));
    assert_eq!(positions[1], (-7, -11));
    assert_eq!(positions[399], (12, 7));
    let set: HashSet<(i32, i32)> = positions.iter().cloned().collect();
    assert_eq!(set, window((3, -2)));
}

fn step(world: &mut World, from: (i32, i32), to: (i32, i32)) {
    let plan = world.chunk_update(from, to);
    world.unload_chunks(&plan.keys_to_remove);
    for &(x, y) in plan.new_chunks.iter() {
        world.insert_chunk(empty_chunk(x, y));
    }
}

#[test]
fn streaming_keeps_the_square_around_the_player() {
    let start: Vec<(i32, i32)> = initial_chunk_positions((0, 0));
    let mut world = world_with(&start);
    let moves = [(1, 0), (1, 1), (1, 1), (0, 0), (-1, 0), (-1, -1), (-1, -2), (-1, -2), (0, -2)];
    let mut at = (0, 0);
    for &to in moves.iter() {
        step(&mut world, at, to);
        at = to;
        assert_eq!(keys_of(&world), window(at));
        assert_eq!(world.chunks.len(), 400);
    }
}

#[test]
fn a_forward_step_loads_a_column_and_drops_one() {
    let start: Vec<(i32, i32)> = initial_chunk_positions((0, 0));
    let world = world_with(&start);
    let plan = world.chunk_update((0, 0), (1, 0));
    assert_eq!(plan.new_chunks.len(), 20);
    assert!(plan.new_chunks.iter().all(|&(x, _)| x == 10));
    assert_eq!(plan.keys_to_remove.len(), 20);
    assert!(plan.keys_to_remove.iter().all(|&(x, _)| x == -10));
    let none = world.chunk_update((4, 4), (4, 4));
    assert!(none.new_chunks.is_empty() && none.keys_to_remove.is_empty());
}

#[test]
fn a_diagonal_step_across_axes_breaks_the_square() {
    // Moving forward along x and backward along z loads the wrong row.
    let start: Vec<(i32, i32)> = initial_chunk_positions((0, 0));
    let mut world = world_with(&start);
    step(&mut world, (0, 0), (1, -1));
    assert_ne!(keys_of(&world), window((1, -1)));
}

#[test]
fn building_on_a_face_places_the_neighbour_block() {
    let b = Block::new(BlockPos::new(15, 4, 2), (0, 0), BlockType::Stone);
    let placed = block_beside(&b, FaceDirections::Right, BlockType::Dirt);
    assert_eq!(placed.absolute_position, BlockPos::new(16, 4, 2));
    assert_eq!(placed.position, BlockPos::new(0, 4, 2));
    assert_eq!(placed.get_chunk_coords(), (1, 0));
    assert_eq!(placed.block_type, BlockType::Dirt);
    let ground = Block::new(BlockPos::new(1, 0, 1), (0, 0), BlockType::Stone);
    let below = block_beside(&ground, FaceDirections::Bottom, BlockType::Dirt);
    assert_eq!(below.position, BlockPos::new(1, 0, 1));
}
