use rustycraft::blocks::block::Block;
use rustycraft::blocks::block_type::BlockType;
use rustycraft::utils::{floor_div_chunk, floor_mod_chunk, BlockPos, ChunkFromPosition, RelativeFromAbsolute};

#[test]
fn should_get_the_correct_chunk_from_position_absolute() {
    let absolute_position = BlockPos::new(17, 0, 20);
    assert_eq!(absolute_position.get_chunk_from_position_absolute(), (1, 1));
    let absolute_position = BlockPos::new(32, 0, 20);
    assert_eq!(absolute_position.get_chunk_from_position_absolute(), (2, 1));
    let absolute_position = BlockPos::new(-5, 0, -20);
    assert_eq!(absolute_position.get_chunk_from_position_absolute(), (-1, -2));
}

#[test]
fn should_get_the_correct_relative_position() {
    let absolute_position = BlockPos::new(17, 0, 20);
    assert_eq!(absolute_position.relative_from_absolute(), BlockPos::new(1, 0, 4));
    let absolute_position = BlockPos::new(-1, 0, -1);
    assert_eq!(absolute_position.relative_from_absolute(), BlockPos::new(15, 0, 15));
}

#[test]
fn relative_position_clamps_height_to_ground() {
    assert_eq!(BlockPos::new(3, -4, 5).relative_from_absolute(), BlockPos::new(3, 0, 5));
}

#[test]
fn floor_division_rounds_down() {
    assert_eq!(floor_div_chunk(0), 0);
    assert_eq!(floor_div_chunk(15), 0);
    assert_eq!(floor_div_chunk(16), 1);
    assert_eq!(floor_div_chunk(-1), -1);
    assert_eq!(floor_div_chunk(-16), -1);
    assert_eq!(floor_div_chunk(-17), -2);
    assert_eq!(floor_div_chunk(i32::MIN), -134217728);
    assert_eq!(floor_div_chunk(i32::MAX), 134217727);
    assert_eq!(floor_mod_chunk(-17), 15);
    assert_eq!(floor_mod_chunk(33), 1);
}

#[test]
fn chunk_and_relative_rebuild_the_position() {
    for x in -40..40 {
        let p = BlockPos::new(x, 7, -x);
        let (cx, cz) = p.get_chunk_from_position_absolute();
        let r = p.relative_from_absolute();
        assert_eq!(cx * 16 + r.x, x);
        assert_eq!(cz * 16 + r.z, -x);
        assert_eq!(r.y, 7);
    }
}

#[test]
fn new_block_lies_in_its_chunk() {
    let b = Block::new(BlockPos::new(3, 10, 15), (-2, 5), BlockType::Stone);
    assert_eq!(b.absolute_position, BlockPos::new(-29, 10, 95));
    assert_eq!(b.get_chunk_coords(), (-2, 5));
    assert_eq!(b.absolute_position.relative_from_absolute(), b.position);
}

#[test]
fn neighbour_chunks_of_border_blocks() {
    let corner = Block::new(BlockPos::new(15, 1, 0), (0, 0), BlockType::Dirt);
    assert_eq!(corner.get_neighbour_chunks_coords(), vec![(1, 0), (0, -1)]);
    assert!(corner.is_on_chunk_border());
    let other = Block::new(BlockPos::new(0, 1, 15), (3, 3), BlockType::Dirt);
    assert_eq!(other.get_neighbour_chunks_coords(), vec![(2, 3), (3, 4)]);
    let inner = Block::new(BlockPos::new(7, 1, 7), (0, 0), BlockType::Dirt);
    assert!(inner.get_neighbour_chunks_coords().is_empty());
    assert!(!inner.is_on_chunk_border());
}
