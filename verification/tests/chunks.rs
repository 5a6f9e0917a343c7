use rustycraft::blocks::block::Block;
use rustycraft::blocks::block_type::BlockType;
use rustycraft::chunk::{Chunk, Column};
use rustycraft::utils::BlockPos;

fn empty_chunk(x: i32, y: i32) -> Chunk {
    let blocks: Vec<Column> = (0..256).map(|_| Vec::new()).collect();
    Chunk::from_blocks(x, y, blocks)
}

#[test]
fn add_then_read_back() {
    let mut chunk = empty_chunk(1, 2);
    let b = Block::new(BlockPos::new(3, 4, 5), (1, 2), BlockType::Wood);
    chunk.add_block(b, false);
    assert!(!chunk.modified);
    assert_eq!(chunk.get_block_at_relative(&BlockPos::new(3, 4, 5)), Some(b));
    assert!(chunk.exists_block_at(&BlockPos::new(3, 4, 5)));
    assert_eq!(chunk.block_type_at(&BlockPos::new(3, 4, 5)), Some(BlockType::Wood));
    // The column grew with empty cells below the block.
    assert_eq!(chunk.blocks[3 * 16 + 5].len(), 5);
    assert!(!chunk.exists_block_at(&BlockPos::new(3, 2, 5)));
    assert_eq!(chunk.get_block_at_relative(&BlockPos::new(3, 9, 5)), None);
    chunk.add_block(b, true);
    assert!(chunk.modified);
}

#[test]
fn remove_empties_the_cell() {
    let mut chunk = empty_chunk(0, 0);
    let b = Block::new(BlockPos::new(0, 0, 0), (0, 0), BlockType::Dirt);
    chunk.add_block(b, false);
    chunk.remove_block(&BlockPos::new(0, 0, 0));
    assert!(chunk.modified);
    assert!(!chunk.exists_block_at(&BlockPos::new(0, 0, 0)));
    assert_eq!(chunk.blocks[0].len(), 1);
}

#[test]
fn lookups_cast_negative_coordinates_to_zero() {
    let mut chunk = empty_chunk(0, 0);
    let b = Block::new(BlockPos::new(0, 0, 2), (0, 0), BlockType::Sand);
    chunk.add_block(b, false);
    // exists_block_at casts each coordinate: (-1, 0, 2) reads column 0 * 16 + 2.
    assert!(chunk.exists_block_at(&BlockPos::new(-1, -3, 2)));
    // get_block_at_relative casts x * 16 + z: -16 + 2 < 0 reads column 0.
    assert_eq!(chunk.get_block_at_relative(&BlockPos::new(-1, 0, 2)), None);
    // A column index of 256 or more finds nothing.
    assert_eq!(chunk.get_block_at_relative(&BlockPos::new(16, 0, 0)), None);
    assert!(!chunk.exists_block_at(&BlockPos::new(16, 0, 0)));
}

#[test]
fn outside_checks() {
    assert!(Chunk::is_outside_chunk(&BlockPos::new(-1, 0, 3)));
    assert!(Chunk::is_outside_chunk(&BlockPos::new(3, 0, 16)));
    assert!(!Chunk::is_outside_chunk(&BlockPos::new(15, 100, 0)));
    assert!(Chunk::is_outside_bounds(&BlockPos::new(1, -1, 1)));
    assert!(!Chunk::is_outside_bounds(&BlockPos::new(1, 0, 1)));
}

#[test]
fn height_lookup_wraps_negative_coordinates() {
    let mut heights = vec![0u32; 1024 * 1024];
    // chunk (0, 0), column (2, 3): index 3 * 1023 + 2.
    heights[3 * 1023 + 2] = 42;
    assert_eq!(Chunk::get_height_value(0, 0, 2, 3, &heights), 42);
    // chunk (-1, 0), column (0, 0): x = -16 wraps to 1024 - 16 = 1008.
    heights[1008] = 17;
    assert_eq!(Chunk::get_height_value(-1, 0, 0, 0, &heights), 17);
    // chunk (-64, 0), column (0, 0): x = -1024 wraps to 1024 + 0 = 1024.
    heights[1024] = 9;
    assert_eq!(Chunk::get_height_value(-64, 0, 0, 0, &heights), 9);
    // chunk (1, 2), column (4, 5): x = 20, z = 37.
    heights[37 * 1023 + 20] = 3;
    assert_eq!(Chunk::get_height_value(1, 2, 4, 5, &heights), 3);
}

#[test]
fn generated_columns_have_grass_tops_and_water() {
    let heights = vec![3u32; 1024 * 1024];
    let blocks = Chunk::create_blocks_data(0, 0, &heights, |_x: u32, y: u32, _z: u32| {
        if y == 0 {
            BlockType::Sand
        } else {
            BlockType::Dirt
        }
    });
    assert_eq!(blocks.len(), 256);
    let col = &blocks[2 * 16 + 7];
    assert_eq!(col.len(), 6);
    assert_eq!(col[0].unwrap().block_type, BlockType::Sand);
    assert_eq!(col[1].unwrap().block_type, BlockType::Dirt);
    assert_eq!(col[3].unwrap().block_type, BlockType::Grass);
    assert_eq!(col[4].unwrap().block_type, BlockType::Water);
    assert_eq!(col[5].unwrap().block_type, BlockType::Water);
    assert_eq!(col[3].unwrap().position, BlockPos::new(2, 3, 7));

    let tall = vec![8u32; 1024 * 1024];
    let blocks = Chunk::create_blocks_data(2, -1, &tall, |_x: u32, _y: u32, _z: u32| BlockType::Stone);
    let col = &blocks[0];
    assert_eq!(col.len(), 9);
    assert_eq!(col[8].unwrap().block_type, BlockType::Stone);
    assert_eq!(col[8].unwrap().absolute_position, BlockPos::new(32, 8, -16));
}

#[test]
fn tree_anchor_avoids_water_and_leaves() {
    let heights = vec![3u32; 1024 * 1024];
    let blocks = Chunk::create_blocks_data(0, 0, &heights, |_x: u32, _y: u32, _z: u32| BlockType::Dirt);
    let chunk = Chunk::from_blocks(0, 0, blocks);
    // Columns of height 3 are topped with water up to the water level.
    assert_eq!(chunk.tree_anchor(1, 1), None);
    let tall = vec![9u32; 1024 * 1024];
    let blocks = Chunk::create_blocks_data(0, 0, &tall, |_x: u32, _y: u32, _z: u32| BlockType::Dirt);
    let chunk = Chunk::from_blocks(0, 0, blocks);
    assert_eq!(chunk.tree_anchor(1, 2), Some(BlockPos::new(1, 9, 2)));
}

#[test]
fn structure_blocks_split_between_chunks() {
    let mut chunk = empty_chunk(0, 0);
    let inside = Block::new(BlockPos::new(15, 7, 3), (0, 0), BlockType::Leaf);
    let outside = Block::new(BlockPos::new(0, 7, 3), (1, 0), BlockType::Leaf);
    chunk.place_structure_blocks(vec![inside, outside]);
    assert_eq!(chunk.get_block_at_relative(&BlockPos::new(15, 7, 3)), Some(inside));
    assert_eq!(chunk.outside_blocks, vec![outside]);
    assert!(!chunk.modified);
}
