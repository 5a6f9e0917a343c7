use rustycraft::blocks::block::Block;
use rustycraft::blocks::block_type::BlockType;
use rustycraft::chunk::{Chunk, Column};
use rustycraft::persistence::{chunk_file_name, parse_chunk_file_name, LoadError, Loadable, Saveable};
use rustycraft::utils::BlockPos;

fn empty_chunk(x: i32, y: i32) -> Chunk {
    let blocks: Vec<Column> = (0..256).map(|_| Vec::new()).collect();
    Chunk::from_blocks(x, y, blocks)
}

fn bytes(s: &str) -> Vec<u8> {
    s.as_bytes().to_vec()
}

#[test]
fn saved_text_lists_blocks_column_by_column() {
    let mut chunk = empty_chunk(2, -3);
    chunk.add_block(Block::new(BlockPos::new(1, 2, 3), (2, -3), BlockType::Wood), false);
    chunk.add_block(Block::new(BlockPos::new(0, 10, 15), (2, -3), BlockType::Sand), false);
    chunk.add_block(Block::new(BlockPos::new(1, 0, 3), (2, -3), BlockType::Grass), false);
    let text = String::from_utf8(chunk.save()).unwrap();
    assert_eq!(text, "0,10,15,6\n1,0,3,0\n1,2,3,3\n");
}

#[test]
fn saved_chunk_loads_back() {
    let mut chunk = empty_chunk(-4, 7);
    let a = Block::new(BlockPos::new(1, 2, 3), (-4, 7), BlockType::Wood);
    let b = Block::new(BlockPos::new(15, 0, 15), (-4, 7), BlockType::Water);
    chunk.add_block(a, false);
    chunk.add_block(b, false);
    let text = chunk.save();
    let loaded = Chunk::load((-4, 7), &text).unwrap();
    assert_eq!(loaded.len(), 256);
    assert_eq!(loaded[1 * 16 + 3], vec![None, None, Some(a)]);
    assert_eq!(loaded[255], vec![Some(b)]);
    assert!(loaded[0].is_empty());
}

#[test]
fn empty_cells_on_top_are_not_saved() {
    let mut chunk = empty_chunk(0, 0);
    let a = Block::new(BlockPos::new(0, 0, 0), (0, 0), BlockType::Dirt);
    let b = Block::new(BlockPos::new(0, 1, 0), (0, 0), BlockType::Dirt);
    chunk.add_block(a, false);
    chunk.add_block(b, false);
    chunk.remove_block(&BlockPos::new(0, 1, 0));
    let loaded = Chunk::load((0, 0), &chunk.save()).unwrap();
    assert_eq!(loaded[0], vec![Some(a)]);
}

#[test]
fn loading_reads_lines_like_the_text_api() {
    let loaded = Chunk::load((0, 0), &bytes("0,1,2,5\r\n+3,0,0,1")).unwrap();
    assert_eq!(loaded[2][1].unwrap().block_type, BlockType::Stone);
    assert_eq!(loaded[3 * 16][0].unwrap().block_type, BlockType::Dirt);
    assert!(Chunk::load((0, 0), &bytes("")).unwrap().iter().all(|c| c.is_empty()));
    // Fields past the fourth are ignored.
    assert!(Chunk::load((0, 0), &bytes("0,0,0,1,junk\n")).is_ok());
    // The column index is x * 16 + z, even for a z of 16 or more.
    let odd = Chunk::load((0, 0), &bytes("0,0,20,1\n")).unwrap();
    assert_eq!(odd[20][0].unwrap().position, BlockPos::new(0, 0, 20));
}

#[test]
fn load_errors() {
    assert_eq!(Chunk::load((0, 0), &bytes("1,x,2,3\n")).err(), Some(LoadError::ParseInt));
    assert_eq!(Chunk::load((0, 0), &bytes("1,2,3,4\n\n")).err(), Some(LoadError::ParseInt));
    assert_eq!(Chunk::load((0, 0), &bytes("-1,0,0,0\n")).err(), Some(LoadError::ParseInt));
    assert_eq!(Chunk::load((0, 0), &bytes("1\n")).err(), Some(LoadError::MissingField));
    assert_eq!(Chunk::load((0, 0), &bytes("1,2,3,9\n")).err(), Some(LoadError::InvalidId));
    assert_eq!(Chunk::load((0, 0), &bytes("16,0,0,1\n")).err(), Some(LoadError::OutOfBounds));
    assert_eq!(Chunk::load((0, 0), &bytes("4294967296,0,0,1\n")).err(), Some(LoadError::ParseInt));
    // The first bad line decides.
    assert_eq!(Chunk::load((0, 0), &bytes("1,2,3,9\nx\n")).err(), Some(LoadError::InvalidId));
}

#[test]
fn chunk_file_names() {
    assert_eq!(chunk_file_name(3, -12), bytes("chunk3_-12"));
    assert_eq!(parse_chunk_file_name(&bytes("chunk3_-12")), Ok((3, -12)));
    assert_eq!(parse_chunk_file_name(&chunk_file_name(i32::MIN, i32::MAX)), Ok((i32::MIN, i32::MAX)));
    assert_eq!(parse_chunk_file_name(&bytes("player")), Err(LoadError::ParseInt));
    assert_eq!(parse_chunk_file_name(&bytes("chunk5")), Err(LoadError::MissingField));
    assert_eq!(parse_chunk_file_name(&bytes("chunk1_2_3")), Ok((1, 2)));
    assert_eq!(parse_chunk_file_name(&bytes("chunk+1_2")), Ok((1, 2)));
}
