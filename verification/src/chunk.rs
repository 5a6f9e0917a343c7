use vstd::prelude::*;

use crate::blocks::block::{block_at_spec, block_fits, Block};
use crate::blocks::block_type::BlockType;
use crate::utils::{chunk_of, BlockPos};

verus! {

/// One column of a chunk: the cells at heights 0, 1, 2, ...
pub type Column = Vec<Option<Block>>;

/// A square of 16 x 16 columns of blocks. Column `x * 16 + z` holds the
/// blocks whose position inside the chunk is `(x, _, z)`.
pub struct Chunk {
    pub x: i32,
    pub y: i32,
    pub blocks: Vec<Column>,
    pub indices: u32,
    pub water_indices: u32,
    /// Blocks generated with this chunk that belong to a neighbour.
    pub outside_blocks: Vec<Block>,
    pub visible: bool,
    /// Set when the chunk was edited and has to be saved.
    pub modified: bool,
}

/// The columns of a chunk as sequences of cells.
pub open spec fn columns_view(blocks: Seq<Column>) -> Seq<Seq<Option<Block>>> {
    blocks.map_values(|c: Column| c@)
}

/// A float coordinate cast to an unsigned index: negative values become 0.
pub open spec fn sat(v: int) -> int {
    if v < 0 {
        0
    } else {
        v
    }
}

/// The cell at height `y` of column `c`, or nothing where there is no such cell.
pub open spec fn cell(cols: Seq<Seq<Option<Block>>>, c: int, y: int) -> Option<Block> {
    if 0 <= c < cols.len() && 0 <= y < cols[c].len() {
        cols[c][y]
    } else {
        None
    }
}

/// The column that `get_block_at_relative`, `add_block` and `remove_block`
/// use for a position: `x * 16 + z`, computed in floating point and then cast.
pub open spec fn column_of(p: BlockPos) -> int {
    sat(p.x * 16 + p.z)
}

/// The column that `exists_block_at` uses: each coordinate is cast first.
pub open spec fn column_of_unsigned(p: BlockPos) -> int {
    sat(p.x as int) * 16 + sat(p.z as int)
}

/// The block that `get_block_at_relative` finds at a position.
pub open spec fn block_at_relative(cols: Seq<Seq<Option<Block>>>, p: BlockPos) -> Option<Block> {
    cell(cols, column_of(p), sat(p.y as int))
}

/// Whether `exists_block_at` finds a block at a position.
pub open spec fn exists_at(cols: Seq<Seq<Option<Block>>>, p: BlockPos) -> bool {
    cell(cols, column_of_unsigned(p), sat(p.y as int)) is Some
}

/// A column after writing `b` at height `y`, growing it with empty cells first
/// where it is too short.
pub open spec fn put_cell(col: Seq<Option<Block>>, y: int, b: Option<Block>) -> Seq<Option<Block>> {
    let grown = if y >= col.len() {
        col + Seq::new((y + 1 - col.len()) as nat, |i: int| None::<Block>)
    } else {
        col
    };
    grown.update(y, b)
}

/// The columns after `add_block` writes `b` at its own position.
pub open spec fn with_block(cols: Seq<Seq<Option<Block>>>, b: Block) -> Seq<Seq<Option<Block>>> {
    let c = column_of(b.position);
    cols.update(c, put_cell(cols[c], sat(b.position.y as int), Some(b)))
}

/// The columns after `remove_block` empties the cell at `p`.
pub open spec fn without_block(cols: Seq<Seq<Option<Block>>>, p: BlockPos) -> Seq<Seq<Option<Block>>> {
    let c = column_of(p);
    cols.update(c, cols[c].update(sat(p.y as int), None))
}

/// A position lies outside the chunk's 16 x 16 square.
pub open spec fn outside_chunk(p: BlockPos) -> bool {
    p.x < 0 || p.x >= 16 || p.z < 0 || p.z >= 16
}

/// The position of the cell at height `y` of column `c`.
pub open spec fn cell_position(c: int, y: int) -> BlockPos {
    BlockPos { x: (c / 16) as i32, y: y as i32, z: (c % 16) as i32 }
}

/// The columns of the chunk under `key` once the blocks of that chunk among
/// `blocks` have been written, in order.
pub open spec fn deliver(cols: Seq<Seq<Option<Block>>>, key: (int, int), blocks: Seq<Block>) -> Seq<Seq<Option<Block>>>
    decreases blocks.len(),
{
    if blocks.len() == 0 {
        cols
    } else {
        let prev = deliver(cols, key, blocks.drop_last());
        if chunk_of(blocks.last().absolute_position) == key {
            with_block(prev, blocks.last())
        } else {
            prev
        }
    }
}

/// Rust's `%` on integers: the remainder takes the sign of the dividend.
pub open spec fn trunc_rem(a: int, m: int) -> int {
    if a >= 0 {
        a % m
    } else {
        -((-a) % m)
    }
}

/// Coordinate in the noise map of coordinate `v` of chunk `chunk`: negative
/// coordinates wrap around the map.
pub open spec fn noise_coord(chunk: int, v: u32) -> int {
    let w = chunk * 16 + trunc_rem((v as i32) as int, 1024);
    if w < 0 {
        1024 + trunc_rem(w, 1024)
    } else {
        w
    }
}

/// Cell of the noise map that gives the terrain height of column `(x, z)` of
/// chunk `(chunk_x, chunk_y)`.
pub open spec fn noise_index(chunk_x: int, chunk_y: int, x: u32, z: u32) -> int {
    noise_coord(chunk_y, z) * 1023 + noise_coord(chunk_x, x)
}

/// `get_height_value` stays in range of `i32` and inside the noise map.
pub open spec fn height_lookup_ok(chunk_x: int, chunk_y: int, x: u32, z: u32, len: int) -> bool {
    &&& i32::MIN <= chunk_x * 16 <= i32::MAX
    &&& i32::MIN <= chunk_y * 16 <= i32::MAX
    &&& i32::MIN <= chunk_x * 16 + trunc_rem((x as i32) as int, 1024) <= i32::MAX
    &&& i32::MIN <= chunk_y * 16 + trunc_rem((z as i32) as int, 1024) <= i32::MAX
    &&& noise_index(chunk_x, chunk_y, x, z) <= i32::MAX
    &&& noise_index(chunk_x, chunk_y, x, z) < len
}

/// Every column of the chunk can look its height up.
pub open spec fn terrain_ready(chunk_x: int, chunk_y: int, len: int) -> bool {
    forall|x: u32, z: u32| x < 16 && z < 16 ==> #[trigger] height_lookup_ok(chunk_x, chunk_y, x, z, len)
}

/// Terrain height of column `(x, z)` of a chunk.
pub open spec fn height_at(heights: Seq<u32>, chunk_x: int, chunk_y: int, x: u32, z: u32) -> u32 {
    heights[noise_index(chunk_x, chunk_y, x, z)]
}

/// The top block of a column turns dirt into grass.
pub open spec fn surface_type(raw: BlockType, top: bool) -> BlockType {
    if raw == BlockType::Dirt && top {
        BlockType::Grass
    } else {
        raw
    }
}

/// Column `c` of a generated chunk: terrain blocks from the ground up to the
/// column's height, their kinds given by `kind` (grass on a dirt top), then
/// water up to the water level.
pub open spec fn generated_column<F: Fn(u32, u32, u32) -> BlockType>(
    col: Seq<Option<Block>>,
    chunk: (i32, i32),
    c: int,
    h: u32,
    kind: F,
) -> bool {
    &&& col.len() == if h + 1 > 6 { h + 1 } else { 6 }
    &&& forall|y: int| 0 <= y < col.len() ==> {
        &&& #[trigger] col[y] is Some
        &&& col[y]->0.position == cell_position(c, y)
        &&& col[y]->0 == block_at_spec(cell_position(c, y), chunk, col[y]->0.block_type)
        &&& y <= h ==> exists|raw: BlockType| #[trigger] call_ensures(kind, ((c / 16) as u32, y as u32, (c % 16) as u32), raw)
            && col[y]->0.block_type == surface_type(raw, y == h)
        &&& y > h ==> col[y]->0.block_type == BlockType::Water
    }
}

impl Chunk {
    pub open spec fn columns(&self) -> Seq<Seq<Option<Block>>> {
        columns_view(self.blocks@)
    }

    /// The chunk has its 256 columns.
    pub open spec fn wf(&self) -> bool {
        self.blocks@.len() == 256
    }

    /// Every block stands in the cell of its own position, and its absolute
    /// position is that cell's place in the world.
    pub open spec fn consistent(&self) -> bool {
        &&& self.wf()
        &&& forall|c: int, y: int|
            0 <= c < 256 && 0 <= y < self.columns()[c].len() && #[trigger] self.columns()[c][y] is Some
                ==> {
                let b = self.columns()[c][y]->0;
                &&& y <= i32::MAX
                &&& block_fits(cell_position(c, y), (self.x, self.y))
                &&& b == block_at_spec(cell_position(c, y), (self.x, self.y), b.block_type)
            }
    }

    /// A chunk at `(x, y)` holding the given columns and nothing else.
    pub fn from_blocks(x: i32, y: i32, blocks: Vec<Column>) -> (r: Chunk)
        ensures
            r.x == x,
            r.y == y,
            r.blocks@ == blocks@,
            r.indices == 0,
            r.water_indices == 0,
            r.outside_blocks@ == Seq::<Block>::empty(),
            r.visible,
            !r.modified,
    {
        Chunk {
            x,
            y,
            blocks,
            indices: 0,
            water_indices: 0,
            outside_blocks: Vec::new(),
            visible: true,
            modified: false,
        }
    }

    /// Writes `block` at its own position in this chunk; the chunk is marked
    /// as modified when `modify_status` is set.
    pub fn add_block(&mut self, block: Block, modify_status: bool)
        requires
            column_of(block.position) < old(self).blocks@.len(),
        ensures
            final(self).columns() == with_block(old(self).columns(), block),
            final(self).blocks@.len() == old(self).blocks@.len(),
            final(self).modified == (old(self).modified || modify_status),
            final(self).x == old(self).x,
            final(self).y == old(self).y,
            final(self).outside_blocks == old(self).outside_blocks,
            final(self).indices == old(self).indices,
            final(self).water_indices == old(self).water_indices,
            final(self).visible == old(self).visible,
    {
        let p = block.position;
        let c = column_index(&p, self.blocks.len());
        let y: usize = if p.y < 0 { 0 } else { p.y as usize };
        let ghost old_cols = self.columns();
        let mut col: Column = Vec::new();
        std::mem::swap(&mut col, &mut self.blocks[c]);
        let ghost old_col = col@;
        if y >= col.len() {
            col.resize(y + 1, None);
            assert(col@ =~= old_col + Seq::new((y + 1 - old_col.len()) as nat, |i: int| None::<Block>));
        }
        col.set(y, Some(block));
        self.blocks.set(c, col);
        assert(self.columns() =~= with_block(old_cols, block));
        if modify_status {
            self.modified = true;
        }
    }

    /// Empties the cell at the given position of this chunk and marks the
    /// chunk as modified.
    pub fn remove_block(&mut self, block_r_position: &BlockPos)
        requires
            column_of(*block_r_position) < old(self).blocks@.len(),
            sat(block_r_position.y as int) < old(self).columns()[column_of(*block_r_position)].len(),
        ensures
            final(self).columns() == without_block(old(self).columns(), *block_r_position),
            final(self).blocks@.len() == old(self).blocks@.len(),
            final(self).modified,
            final(self).x == old(self).x,
            final(self).y == old(self).y,
            final(self).outside_blocks == old(self).outside_blocks,
            final(self).indices == old(self).indices,
            final(self).water_indices == old(self).water_indices,
            final(self).visible == old(self).visible,
    {
        let p = *block_r_position;
        let c = column_index(&p, self.blocks.len());
        let y: usize = if p.y < 0 { 0 } else { p.y as usize };
        let ghost old_cols = self.columns();
        let mut col: Column = Vec::new();
        std::mem::swap(&mut col, &mut self.blocks[c]);
        col.set(y, None);
        self.blocks.set(c, col);
        assert(self.columns() =~= without_block(old_cols, p));
        self.modified = true;
    }

    /// The kind of the block at a position inside this chunk, if any.
    pub fn block_type_at(&self, position: &BlockPos) -> (r: Option<BlockType>)
        ensures
            r == (match block_at_relative(self.columns(), *position) {
                Some(b) => Some(b.block_type),
                None => None,
            }),
    {
        match self.get_block_at_relative(position) {
            Some(b) => Some(b.block_type),
            None => None,
        }
    }

    pub fn exists_block_at(&self, position: &BlockPos) -> (r: bool)
        requires
            column_of_unsigned(*position) <= u32::MAX,
        ensures
            r == exists_at(self.columns(), *position),
    {
        let x: u32 = if position.x < 0 { 0 } else { position.x as u32 };
        let z: u32 = if position.z < 0 { 0 } else { position.z as u32 };
        let c: u32 = x * 16 + z;
        let y: usize = if position.y < 0 { 0 } else { position.y as usize };
        if (c as usize) < self.blocks.len() {
            let col = &self.blocks[c as usize];
            if y < col.len() {
                return col[y].is_some();
            }
        }
        false
    }

    pub fn get_block_at_relative(&self, position: &BlockPos) -> (r: Option<Block>)
        ensures
            r == block_at_relative(self.columns(), *position),
    {
        let c: i64 = position.x as i64 * 16 + position.z as i64;
        let y: usize = if position.y < 0 { 0 } else { position.y as usize };
        let c: u64 = if c < 0 { 0 } else { c as u64 };
        if c < self.blocks.len() as u64 {
            let col = &self.blocks[c as usize];
            if y < col.len() {
                return col[y];
            }
        }
        None
    }

    pub fn is_outside_chunk(position: &BlockPos) -> (r: bool)
        ensures
            r == outside_chunk(*position),
    {
        position.x < 0 || position.x >= 16 || position.z < 0 || position.z >= 16
    }

    pub fn is_outside_bounds(position: &BlockPos) -> (r: bool)
        ensures
            r == (position.y < 0),
    {
        position.y < 0
    }

    /// Terrain height of column `(x, z)` of chunk `(chunk_x, chunk_y)`.
    pub fn get_height_value(chunk_x: i32, chunk_y: i32, x: u32, z: u32, heights: &Vec<u32>) -> (r: u32)
        requires
            height_lookup_ok(chunk_x as int, chunk_y as int, x, z, heights@.len() as int),
        ensures
            r == height_at(heights@, chunk_x as int, chunk_y as int, x, z),
    {
        let xc = noise_coordinate(chunk_x, x);
        let zc = noise_coordinate(chunk_y, z);
        let index: i64 = zc * 1023 + xc;
        heights[index as usize]
    }

    /// The columns of a newly generated chunk. `kind` gives the kind of the
    /// terrain block at each position of the chunk.
    pub fn create_blocks_data<F: Fn(u32, u32, u32) -> BlockType>(
        chunk_x: i32,
        chunk_y: i32,
        heights: &Vec<u32>,
        kind: F,
    ) -> (r: Vec<Column>)
        requires
            terrain_ready(chunk_x as int, chunk_y as int, heights@.len() as int),
            forall|x: u32, z: u32| x < 16 && z < 16 ==> #[trigger] height_at(heights@, chunk_x as int, chunk_y as int, x, z) < i32::MAX,
            i32::MIN <= chunk_x * 16 && chunk_x * 16 + 15 <= i32::MAX,
            i32::MIN <= chunk_y * 16 && chunk_y * 16 + 15 <= i32::MAX,
            forall|x: u32, y: u32, z: u32| #[trigger] call_requires(kind, (x, y, z)),
        ensures
            r@.len() == 256,
            forall|c: int| 0 <= c < 256 ==> generated_column(
                #[trigger] r@[c]@,
                (chunk_x, chunk_y),
                c,
                height_at(heights@, chunk_x as int, chunk_y as int, (c / 16) as u32, (c % 16) as u32),
                kind,
            ),
    {
        let mut blocks: Vec<Column> = Vec::new();
        let mut x: u32 = 0;
        while x < 16
            invariant
                x <= 16,
                blocks@.len() == x * 16,
                terrain_ready(chunk_x as int, chunk_y as int, heights@.len() as int),
                forall|x: u32, z: u32| x < 16 && z < 16 ==> #[trigger] height_at(heights@, chunk_x as int, chunk_y as int, x, z) < i32::MAX,
                i32::MIN <= chunk_x * 16 && chunk_x * 16 + 15 <= i32::MAX,
                i32::MIN <= chunk_y * 16 && chunk_y * 16 + 15 <= i32::MAX,
                forall|x: u32, y: u32, z: u32| #[trigger] call_requires(kind, (x, y, z)),
                forall|c: int| 0 <= c < blocks@.len() ==> generated_column(
                    #[trigger] blocks@[c]@,
                    (chunk_x, chunk_y),
                    c,
                    height_at(heights@, chunk_x as int, chunk_y as int, (c / 16) as u32, (c % 16) as u32),
                    kind,
                ),
            decreases 16 - x,
        {
            let mut z: u32 = 0;
            while z < 16
                invariant
                    x < 16,
                    z <= 16,
                    blocks@.len() == x * 16 + z,
                    terrain_ready(chunk_x as int, chunk_y as int, heights@.len() as int),
                    forall|x: u32, z: u32| x < 16 && z < 16 ==> #[trigger] height_at(heights@, chunk_x as int, chunk_y as int, x, z) < i32::MAX,
                    i32::MIN <= chunk_x * 16 && chunk_x * 16 + 15 <= i32::MAX,
                    i32::MIN <= chunk_y * 16 && chunk_y * 16 + 15 <= i32::MAX,
                    forall|x: u32, y: u32, z: u32| #[trigger] call_requires(kind, (x, y, z)),
                    forall|c: int| 0 <= c < blocks@.len() ==> generated_column(
                        #[trigger] blocks@[c]@,
                        (chunk_x, chunk_y),
                        c,
                        height_at(heights@, chunk_x as int, chunk_y as int, (c / 16) as u32, (c % 16) as u32),
                        kind,
                    ),
                decreases 16 - z,
            {
                assert(height_lookup_ok(chunk_x as int, chunk_y as int, x, z, heights@.len() as int));
                let y_top = Chunk::get_height_value(chunk_x, chunk_y, x, z, heights);
                assert(y_top < i32::MAX);
                let col = generate_column(chunk_x, chunk_y, x, z, y_top, &kind);
                proof {
                    let c = (x * 16 + z) as int;
                    assert(c / 16 == x && c % 16 == z) by (nonlinear_arith)
                        requires
                            c == x * 16 + z,
                            0 <= z < 16,
                            0 <= x,
                    ;
                }
                blocks.push(col);
                z += 1;
            }
            x += 1;
        }
        blocks
    }

    /// Absolute position of the top block of column `(x, z)`, where a tree may
    /// grow: not on water, not on leaves.
    pub fn tree_anchor(&self, x: usize, z: usize) -> (r: Option<BlockPos>)
        requires
            x * 16 + z < self.blocks@.len(),
            self.columns()[x * 16 + z].len() > 0,
            self.columns()[x * 16 + z].last() is Some,
        ensures
            ({
                let top = self.columns()[x * 16 + z].last()->0;
                r == if top.block_type == BlockType::Water || top.block_type == BlockType::Leaf {
                    None
                } else {
                    Some(top.absolute_position)
                }
            }),
    {
        let len = self.blocks.len();
        assert(x * 16 + z < len);
        let col = &self.blocks[x * 16 + z];
        let top = col[col.len() - 1].unwrap();
        if top.block_type == BlockType::Water || top.block_type == BlockType::Leaf {
            None
        } else {
            Some(top.absolute_position)
        }
    }

    /// Places the blocks of a structure grown from this chunk: those inside
    /// the chunk are written into it, the others are kept aside for their own
    /// chunks.
    pub fn place_structure_blocks(&mut self, blocks: Vec<Block>)
        requires
            forall|i: int| 0 <= i < blocks@.len() && chunk_of((#[trigger] blocks@[i]).absolute_position) == (old(self).x as int, old(self).y as int)
                ==> column_of(blocks@[i].position) < old(self).blocks@.len(),
        ensures
            final(self).columns() == deliver(old(self).columns(), (old(self).x as int, old(self).y as int), blocks@),
            final(self).blocks@.len() == old(self).blocks@.len(),
            final(self).outside_blocks@ == old(self).outside_blocks@ + blocks@.filter(
                |b: Block| chunk_of(b.absolute_position) != (old(self).x as int, old(self).y as int),
            ),
            final(self).modified == old(self).modified,
            final(self).x == old(self).x,
            final(self).y == old(self).y,
            final(self).indices == old(self).indices,
            final(self).water_indices == old(self).water_indices,
            final(self).visible == old(self).visible,
    {
        let ghost key = (self.x as int, self.y as int);
        let ghost pred = |b: Block| chunk_of(b.absolute_position) != key;
        let ghost cols0 = self.columns();
        let ghost outside0 = self.outside_blocks@;
        let mut n: usize = 0;
        while n < blocks.len()
            invariant
                n <= blocks@.len(),
                key == (self.x as int, self.y as int),
                key == (old(self).x as int, old(self).y as int),
                pred == (|b: Block| chunk_of(b.absolute_position) != key),
                self.blocks@.len() == old(self).blocks@.len(),
                forall|i: int| 0 <= i < blocks@.len() && chunk_of((#[trigger] blocks@[i]).absolute_position) == key
                    ==> column_of(blocks@[i].position) < old(self).blocks@.len(),
                self.columns() == deliver(cols0, key, blocks@.take(n as int)),
                self.outside_blocks@ == outside0 + blocks@.take(n as int).filter(pred),
                self.modified == old(self).modified,
                self.x == old(self).x,
                self.y == old(self).y,
                self.indices == old(self).indices,
                self.water_indices == old(self).water_indices,
                self.visible == old(self).visible,
            decreases blocks@.len() - n,
        {
            let block = blocks[n];
            assert(blocks@.take(n + 1) =~= blocks@.take(n as int).push(block));
            assert(blocks@.take(n + 1).drop_last() =~= blocks@.take(n as int));
            proof { blocks@.take(n as int).lemma_filter_push(block, pred); }
            let block_chunk = block.get_chunk_coords();
            if block_chunk.0 == self.x && block_chunk.1 == self.y {
                self.add_block(block, false);
            } else {
                self.outside_blocks.push(block);
                assert(self.outside_blocks@ =~= outside0 + blocks@.take(n + 1).filter(pred));
            }
            n += 1;
        }
        assert(blocks@.take(blocks@.len() as int) =~= blocks@);
    }

}

/// The column index used for a position.
fn column_index(p: &BlockPos, len: usize) -> (r: usize)
    requires
        column_of(*p) < len,
    ensures
        r == column_of(*p),
{
    let c: i64 = p.x as i64 * 16 + p.z as i64;
    if c < 0 {
        0
    } else {
        c as usize
    }
}

/// Coordinate in the noise map, computed as `get_height_value` does.
fn noise_coordinate(chunk: i32, v: u32) -> (r: i64)
    requires
        i32::MIN <= chunk * 16 <= i32::MAX,
        i32::MIN <= chunk * 16 + trunc_rem((v as i32) as int, 1024) <= i32::MAX,
    ensures
        r == noise_coord(chunk as int, v),
{
    let vi: i64 = (v as i32) as i64;
    let rem: i64 = if vi >= 0 { vi % 1024 } else { -((-vi) % 1024) };
    let w: i64 = chunk as i64 * 16 + rem;
    if w < 0 {
        1024 + (-((-w) % 1024))
    } else {
        w
    }
}

/// One generated column: terrain from the ground to `y_top`, then water.
fn generate_column<F: Fn(u32, u32, u32) -> BlockType>(
    chunk_x: i32,
    chunk_y: i32,
    x: u32,
    z: u32,
    y_top: u32,
    kind: &F,
) -> (r: Column)
    requires
        x < 16,
        z < 16,
        y_top < i32::MAX,
        i32::MIN <= chunk_x * 16 && chunk_x * 16 + 15 <= i32::MAX,
        i32::MIN <= chunk_y * 16 && chunk_y * 16 + 15 <= i32::MAX,
        forall|x: u32, y: u32, z: u32| #[trigger] call_requires(*kind, (x, y, z)),
    ensures
        generated_column(r@, (chunk_x, chunk_y), (x * 16 + z) as int, y_top, *kind),
{
    let ghost c = (x * 16 + z) as int;
    proof {
        assert(c / 16 == x && c % 16 == z) by (nonlinear_arith)
            requires
                c == x * 16 + z,
                0 <= z < 16,
                0 <= x,
        ;
    }
    let mut col: Column = Vec::new();
    let mut y: u32 = 0;
    while y <= y_top
        invariant
            y <= y_top + 1,
            col@.len() == y,
            y_top < i32::MAX,
            x < 16,
            z < 16,
            c == x * 16 + z,
            c / 16 == x && c % 16 == z,
            i32::MIN <= chunk_x * 16 && chunk_x * 16 + 15 <= i32::MAX,
            i32::MIN <= chunk_y * 16 && chunk_y * 16 + 15 <= i32::MAX,
            forall|x: u32, y: u32, z: u32| #[trigger] call_requires(*kind, (x, y, z)),
            forall|yy: int| 0 <= yy < col@.len() ==> {
                &&& #[trigger] col@[yy] is Some
                &&& col@[yy]->0.position == cell_position(c, yy)
                &&& col@[yy]->0 == block_at_spec(cell_position(c, yy), (chunk_x, chunk_y), col@[yy]->0.block_type)
                &&& exists|raw: BlockType| #[trigger] call_ensures(*kind, (x, yy as u32, z), raw)
                    && col@[yy]->0.block_type == surface_type(raw, yy == y_top)
            },
        decreases y_top + 1 - y,
    {
        let raw = kind(x, y, z);
        let block_type = if raw == BlockType::Dirt && y == y_top { BlockType::Grass } else { raw };
        let position = BlockPos { x: x as i32, y: y as i32, z: z as i32 };
        assert(position == cell_position(c, y as int));
        let block = Block::new(position, (chunk_x, chunk_y), block_type);
        col.push(Some(block));
        assert(call_ensures(*kind, (x, (y as int) as u32, z), raw));
        y += 1;
    }
    let mut y: usize = col.len();
    while y <= 5
        invariant
            col@.len() == y,
            y > y_top,
            y <= 6 || y == y_top + 1,
            x < 16,
            z < 16,
            c == x * 16 + z,
            c / 16 == x && c % 16 == z,
            y_top < i32::MAX,
            i32::MIN <= chunk_x * 16 && chunk_x * 16 + 15 <= i32::MAX,
            i32::MIN <= chunk_y * 16 && chunk_y * 16 + 15 <= i32::MAX,
            forall|yy: int| 0 <= yy < col@.len() ==> {
                &&& #[trigger] col@[yy] is Some
                &&& col@[yy]->0.position == cell_position(c, yy)
                &&& col@[yy]->0 == block_at_spec(cell_position(c, yy), (chunk_x, chunk_y), col@[yy]->0.block_type)
                &&& yy <= y_top ==> exists|raw: BlockType| #[trigger] call_ensures(*kind, (x, yy as u32, z), raw)
                    && col@[yy]->0.block_type == surface_type(raw, yy == y_top)
                &&& yy > y_top ==> col@[yy]->0.block_type == BlockType::Water
            },
        decreases 6 - y,
    {
        let position = BlockPos { x: x as i32, y: y as i32, z: z as i32 };
        assert(position == cell_position(c, y as int));
        let block = Block::new(position, (chunk_x, chunk_y), BlockType::Water);
        col.push(Some(block));
        y += 1;
    }
    proof {
        let h = y_top;
        assert(col@.len() == if h + 1 > 6 { h + 1 } else { 6 });
        assert forall|yy: int| 0 <= yy < col@.len() implies {
            &&& #[trigger] col@[yy] is Some
            &&& col@[yy]->0.position == cell_position(c, yy)
            &&& col@[yy]->0 == block_at_spec(cell_position(c, yy), (chunk_x, chunk_y), col@[yy]->0.block_type)
            &&& yy <= h ==> exists|raw: BlockType| #[trigger] call_ensures(*kind, ((c / 16) as u32, yy as u32, (c % 16) as u32), raw)
                && col@[yy]->0.block_type == surface_type(raw, yy == h)
            &&& yy > h ==> col@[yy]->0.block_type == BlockType::Water
        } by {
            assert(col@[yy] is Some);
            if yy <= h {
                let raw = choose|raw: BlockType| #[trigger] call_ensures(*kind, (x, yy as u32, z), raw)
                    && col@[yy]->0.block_type == surface_type(raw, yy == y_top);
                assert((c / 16) as u32 == x);
                assert((c % 16) as u32 == z);
                assert(call_ensures(*kind, ((c / 16) as u32, yy as u32, (c % 16) as u32), raw));
            }
        }
    }
    col
}

/// A chunk made of generated columns keeps every block at its own place.
pub proof fn lemma_generated_chunk_consistent<F: Fn(u32, u32, u32) -> BlockType>(ch: Chunk, heights: Seq<u32>, kind: F)
    requires
        ch.blocks@.len() == 256,
        i32::MIN <= ch.x * 16 && ch.x * 16 + 15 <= i32::MAX,
        i32::MIN <= ch.y * 16 && ch.y * 16 + 15 <= i32::MAX,
        forall|x: u32, z: u32| x < 16 && z < 16 ==> #[trigger] height_at(heights, ch.x as int, ch.y as int, x, z) < i32::MAX,
        forall|c: int| 0 <= c < 256 ==> generated_column(
            #[trigger] ch.columns()[c],
            (ch.x, ch.y),
            c,
            height_at(heights, ch.x as int, ch.y as int, (c / 16) as u32, (c % 16) as u32),
            kind,
        ),
    ensures
        ch.consistent(),
{
    assert forall|c: int, y: int|
        0 <= c < 256 && 0 <= y < ch.columns()[c].len() && #[trigger] ch.columns()[c][y] is Some implies {
        let b = ch.columns()[c][y]->0;
        &&& y <= i32::MAX
        &&& block_fits(cell_position(c, y), (ch.x, ch.y))
        &&& b == block_at_spec(cell_position(c, y), (ch.x, ch.y), b.block_type)
    } by {
        let h = height_at(heights, ch.x as int, ch.y as int, (c / 16) as u32, (c % 16) as u32);
        assert(0 <= c / 16 < 16 && 0 <= c % 16 < 16) by (nonlinear_arith)
            requires
                0 <= c < 256,
        ;
        assert(generated_column(ch.columns()[c], (ch.x, ch.y), c, h, kind));
        assert(h < i32::MAX);
        assert(ch.columns()[c][y] is Some);
    }
}

/// Reading a position after `add_block` gives the block written there, and
/// every cell other than the written one reads as before.
pub proof fn lemma_read_after_add(cols: Seq<Seq<Option<Block>>>, b: Block, q: BlockPos)
    requires
        0 <= column_of(b.position) < cols.len(),
    ensures
        column_of(q) == column_of(b.position) && sat(q.y as int) == sat(b.position.y as int)
            ==> block_at_relative(with_block(cols, b), q) == Some(b),
        !(column_of(q) == column_of(b.position) && sat(q.y as int) == sat(b.position.y as int))
            ==> block_at_relative(with_block(cols, b), q) == block_at_relative(cols, q),
        with_block(cols, b).len() == cols.len(),
{
}

/// After `remove_block` no block is found at that position, and every other
/// cell reads as before.
pub proof fn lemma_read_after_remove(cols: Seq<Seq<Option<Block>>>, p: BlockPos, q: BlockPos)
    requires
        0 <= column_of(p) < cols.len(),
        sat(p.y as int) < cols[column_of(p)].len(),
    ensures
        block_at_relative(without_block(cols, p), p) is None,
        !(column_of(q) == column_of(p) && sat(q.y as int) == sat(p.y as int))
            ==> block_at_relative(without_block(cols, p), q) == block_at_relative(cols, q),
{
}

/// Inside the chunk's square, `exists_block_at` and `get_block_at_relative`
/// look at the same cell.
pub proof fn lemma_exists_iff_block(cols: Seq<Seq<Option<Block>>>, p: BlockPos)
    requires
        !outside_chunk(p),
    ensures
        exists_at(cols, p) <==> block_at_relative(cols, p) is Some,
{
}

/// Where a column of a chunk reads its terrain height: the map row comes from
/// the world z coordinate exactly as the map column comes from the world x
/// coordinate, and a world coordinate `w` of a column (x or z below 16) gives
/// map coordinate `w` itself when it is not negative, and otherwise the
/// coordinate in `1..=1024` that equals `w` modulo 1024.
pub proof fn lemma_noise_lookup(chunk_x: int, chunk_y: int, x: u32, z: u32)
    requires
        x < 16,
        z < 16,
    ensures
        noise_index(chunk_x, chunk_y, x, z) == noise_index(0, chunk_y, 0, z) + noise_index(chunk_x, 0, x, 0),
        noise_index(0, chunk_y, 0, z) == 1023 * noise_index(chunk_y, 0, z, 0),
        ({
            let w = chunk_x * 16 + x;
            let c = noise_index(chunk_x, 0, x, 0);
            &&& w >= 0 ==> c == w
            &&& w < 0 ==> 0 < c <= 1024 && (c - w) % 1024 == 0
        }),
{
    let w = chunk_x * 16 + x;
    assert(trunc_rem((x as i32) as int, 1024) == x);
    assert(trunc_rem((z as i32) as int, 1024) == z);
    assert(trunc_rem((0u32 as i32) as int, 1024) == 0);
    assert(noise_coord(0, 0) == 0);
    if w < 0 {
        let r = (-w) % 1024;
        assert(0 <= r < 1024);
        assert(((-w) - r) % 1024 == 0) by {
            vstd::arithmetic::div_mod::lemma_fundamental_div_mod(-w, 1024);
            vstd::arithmetic::div_mod::lemma_mod_multiples_basic((-w) / 1024, 1024);
        }
        let c = 1024 - r;
        assert(c - w == 1024 + ((-w) - r));
        assert((c - w) % 1024 == 0) by {
            vstd::arithmetic::div_mod::lemma_fundamental_div_mod(-w, 1024);
            vstd::arithmetic::div_mod::lemma_mod_multiples_basic((-w) / 1024 + 1, 1024);
        }
    }
}

/// Adding a block of this chunk at its own place keeps the chunk consistent.
pub proof fn lemma_add_keeps_consistent(before: Chunk, after: Chunk, b: Block)
    requires
        before.consistent(),
        after.x == before.x,
        after.y == before.y,
        after.blocks@.len() == before.blocks@.len(),
        after.columns() == with_block(before.columns(), b),
        !outside_chunk(b.position),
        0 <= b.position.y,
        block_fits(b.position, (before.x, before.y)),
        b == block_at_spec(b.position, (before.x, before.y), b.block_type),
    ensures
        after.consistent(),
{
    let cols = after.columns();
    let c0 = column_of(b.position);
    assert forall|c: int, y: int|
        0 <= c < 256 && 0 <= y < cols[c].len() && #[trigger] cols[c][y] is Some implies {
        let bb = cols[c][y]->0;
        &&& y <= i32::MAX
        &&& block_fits(cell_position(c, y), (after.x, after.y))
        &&& bb == block_at_spec(cell_position(c, y), (after.x, after.y), bb.block_type)
    } by {
        if c == c0 && y == b.position.y {
            assert(cell_position(c, y) == b.position);
        } else {
            assert(before.columns()[c].len() > y);
            assert(cols[c][y] == before.columns()[c][y]);
        }
    }
}

} // verus!
