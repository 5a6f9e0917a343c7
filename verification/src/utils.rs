use vstd::prelude::*;

verus! {

/// A point of the block grid. Absolute positions are world coordinates;
/// relative positions are taken inside one chunk (x and z in 0..16).
#[derive(Clone, Copy, Debug, PartialEq, Eq, Structural)]
pub struct BlockPos {
    pub x: i32,
    pub y: i32,
    pub z: i32,
}

/// Chunk coordinate of a world coordinate: floor division by the chunk size.
pub open spec fn chunk_coord(v: int) -> int {
    v / 16
}

/// Coordinate of a world coordinate inside its chunk (always in 0..16).
pub open spec fn in_chunk_coord(v: int) -> int {
    v % 16
}

/// The chunk that holds an absolute position.
pub open spec fn chunk_of(p: BlockPos) -> (int, int) {
    (chunk_coord(p.x as int), chunk_coord(p.z as int))
}

/// The position inside its chunk of an absolute position; a negative height
/// is clamped to the ground.
pub open spec fn relative_of(p: BlockPos) -> (int, int, int) {
    (in_chunk_coord(p.x as int), if p.y < 0 { 0 } else { p.y as int }, in_chunk_coord(p.z as int))
}

/// A sequence of chunk keys seen as pairs of integers.
pub open spec fn keys_view(s: Seq<(i32, i32)>) -> Seq<(int, int)> {
    s.map_values(|k: (i32, i32)| (k.0 as int, k.1 as int))
}

pub open spec fn pos_view(p: BlockPos) -> (int, int, int) {
    (p.x as int, p.y as int, p.z as int)
}

impl BlockPos {
    pub fn new(x: i32, y: i32, z: i32) -> (r: BlockPos)
        ensures
            r.x == x,
            r.y == y,
            r.z == z,
    {
        BlockPos { x, y, z }
    }
}

/// Floor division of a world coordinate by the chunk size.
pub fn floor_div_chunk(v: i32) -> (r: i32)
    ensures
        r == chunk_coord(v as int),
{
    if v >= 0 {
        let q: u32 = (v as u32) / 16;
        q as i32
    } else {
        let w: u32 = (-(v + 1)) as u32;
        let q: u32 = w / 16;
        -(q as i32) - 1
    }
}

/// Non-negative remainder of a world coordinate by the chunk size.
pub fn floor_mod_chunk(v: i32) -> (r: i32)
    ensures
        r == in_chunk_coord(v as int),
        0 <= r < 16,
{
    let q = floor_div_chunk(v);
    v - q * 16
}

pub trait ChunkFromPosition {
    fn get_chunk_from_position_absolute(&self) -> (i32, i32);
}

pub trait RelativeFromAbsolute {
    fn relative_from_absolute(&self) -> BlockPos;
}

impl ChunkFromPosition for BlockPos {
    /// The chunk that holds this absolute position.
    fn get_chunk_from_position_absolute(&self) -> (r: (i32, i32))
        ensures
            (r.0 as int, r.1 as int) == chunk_of(*self),
    {
        (floor_div_chunk(self.x), floor_div_chunk(self.z))
    }
}

impl RelativeFromAbsolute for BlockPos {
    /// This absolute position seen from inside its chunk.
    fn relative_from_absolute(&self) -> (r: BlockPos)
        ensures
            pos_view(r) == relative_of(*self),
    {
        BlockPos {
            x: floor_mod_chunk(self.x),
            y: if self.y < 0 { 0 } else { self.y },
            z: floor_mod_chunk(self.z),
        }
    }
}

/// An absolute position is its chunk's origin plus its position inside the chunk.
pub proof fn lemma_chunk_decomposition(p: BlockPos)
    ensures
        chunk_of(p).0 * 16 + relative_of(p).0 == p.x,
        chunk_of(p).1 * 16 + relative_of(p).2 == p.z,
        0 <= relative_of(p).0 < 16,
        0 <= relative_of(p).2 < 16,
        p.y >= 0 ==> relative_of(p).1 == p.y,
{
}

/// Every point of a chunk's square maps back to that chunk and to its own
/// relative coordinates.
pub proof fn lemma_chunk_square(cx: int, cz: int, rx: int, ry: int, rz: int)
    requires
        0 <= rx < 16,
        0 <= rz < 16,
        0 <= ry,
        i32::MIN <= cx * 16 + rx <= i32::MAX,
        ry <= i32::MAX,
        i32::MIN <= cz * 16 + rz <= i32::MAX,
    ensures
        ({
            let p = BlockPos { x: (cx * 16 + rx) as i32, y: ry as i32, z: (cz * 16 + rz) as i32 };
            chunk_of(p) == (cx, cz) && relative_of(p) == (rx, ry, rz)
        }),
{
}

} // verus!
