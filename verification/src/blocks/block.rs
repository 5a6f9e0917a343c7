use vstd::prelude::*;

use crate::blocks::block_type::BlockType;
use crate::utils::{chunk_of, floor_div_chunk, keys_view, BlockPos};

verus! {

#[derive(Clone, Copy, PartialEq, Eq, Hash, Debug, Structural)]
pub enum FaceDirections {
    Front,
    Back,
    Left,
    Right,
    Top,
    Bottom,
}

/// The six faces in the order in which meshing visits them.
pub open spec fn all_faces() -> Seq<FaceDirections> {
    seq![
        FaceDirections::Back,
        FaceDirections::Bottom,
        FaceDirections::Top,
        FaceDirections::Front,
        FaceDirections::Left,
        FaceDirections::Right,
    ]
}

pub open spec fn opposite_of(f: FaceDirections) -> FaceDirections {
    match f {
        FaceDirections::Back => FaceDirections::Front,
        FaceDirections::Bottom => FaceDirections::Top,
        FaceDirections::Top => FaceDirections::Bottom,
        FaceDirections::Front => FaceDirections::Back,
        FaceDirections::Left => FaceDirections::Right,
        FaceDirections::Right => FaceDirections::Left,
    }
}

/// Outward unit normal of a face.
pub open spec fn normal_of(f: FaceDirections) -> (int, int, int) {
    match f {
        FaceDirections::Back => (0, 0, 1),
        FaceDirections::Bottom => (0, -1, 0),
        FaceDirections::Top => (0, 1, 0),
        FaceDirections::Front => (0, 0, -1),
        FaceDirections::Left => (-1, 0, 0),
        FaceDirections::Right => (1, 0, 0),
    }
}

/// The two triangles of a face, as indices of the cube's eight corners.
pub open spec fn face_indices(f: FaceDirections) -> Seq<u32> {
    match f {
        FaceDirections::Back => seq![7, 6, 5, 7, 5, 4],
        FaceDirections::Front => seq![0, 1, 2, 0, 2, 3],
        FaceDirections::Left => seq![4, 5, 1, 4, 1, 0],
        FaceDirections::Right => seq![3, 2, 6, 3, 6, 7],
        FaceDirections::Top => seq![1, 5, 6, 1, 6, 2],
        FaceDirections::Bottom => seq![4, 0, 3, 4, 3, 7],
    }
}

/// Corner `i` of the unit cube, as 0/1 offsets along x, y and z
/// (0 is the low side, 1 the high side).
pub open spec fn corner_offset(i: int) -> (int, int, int) {
    if i == 0 {
        (0, 0, 0)
    } else if i == 1 {
        (0, 1, 0)
    } else if i == 2 {
        (1, 1, 0)
    } else if i == 3 {
        (1, 0, 0)
    } else if i == 4 {
        (0, 0, 1)
    } else if i == 5 {
        (0, 1, 1)
    } else if i == 6 {
        (1, 1, 1)
    } else {
        (1, 0, 1)
    }
}

impl FaceDirections {
    pub fn all() -> (r: [FaceDirections; 6])
        ensures
            r@ == all_faces(),
    {
        [
            FaceDirections::Back,
            FaceDirections::Bottom,
            FaceDirections::Top,
            FaceDirections::Front,
            FaceDirections::Left,
            FaceDirections::Right,
        ]
    }

    pub fn opposite(&self) -> (r: FaceDirections)
        ensures
            r == opposite_of(*self),
    {
        match self {
            FaceDirections::Back => FaceDirections::Front,
            FaceDirections::Bottom => FaceDirections::Top,
            FaceDirections::Top => FaceDirections::Bottom,
            FaceDirections::Front => FaceDirections::Back,
            FaceDirections::Left => FaceDirections::Right,
            FaceDirections::Right => FaceDirections::Left,
        }
    }

    /// The face's outward normal, as a step on the block grid.
    pub fn get_normal_vector(&self) -> (r: BlockPos)
        ensures
            (r.x as int, r.y as int, r.z as int) == normal_of(*self),
    {
        match self {
            FaceDirections::Back => BlockPos { x: 0, y: 0, z: 1 },
            FaceDirections::Bottom => BlockPos { x: 0, y: -1, z: 0 },
            FaceDirections::Top => BlockPos { x: 0, y: 1, z: 0 },
            FaceDirections::Front => BlockPos { x: 0, y: 0, z: -1 },
            FaceDirections::Left => BlockPos { x: -1, y: 0, z: 0 },
            FaceDirections::Right => BlockPos { x: 1, y: 0, z: 0 },
        }
    }

    pub fn get_indices(&self) -> (r: [u32; 6])
        ensures
            r@ == face_indices(*self),
    {
        match self {
            FaceDirections::Back => [7, 6, 5, 7, 5, 4],
            FaceDirections::Front => [0, 1, 2, 0, 2, 3],
            FaceDirections::Left => [4, 5, 1, 4, 1, 0],
            FaceDirections::Right => [3, 2, 6, 3, 6, 7],
            FaceDirections::Top => [1, 5, 6, 1, 6, 2],
            FaceDirections::Bottom => [4, 0, 3, 4, 3, 7],
        }
    }
}

/// A block of the world. `position` is taken inside its chunk,
/// `absolute_position` in world coordinates.
#[derive(Clone, Copy, Debug, PartialEq, Eq, Structural)]
pub struct Block {
    pub position: BlockPos,
    pub absolute_position: BlockPos,
    pub block_type: BlockType,
}

/// The block that `Block::new` builds from a position inside a chunk.
pub open spec fn block_at_spec(position: BlockPos, chunk: (i32, i32), t: BlockType) -> Block {
    Block {
        position,
        absolute_position: BlockPos {
            x: (chunk.0 * 16 + position.x) as i32,
            y: position.y,
            z: (chunk.1 * 16 + position.z) as i32,
        },
        block_type: t,
    }
}

/// `Block::new` can place a block of that chunk at that position without
/// leaving the range of `i32`.
pub open spec fn block_fits(position: BlockPos, chunk: (i32, i32)) -> bool {
    &&& i32::MIN <= chunk.0 * 16 + position.x <= i32::MAX
    &&& i32::MIN <= chunk.1 * 16 + position.z <= i32::MAX
}

/// The chunks beside the block's own that share its border faces.
pub open spec fn neighbour_chunks(b: Block) -> Seq<(int, int)> {
    let c = chunk_of(b.absolute_position);
    let s1: Seq<(int, int)> = if b.position.x == 15 { seq![(c.0 + 1, c.1)] } else { seq![] };
    let s2: Seq<(int, int)> = if b.position.x == 0 { seq![(c.0 - 1, c.1)] } else { seq![] };
    let s3: Seq<(int, int)> = if b.position.z == 15 { seq![(c.0, c.1 + 1)] } else { seq![] };
    let s4: Seq<(int, int)> = if b.position.z == 0 { seq![(c.0, c.1 - 1)] } else { seq![] };
    s1 + s2 + s3 + s4
}

pub open spec fn on_chunk_border(b: Block) -> bool {
    b.position.x == 0 || b.position.x == 15 || b.position.z == 0 || b.position.z == 15
}

impl Block {
    /// A block at `position` inside `chunk`.
    pub fn new(position: BlockPos, chunk: (i32, i32), block_type: BlockType) -> (r: Block)
        requires
            block_fits(position, chunk),
        ensures
            r == block_at_spec(position, chunk, block_type),
    {
        let absolute_position = BlockPos {
            x: (chunk.0 as i64 * 16 + position.x as i64) as i32,
            y: position.y,
            z: (chunk.1 as i64 * 16 + position.z as i64) as i32,
        };
        Block { position, absolute_position, block_type }
    }

    pub fn get_neighbour_chunks_coords(&self) -> (r: Vec<(i32, i32)>)
        ensures
            keys_view(r@) == neighbour_chunks(*self),
    {
        let chunk = self.get_chunk_coords();
        let mut neighbours: Vec<(i32, i32)> = Vec::new();
        if self.position.x == 15 {
            neighbours.push((chunk.0 + 1, chunk.1));
        }
        if self.position.x == 0 {
            neighbours.push((chunk.0 - 1, chunk.1));
        }
        if self.position.z == 15 {
            neighbours.push((chunk.0, chunk.1 + 1));
        }
        if self.position.z == 0 {
            neighbours.push((chunk.0, chunk.1 - 1));
        }
        assert(keys_view(neighbours@) =~= neighbour_chunks(*self));
        neighbours
    }

    pub fn is_on_chunk_border(&self) -> (r: bool)
        ensures
            r == on_chunk_border(*self),
    {
        self.position.x == 0 || self.position.x == 15 || self.position.z == 0
            || self.position.z == 15
    }

    /// The chunk that holds the block, from its absolute position.
    pub fn get_chunk_coords(&self) -> (r: (i32, i32))
        ensures
            (r.0 as int, r.1 as int) == chunk_of(self.absolute_position),
            -134217728 <= r.0 <= 134217727,
            -134217728 <= r.1 <= 134217727,
    {
        (floor_div_chunk(self.absolute_position.x), floor_div_chunk(self.absolute_position.z))
    }
}

/// Each face is the opposite of its opposite.
pub proof fn lemma_opposite_involutive(f: FaceDirections)
    ensures
        opposite_of(opposite_of(f)) == f,
        opposite_of(f) != f,
{
}

/// Opposite faces point in opposite directions.
pub proof fn lemma_opposite_normal(f: FaceDirections)
    ensures
        normal_of(opposite_of(f)).0 == -normal_of(f).0,
        normal_of(opposite_of(f)).1 == -normal_of(f).1,
        normal_of(opposite_of(f)).2 == -normal_of(f).2,
{
}

/// `all` lists every face exactly once.
pub proof fn lemma_all_faces_once(f: FaceDirections)
    ensures
        all_faces().contains(f),
        all_faces().len() == 6,
        forall|i: int, j: int| 0 <= i < j < 6 ==> all_faces()[i] != all_faces()[j],
{
    match f {
        FaceDirections::Back => assert(all_faces()[0] == f),
        FaceDirections::Bottom => assert(all_faces()[1] == f),
        FaceDirections::Top => assert(all_faces()[2] == f),
        FaceDirections::Front => assert(all_faces()[3] == f),
        FaceDirections::Left => assert(all_faces()[4] == f),
        FaceDirections::Right => assert(all_faces()[5] == f),
    }
}

/// A face's triangles use four distinct corners of the cube, all of them on
/// that face's side: the corners' offset along the normal is the face's side.
pub proof fn lemma_face_corners_on_face(f: FaceDirections, k: int)
    requires
        0 <= k < 6,
    ensures
        face_indices(f)[k] < 8,
        ({
            let c = corner_offset(face_indices(f)[k] as int);
            let n = normal_of(f);
            &&& n.0 == 1 ==> c.0 == 1
            &&& n.0 == -1 ==> c.0 == 0
            &&& n.1 == 1 ==> c.1 == 1
            &&& n.1 == -1 ==> c.1 == 0
            &&& n.2 == 1 ==> c.2 == 1
            &&& n.2 == -1 ==> c.2 == 0
        }),
{
}

/// A block built inside a chunk lies in that chunk, at the position it was
/// given.
pub proof fn lemma_new_block_in_chunk(position: BlockPos, chunk: (i32, i32), t: BlockType)
    requires
        block_fits(position, chunk),
        0 <= position.x < 16,
        0 <= position.z < 16,
    ensures
        chunk_of(block_at_spec(position, chunk, t).absolute_position) == (chunk.0 as int, chunk.1 as int),
        crate::utils::relative_of(block_at_spec(position, chunk, t).absolute_position).0 == position.x,
        crate::utils::relative_of(block_at_spec(position, chunk, t).absolute_position).2 == position.z,
        position.y >= 0 ==> crate::utils::relative_of(block_at_spec(position, chunk, t).absolute_position).1
            == position.y,
{
}

} // verus!
