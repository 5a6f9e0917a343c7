use vstd::prelude::*;

use crate::blocks::block_type::BlockType;
use crate::utils::{chunk_of, keys_view, BlockPos, ChunkFromPosition};
use crate::world::{block_at_absolute, coordinate_room, World};

verus! {

/// Ambient occlusion level of a vertex from its two side blocks and the block
/// in the corner between them: 3 is fully lit, 0 is fully shaded. Two side
/// blocks shade the vertex fully whatever the corner holds.
pub open spec fn ao_level(side1: bool, side2: bool, up: bool) -> u8 {
    if side1 && side2 {
        0
    } else {
        (3 - ((if side1 { 1int } else { 0 }) + (if side2 { 1int } else { 0 }) + (if up { 1int } else { 0 }))) as u8
    }
}

/// A block that shades vertices: one that is not water, in one of the chunks
/// taken into account.
pub open spec fn occludes(m: Map<(int, int), crate::chunk::Chunk>, adjacent: Seq<(int, int)>, q: BlockPos) -> bool {
    &&& adjacent.contains(chunk_of(q))
    &&& match block_at_absolute(m, q) {
        Some(b) => b.block_type != BlockType::Water,
        None => false,
    }
}

/// Ambient occlusion of the cube vertex that lies half a block below and
/// behind the grid point `g` along every axis: the blocks above it towards
/// +x, towards +z and in the +x +z corner decide.
pub open spec fn vertex_ao(m: Map<(int, int), crate::chunk::Chunk>, adjacent: Seq<(int, int)>, g: BlockPos) -> u8 {
    ao_level(
        occludes(m, adjacent, BlockPos { z: (g.z - 1) as i32, ..g }),
        occludes(m, adjacent, BlockPos { x: (g.x - 1) as i32, ..g }),
        occludes(m, adjacent, g),
    )
}

pub fn calc_vertex_ao(side1: bool, side2: bool, up: bool) -> (r: u8)
    ensures
        r == ao_level(side1, side2, up),
        r <= 3,
{
    if side1 && side2 {
        return 0;
    }
    3 - (side1 as u8 + side2 as u8 + up as u8)
}

/// Whether the block at `q` shades vertices, looking only at the chunks listed.
fn occludes_at(world: &World, adjacent: &Vec<(i32, i32)>, q: &BlockPos) -> (r: bool)
    requires
        world.wf(),
    ensures
        r == occludes(world.map(), keys_view(adjacent@), *q),
{
    let key = q.get_chunk_from_position_absolute();
    let mut listed = false;
    let mut i: usize = 0;
    while i < adjacent.len()
        invariant
            i <= adjacent@.len(),
            listed == exists|j: int| 0 <= j < i && #[trigger] keys_view(adjacent@)[j] == chunk_of(*q),
            (key.0 as int, key.1 as int) == chunk_of(*q),
        decreases adjacent@.len() - i,
    {
        if adjacent[i].0 == key.0 && adjacent[i].1 == key.1 {
            listed = true;
        }
        assert(keys_view(adjacent@)[i as int] == (adjacent@[i as int].0 as int, adjacent@[i as int].1 as int));
        i += 1;
    }
    if !listed {
        assert(!keys_view(adjacent@).contains(chunk_of(*q)));
        return false;
    }
    match world.get_blocks_absolute(q) {
        Some(b) => b.block_type != BlockType::Water,
        None => false,
    }
}

/// Ambient occlusion of the vertex half a block below the grid point `g` along
/// each axis, from the blocks of the listed chunks.
pub fn from_vertex_position(world: &World, adjacent: &Vec<(i32, i32)>, g: &BlockPos) -> (r: u8)
    requires
        world.wf(),
        coordinate_room(g.x as int, 1),
        coordinate_room(g.z as int, 1),
    ensures
        r == vertex_ao(world.map(), keys_view(adjacent@), *g),
        r <= 3,
{
    let side1_position = BlockPos { z: g.z - 1, ..*g };
    let side2_position = BlockPos { x: g.x - 1, ..*g };
    let has_side1 = occludes_at(world, adjacent, &side1_position);
    let has_side2 = occludes_at(world, adjacent, &side2_position);
    let has_corner = occludes_at(world, adjacent, g);
    calc_vertex_ao(has_side1, has_side2, has_corner)
}

/// A vertex between two side blocks is fully shaded, and one without any of
/// the three blocks around it is fully lit.
pub proof fn lemma_ao_extremes(side1: bool, side2: bool, up: bool)
    ensures
        side1 && side2 ==> ao_level(side1, side2, up) == 0,
        !side1 && !side2 && !up ==> ao_level(side1, side2, up) == 3,
        ao_level(side1, side2, up) <= 3,
{
}

/// The two side blocks play the same part, and as long as they are not both
/// there, each block around the vertex lowers the level by one from fully lit.
pub proof fn lemma_ao_shading_blocks(side1: bool, side2: bool, up: bool)
    ensures
        ao_level(side1, side2, up) == ao_level(side2, side1, up),
        ao_level(false, false, false) == 3,
        !side2 ==> ao_level(true, side2, up) + 1 == ao_level(false, side2, up),
        !side1 ==> ao_level(side1, true, up) + 1 == ao_level(side1, false, up),
        !(side1 && side2) ==> ao_level(side1, side2, true) + 1 == ao_level(side1, side2, false),
{
}

} // verus!
