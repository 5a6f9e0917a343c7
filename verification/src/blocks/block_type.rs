use vstd::prelude::*;

use crate::blocks::block::FaceDirections;

verus! {

/// Index of a tile in the texture atlas.
#[derive(Clone, Copy, Debug)]
pub struct FaceTexture(pub u32);

/// Static properties of a kind of block.
#[derive(Clone, Copy, Debug)]
pub struct BlockTypeConfigs {
    pub id: u32,
    /// Atlas tiles: lateral faces, top face, bottom face.
    pub textures: [FaceTexture; 3],
    pub is_translucent: bool,
}

#[derive(Clone, Copy, Debug, PartialEq, Eq, Structural)]
pub enum BlockType {
    Grass,
    Dirt,
    Water,
    Wood,
    Leaf,
    Stone,
    Sand,
}

/// Numeric id of a block kind, as written in saved chunks.
pub open spec fn block_type_id(t: BlockType) -> u32 {
    match t {
        BlockType::Grass => 0,
        BlockType::Dirt => 1,
        BlockType::Water => 2,
        BlockType::Wood => 3,
        BlockType::Leaf => 4,
        BlockType::Stone => 5,
        BlockType::Sand => 6,
    }
}

/// The block kind with a given id (ids above 6 name no kind).
pub open spec fn block_type_of_id(id: u32) -> BlockType {
    if id == 0 {
        BlockType::Grass
    } else if id == 1 {
        BlockType::Dirt
    } else if id == 2 {
        BlockType::Water
    } else if id == 3 {
        BlockType::Wood
    } else if id == 4 {
        BlockType::Leaf
    } else if id == 5 {
        BlockType::Stone
    } else {
        BlockType::Sand
    }
}

/// Atlas tiles of a block kind: lateral, top, bottom.
pub open spec fn texture_tiles(t: BlockType) -> (u32, u32, u32) {
    match t {
        BlockType::Grass => (6, 7, 8),
        BlockType::Dirt => (0, 0, 0),
        BlockType::Water => (1, 1, 1),
        BlockType::Wood => (4, 5, 5),
        BlockType::Leaf => (2, 2, 2),
        BlockType::Stone => (3, 3, 3),
        BlockType::Sand => (9, 9, 9),
    }
}

/// What `BlockTypeConfigs::get` gives for a block kind.
pub open spec fn config_matches(c: BlockTypeConfigs, t: BlockType) -> bool {
    &&& c.id == block_type_id(t)
    &&& c.textures[0].0 == texture_tiles(t).0
    &&& c.textures[1].0 == texture_tiles(t).1
    &&& c.textures[2].0 == texture_tiles(t).2
    &&& c.is_translucent == (t == BlockType::Water)
}

/// The atlas tile shown on a given face: top and bottom faces have their own
/// tiles, the four lateral faces share one.
pub open spec fn face_tile(t: BlockType, face: FaceDirections) -> u32 {
    match face {
        FaceDirections::Top => texture_tiles(t).1,
        FaceDirections::Bottom => texture_tiles(t).2,
        _ => texture_tiles(t).0,
    }
}

impl BlockTypeConfigs {
    pub fn get(block_type: BlockType) -> (r: BlockTypeConfigs)
        ensures
            config_matches(r, block_type),
    {
        match block_type {
            BlockType::Grass => BlockTypeConfigs {
                id: 0,
                textures: [FaceTexture(6), FaceTexture(7), FaceTexture(8)],
                is_translucent: false,
            },
            BlockType::Dirt => BlockTypeConfigs {
                id: 1,
                textures: [FaceTexture(0), FaceTexture(0), FaceTexture(0)],
                is_translucent: false,
            },
            BlockType::Water => BlockTypeConfigs {
                id: 2,
                textures: [FaceTexture(1), FaceTexture(1), FaceTexture(1)],
                is_translucent: true,
            },
            BlockType::Wood => BlockTypeConfigs {
                id: 3,
                textures: [FaceTexture(4), FaceTexture(5), FaceTexture(5)],
                is_translucent: false,
            },
            BlockType::Leaf => BlockTypeConfigs {
                id: 4,
                textures: [FaceTexture(2), FaceTexture(2), FaceTexture(2)],
                is_translucent: false,
            },
            BlockType::Stone => BlockTypeConfigs {
                id: 5,
                textures: [FaceTexture(3), FaceTexture(3), FaceTexture(3)],
                is_translucent: false,
            },
            BlockType::Sand => BlockTypeConfigs {
                id: 6,
                textures: [FaceTexture(9), FaceTexture(9), FaceTexture(9)],
                is_translucent: false,
            },
        }
    }
}

impl BlockType {
    pub const MAX_ID: u32 = 6;

    pub fn get_config(&self) -> (r: BlockTypeConfigs)
        ensures
            config_matches(r, *self),
    {
        BlockTypeConfigs::get(*self)
    }

    pub fn to_id(&self) -> (r: u32)
        ensures
            r == block_type_id(*self),
            r <= 6,
    {
        self.get_config().id
    }

    /// The block kind with the given id; ids above `MAX_ID` name no kind.
    pub fn from_id(id: u32) -> (r: BlockType)
        requires
            id <= 6,
        ensures
            r == block_type_of_id(id),
            block_type_id(r) == id,
    {
        match id {
            0 => BlockType::Grass,
            1 => BlockType::Dirt,
            2 => BlockType::Water,
            3 => BlockType::Wood,
            4 => BlockType::Leaf,
            5 => BlockType::Stone,
            _ => BlockType::Sand,
        }
    }

    /// The atlas tile drawn on the given face of this kind of block.
    pub fn face_texture(&self, face: FaceDirections) -> (r: u32)
        ensures
            r == face_tile(*self, face),
    {
        let config = self.get_config();
        match face {
            FaceDirections::Top => config.textures[1].0,
            FaceDirections::Bottom => config.textures[2].0,
            _ => config.textures[0].0,
        }
    }
}

/// Number of tiles per row of the texture atlas.
pub const BLOCK_PER_ROW: u32 = 8;

/// Column and row of an atlas tile.
pub fn atlas_cell(tile: u32) -> (r: (u32, u32))
    ensures
        r.0 == tile % 8,
        r.1 == tile / 8,
{
    (tile % BLOCK_PER_ROW, tile / BLOCK_PER_ROW)
}

/// A block kind's id names it back.
pub proof fn lemma_id_roundtrip(t: BlockType)
    ensures
        block_type_of_id(block_type_id(t)) == t,
        block_type_id(t) <= 6,
{
}

/// Every id up to `MAX_ID` is the id of the kind it names.
pub proof fn lemma_id_onto(id: u32)
    requires
        id <= 6,
    ensures
        block_type_id(block_type_of_id(id)) == id,
{
}

/// Two kinds with the same id are the same kind.
pub proof fn lemma_id_injective(a: BlockType, b: BlockType)
    requires
        block_type_id(a) == block_type_id(b),
    ensures
        a == b,
{
}

} // verus!
