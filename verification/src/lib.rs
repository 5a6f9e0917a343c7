//! Verified core of a block-world engine: block kinds and faces, chunk storage,
//! world coordinates, terrain columns, face meshing with ambient occlusion, the
//! text format chunks are saved in, and the rules by which chunks are streamed
//! in and out around the player.
pub mod blocks;
pub mod chunk;
pub mod effects;
pub mod mesh;
pub mod persistence;
pub mod utils;
pub mod world;
