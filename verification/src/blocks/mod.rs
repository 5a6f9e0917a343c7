pub mod block;
pub mod block_type;
