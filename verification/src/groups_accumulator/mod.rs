pub mod blocks_index;
pub mod enumerate_blocked;

pub use blocks_index::BlocksIndex;
