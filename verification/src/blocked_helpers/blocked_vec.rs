//! A vector that is kept in blocks.

use vstd::prelude::*;

verus! {

/// Values in blocks that can be handed out one by one, meant to be used like a vector.
///
/// There is no slice over all the values, as the blocks lie apart in memory.
pub struct BlockedVec<T> {
    /// The blocks, in order.
    pub blocks: Vec<Vec<T>>,
    /// The number of values in a full block.
    pub block_size: usize,
}

} // verus!
