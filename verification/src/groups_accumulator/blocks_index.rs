//! Positions in blocked storage.

use vstd::arithmetic::div_mod::{
    lemma_fundamental_div_mod, lemma_fundamental_div_mod_converse, lemma_mod_bound,
};
use vstd::prelude::*;

verus! {

/// The position of a value: which block, and where in it.
#[derive(Clone, Copy, Debug, PartialEq, Eq, Structural)]
pub struct BlocksIndex {
    pub block_index: usize,
    pub index_in_block: usize,
}

impl BlocksIndex {
    /// The number of values before this position when every block holds `block_size` values.
    pub open spec fn flat(self, block_size: int) -> int {
        self.block_index * block_size + self.index_in_block
    }

    /// The position that has `index` values before it when every block holds `block_size`.
    pub open spec fn at(index: int, block_size: int) -> BlocksIndex {
        BlocksIndex {
            block_index: (index / block_size) as usize,
            index_in_block: (index % block_size) as usize,
        }
    }

    pub fn new(block_index: usize, index_in_block: usize) -> (position: Self)
        ensures
            position == (BlocksIndex { block_index, index_in_block }),
    {
        BlocksIndex { block_index, index_in_block }
    }

    pub fn new_in_first_block(index_in_block: usize) -> (position: Self)
        ensures
            position == (BlocksIndex { block_index: 0, index_in_block }),
    {
        BlocksIndex { block_index: 0, index_in_block }
    }

    pub fn from_index_in_fixed_block_size(index: usize, block_size: usize) -> (position: Self)
        requires
            block_size > 0,
        ensures
            position == Self::at(index as int, block_size as int),
            position.flat(block_size as int) == index,
            position.index_in_block < block_size,
            position.block_index == index as int / block_size as int,
    {
        proof {
            lemma_fundamental_div_mod(index as int, block_size as int);
            assert(block_size * (index as int / block_size as int) == (index as int
                / block_size as int) * block_size) by (nonlinear_arith);
        }
        BlocksIndex { block_index: index / block_size, index_in_block: index % block_size }
    }

    pub fn block_index(&self) -> (index: usize)
        ensures
            index == self.block_index,
    {
        self.block_index
    }

    pub fn index_in_block(&self) -> (index: usize)
        ensures
            index == self.index_in_block,
    {
        self.index_in_block
    }

    /// The next position in the same block.
    pub fn next_index_in_block(self) -> (position: Self)
        requires
            self.index_in_block < usize::MAX,
        ensures
            position == (BlocksIndex {
                block_index: self.block_index,
                index_in_block: (self.index_in_block + 1) as usize,
            }),
    {
        BlocksIndex { block_index: self.block_index, index_in_block: self.index_in_block + 1 }
    }

    /// The next position when every block holds `block_size` values.
    pub fn next_fixed(self, block_size: usize) -> (position: Self)
        requires
            self.index_in_block < block_size,
            self.flat(block_size as int) < usize::MAX,
        ensures
            position.flat(block_size as int) == self.flat(block_size as int) + 1,
            position.index_in_block < block_size,
    {
        proof {
            lemma_flat_bounds(self, block_size as int);
            assert((self.block_index + 1) * block_size == self.block_index * block_size
                + block_size) by (nonlinear_arith);
        }
        if self.index_in_block + 1 == block_size {
            BlocksIndex { block_index: self.block_index + 1, index_in_block: 0 }
        } else {
            BlocksIndex { block_index: self.block_index, index_in_block: self.index_in_block + 1 }
        }
    }

    pub fn next_mut_fixed(&mut self, block_size: usize)
        requires
            old(self).index_in_block < block_size,
            old(self).flat(block_size as int) < usize::MAX,
        ensures
            final(self).flat(block_size as int) == old(self).flat(block_size as int) + 1,
            final(self).index_in_block < block_size,
    {
        *self = self.next_fixed(block_size);
    }

    /// The previous position when every block holds `block_size` values.
    pub fn prev_mut_fixed(&mut self, block_size: usize)
        requires
            old(self).index_in_block < block_size,
            old(self).flat(block_size as int) > 0,
        ensures
            final(self).flat(block_size as int) == old(self).flat(block_size as int) - 1,
            final(self).index_in_block < block_size,
    {
        if self.index_in_block == 0 {
            proof {
                if self.block_index == 0 {
                    assert(0 * block_size == 0) by (nonlinear_arith);
                }
                assert((self.block_index - 1) * block_size + block_size == self.block_index
                    * block_size) by (nonlinear_arith);
            }
            *self =
            BlocksIndex { block_index: self.block_index - 1, index_in_block: block_size - 1 };
        } else {
            *self =
            BlocksIndex {
                block_index: self.block_index,
                index_in_block: self.index_in_block - 1,
            };
        }
    }

    /// The position `n` values later when every block holds `block_size` values.
    pub fn add_fixed(self, n: usize, block_size: usize) -> (position: Self)
        requires
            self.index_in_block < block_size,
            self.flat(block_size as int) + n <= usize::MAX,
        ensures
            position.flat(block_size as int) == self.flat(block_size as int) + n,
            position.index_in_block < block_size,
    {
        proof {
            lemma_flat_bounds(self, block_size as int);
        }
        let in_blocks: usize = self.block_index * block_size;
        BlocksIndex::from_index_in_fixed_block_size(
            in_blocks + self.index_in_block + n,
            block_size,
        )
    }
}

impl Default for BlocksIndex {
    /// The very first position.
    fn default() -> (position: Self)
        ensures
            position == (BlocksIndex { block_index: 0, index_in_block: 0 }),
    {
        BlocksIndex { block_index: 0, index_in_block: 0 }
    }
}

pub proof fn lemma_flat_bounds(position: BlocksIndex, block_size: int)
    requires
        0 < block_size,
    ensures
        0 <= position.block_index * block_size,
        position.block_index <= position.block_index * block_size,
{
    assert(position.block_index * block_size >= position.block_index) by (nonlinear_arith)
        requires
            block_size >= 1,
    ;
}

/// A position inside its block and the number of values before it determine each other.
pub proof fn lemma_flat_round_trip(position: BlocksIndex, block_size: int)
    requires
        position.index_in_block < block_size,
    ensures
        BlocksIndex::at(position.flat(block_size), block_size) == position,
{
    lemma_fundamental_div_mod_converse(
        position.flat(block_size),
        block_size,
        position.block_index as int,
        position.index_in_block as int,
    );
}

/// Positions inside their blocks with as many values before them are the same: so going back undoes
/// going on, and going on by `n` is going on by one `n` times.
pub proof fn law_position_is_determined(a: BlocksIndex, b: BlocksIndex, block_size: int)
    requires
        a.index_in_block < block_size,
        b.index_in_block < block_size,
        a.flat(block_size) == b.flat(block_size),
    ensures
        a == b,
{
    lemma_flat_round_trip(a, block_size);
    lemma_flat_round_trip(b, block_size);
}

/// The position of an item in blocks of `block_size` and the number of items before it determine
/// each other.
pub proof fn law_position_and_number(position: BlocksIndex, index: int, block_size: int)
    requires
        block_size > 0,
        0 <= index <= usize::MAX,
    ensures
        position.flat(block_size) == position.block_index * block_size + position.index_in_block,
        block_size <= usize::MAX ==> {
            let at = BlocksIndex::at(index, block_size);
            &&& at.block_index * block_size + at.index_in_block == index
            &&& at.index_in_block < block_size
        },
{
    lemma_fundamental_div_mod(index, block_size);
    lemma_mod_bound(index, block_size);
    let b = index / block_size;
    assert(block_size * b == b * block_size) by (nonlinear_arith);
    assert(0 <= b <= index) by (nonlinear_arith)
        requires
            0 <= b * block_size + index % block_size == index,
            0 <= index % block_size < block_size,
            block_size > 0,
    ;
}

} // verus!
