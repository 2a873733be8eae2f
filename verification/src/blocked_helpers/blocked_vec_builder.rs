//! Values in blocks that are vectors.

use crate::blocked_helpers::blocked_custom_input_builder::{
    Block, BlockProvider, BlockProviderFinish, BlockWithSlice, BlockedCustomInputBuilder,
    IndexedBlock,
};
use crate::collections::vec_allocated_size;
use std::marker::PhantomData;
use std::ops::{Deref, DerefMut};
use vstd::layout::size_of;
use vstd::prelude::*;
use vstd::std_specs::iter::IteratorSpec;

verus! {

/// Collects values in vectors, block by block.
#[derive(Debug)]
pub struct BlockedVecBuilder<const FIXED_BLOCK_SIZING: bool, T>(
    pub BlockedCustomInputBuilder<FIXED_BLOCK_SIZING, VecBlockProvider<T>>,
);

impl<const FIXED_BLOCK_SIZING: bool, T> BlockedVecBuilder<FIXED_BLOCK_SIZING, T> {
    pub fn new(block_size: usize) -> (builder: Self)
        requires
            FIXED_BLOCK_SIZING ==> block_size > 0,
        ensures
            builder.0.wf(),
            builder.0.blocks() == seq![Seq::<T>::empty()],
            !builder.0.pending(),
            builder.0.cap() == block_size,
    {
        BlockedVecBuilder(BlockedCustomInputBuilder::new(block_size, VecBlockProvider::default()))
    }
}

impl<const FIXED_BLOCK_SIZING: bool, T> Deref for BlockedVecBuilder<FIXED_BLOCK_SIZING, T> {
    type Target = BlockedCustomInputBuilder<FIXED_BLOCK_SIZING, VecBlockProvider<T>>;

    fn deref(&self) -> (builder: &Self::Target)
        ensures
            *builder == self.0,
    {
        &self.0
    }
}

impl<const FIXED_BLOCK_SIZING: bool, T> DerefMut for BlockedVecBuilder<FIXED_BLOCK_SIZING, T> {
    fn deref_mut(&mut self) -> (builder: &mut Self::Target)
        ensures
            *builder == old(self).0,
            final(self).0 == *final(builder),
    {
        &mut self.0
    }
}

/// Makes vectors.
#[derive(Debug)]
pub struct VecBlockProvider<T>(PhantomData<T>);

impl<T> Default for VecBlockProvider<T> {
    fn default() -> Self {
        VecBlockProvider(PhantomData)
    }
}

impl<T> BlockProvider for VecBlockProvider<T> {
    type Block = Vec<T>;

    fn new_block(&self) -> (block: Vec<T>) {
        Vec::new()
    }
}

impl<T> BlockProviderFinish for VecBlockProvider<T> {
    type FinishedBlock = Vec<T>;

    open spec fn is_finished(finished: Vec<T>, items: Seq<T>) -> bool {
        finished@ == items
    }

    fn finish(&self, block: Vec<T>) -> (finished: Vec<T>) {
        block
    }
}

impl<T> Block for Vec<T> {
    type Item = T;

    open spec fn items(&self) -> Seq<T> {
        self@
    }

    open spec fn bytes_of(items: Seq<T>) -> nat {
        size_of::<T>() * items.len()
    }

    fn allocated_size(&self) -> (bytes: usize) {
        vec_allocated_size(self)
    }

    fn push(&mut self, item: T) {
        Vec::push(self, item);
    }

    fn extend<I: Iterator<Item = T>>(&mut self, iter: I) {
        let mut iter = iter;
        let ghost before = self@;
        let ghost all = iter.remaining();
        loop
            invariant
                iter.obeys_prophetic_iter_laws(),
                iter.decrease() is Some,
                self@ + iter.remaining() == before + all,
            ensures
                self@ == before + all,
            decreases iter.decrease()->0,
        {
            match iter.next() {
                Some(item) => Vec::push(self, item),
                None => break,
            }
        }
    }

    fn len(&self) -> (len: usize) {
        Vec::len(self)
    }

    fn is_empty(&self) -> (empty: bool) {
        Vec::is_empty(self)
    }
}

impl<T: Clone> BlockWithSlice for Vec<T> {
    open spec fn stores(given: T, stored: T) -> bool {
        cloned(given, stored)
    }

    fn extend_from_slice(&mut self, slice: &[T]) {
        let ghost before = self@;
        Vec::extend_from_slice(self, slice);
        assert(self@.take(before.len() as int) =~= before);
    }

    fn append_n(&mut self, item: T, n: usize) {
        let ghost before = self@;
        let len: usize = Vec::len(self);
        self.resize(len + n, item);
        assert(self@.take(before.len() as int) =~= before);
    }
}

impl<T> IndexedBlock for Vec<T> {
    fn item(&self, index: usize) -> (item: &T) {
        &self[index]
    }

    fn item_mut(&mut self, index: usize) -> (item: &mut T) {
        &mut self[index]
    }
}

} // verus!
