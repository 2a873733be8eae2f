//! Bytes, in blocks.

use crate::arrow_buffers::{buffer_bytes, buffer_from_bytes};
use crate::blocked_helpers::blocked_offset_buffer_builder::ascending;
use crate::blocked_helpers::layout::{
    appended, concat, lemma_appended, lemma_appended_nothing, lemma_appended_twice,
    lemma_concat_first, lemma_concat_one, lemma_concat_push,
};
use crate::blocked_helpers::offset_size::OffsetSize;
use crate::blocked_helpers::take_n_helpers::{
    after_take_n, blocks_allocated_size, used_bytes, items_of, take_n_from_blocks, valid_sizes,
    BlockBuilder,
};
use crate::collections::{collect_all, deque_at_mut, vec_allocated_size};
use crate::memory::is_queue_size;
use arrow::buffer::Buffer;
use std::collections::VecDeque;
use std::ops::Range;
use vstd::layout::size_of;
use vstd::prelude::*;
use vstd::std_specs::iter::IteratorSpec;

verus! {

impl BlockBuilder for Vec<u8> {
    type Item = u8;

    type Output = Vec<u8>;

    open spec fn items(&self) -> Seq<u8> {
        self@
    }

    open spec fn valid(&self) -> bool {
        true
    }

    open spec fn fits(items: Seq<u8>) -> bool {
        true
    }

    open spec fn bytes_of(items: Seq<u8>) -> nat {
        items.len()
    }

    open spec fn is_output(output: Vec<u8>, items: Seq<u8>) -> bool {
        output@ == items
    }

    proof fn lemma_fits_part(items: Seq<u8>, from: int, to: int) {
    }

    fn with_capacity(capacity: usize) -> (block: Self) {
        Vec::with_capacity(capacity)
    }

    fn len(&self) -> (len: usize) {
        self.as_slice().len()
    }

    fn truncate(&mut self, len: usize) {
        Vec::truncate(self, len);
    }

    fn append_range(&mut self, src: &Self, range: Range<usize>) {
        let part = vstd::slice::slice_subrange(src.as_slice(), range.start, range.end);
        let ghost before = self@;
        self.extend_from_slice(part);
        assert(self@ =~= before + part@);
    }

    fn shift_down(&mut self, offset: usize, len: usize) {
        let ghost before = self@;
        if offset > 0 {
            let mut i: usize = 0;
            while i < len
                invariant
                    self.len() == before.len(),
                    offset + len <= before.len(),
                    0 <= i <= len,
                    forall|j: int| 0 <= j < i ==> #[trigger] self@[j] == before[j + offset],
                    forall|j: int| i <= j < before.len() ==> #[trigger] self@[j] == before[j],
                decreases len - i,
            {
                let byte: u8 = self[i + offset];
                self.set(i, byte);
                i += 1;
            }
        }
        Vec::truncate(self, len);
        assert(self@ =~= before.subrange(offset as int, offset + len));
    }

    fn allocated_size(&self) -> (bytes: usize) {
        vec_allocated_size(self)
    }

    fn finish(self) -> (output: Vec<u8>) {
        self
    }
}

/// The bytes of the items at the given indexes, one item after the other. An item lies between
/// the offset at its index and the next one.
pub open spec fn bytes_at<O: OffsetSize>(
    bytes: Seq<u8>,
    offsets: Seq<O>,
    indexes: Seq<usize>,
) -> Seq<u8>
    decreases indexes.len(),
{
    if indexes.len() == 0 {
        Seq::empty()
    } else {
        let index = indexes.last() as int;
        bytes_at(bytes, offsets, indexes.drop_last()) + bytes.subrange(
            offsets[index].val(),
            offsets[index + 1].val(),
        )
    }
}

/// Collects bytes in blocks. The callers decide when a new block starts.
#[derive(Debug)]
pub struct BlockedBytesBufferBuilder {
    /// A queue, so that the first block can be handed out. There is always a block to write to.
    blocks: VecDeque<Vec<u8>>,
    len: usize,
}

impl BlockedBytesBufferBuilder {
    /// The bytes in each block, the block being written to included.
    pub closed spec fn blocks(&self) -> Seq<Seq<u8>> {
        items_of(self.blocks@)
    }

    /// All the bytes.
    pub open spec fn bytes(&self) -> Seq<u8> {
        concat(self.blocks())
    }

    pub closed spec fn wf(&self) -> bool {
        &&& self.blocks().len() > 0
        &&& self.len == self.bytes().len()
    }

    /// `after` is this builder with `items` added to its last block.
    pub open spec fn added(&self, items: Seq<u8>, after: &Self) -> bool {
        &&& after.wf()
        &&& after.blocks() == appended(false, 0, self.blocks(), items)
    }

    /// What holds of the blocks of every builder.
    pub proof fn lemma_wf(&self)
        requires
            self.wf(),
        ensures
            self.blocks().len() > 0,
            self.bytes().len() <= usize::MAX,
    {
    }

    pub fn new() -> (builder: Self)
        ensures
            builder.wf(),
            builder.blocks() == seq![Seq::<u8>::empty()],
    {
        let mut blocks: VecDeque<Vec<u8>> = VecDeque::new();
        blocks.push_back(Vec::new());
        let builder = BlockedBytesBufferBuilder { blocks, len: 0 };
        proof {
            assert(builder.blocks() =~= seq![Seq::<u8>::empty()]);
            lemma_concat_one(Seq::<u8>::empty());
        }
        builder
    }

    pub fn num_blocks(&self) -> (count: usize)
        requires
            self.wf(),
        ensures
            count == self.blocks().len(),
    {
        self.blocks.len()
    }

    /// The number of bytes.
    pub fn len(&self) -> (len: usize)
        requires
            self.wf(),
        ensures
            len == self.bytes().len(),
    {
        self.len
    }

    /// Heap bytes that the builder has allocated.
    pub fn allocated_size(&self) -> (bytes: usize)
        requires
            self.wf(),
        ensures
            is_queue_size(
                bytes,
                size_of::<Vec<u8>>(),
                used_bytes::<Vec<u8>>(self.blocks()),
            ),
    {
        blocks_allocated_size(&self.blocks)
    }

    pub fn current_block_len(&self) -> (len: usize)
        requires
            self.wf(),
        ensures
            len == self.blocks().last().len(),
    {
        self.blocks[self.blocks.len() - 1].len()
    }

    pub fn block(&self, block_index: usize) -> (block: &Vec<u8>)
        requires
            self.wf(),
            block_index < self.blocks().len(),
        ensures
            block@ == self.blocks()[block_index as int],
    {
        &self.blocks[block_index]
    }

    /// Makes room in the current block for `capacity` more bytes.
    pub fn reserve_bytes_in_current_block(&mut self, capacity: usize)
        requires
            old(self).wf(),
        ensures
            final(self).wf(),
            final(self).blocks() == old(self).blocks(),
    {
        self.reserve_capacity_in_current_block(capacity);
    }

    /// Makes room in the queue for `n` more blocks.
    pub(crate) fn reserve_blocks(&mut self, n: usize)
        requires
            old(self).wf(),
        ensures
            final(self).wf(),
            final(self).blocks() == old(self).blocks(),
    {
        self.blocks.reserve(n);
    }

    pub(crate) fn reserve_capacity_in_current_block(&mut self, capacity: usize)
        requires
            old(self).wf(),
        ensures
            final(self).wf(),
            final(self).blocks() == old(self).blocks(),
    {
        let ghost before = self.blocks();
        let current: usize = self.blocks.len() - 1;
        deque_at_mut(&mut self.blocks, current).reserve(capacity);
        assert(self.blocks() =~= before);
    }

    /// Opens a new block.
    pub fn start_new_block(&mut self)
        requires
            old(self).wf(),
        ensures
            final(self).wf(),
            final(self).blocks() == old(self).blocks().push(Seq::empty()),
    {
        let ghost before = self.blocks();
        self.blocks.push_back(Vec::new());
        proof {
            assert(self.blocks() =~= before.push(Seq::empty()));
            lemma_concat_push(before, Seq::<u8>::empty());
            assert(concat(before) + Seq::<u8>::empty() =~= concat(before));
        }
    }

    /// Adds bytes to the current block.
    pub fn extend_from_slice(&mut self, slice: &[u8])
        requires
            old(self).wf(),
            old(self).bytes().len() + slice@.len() <= usize::MAX,
        ensures
            old(self).added(slice@, final(self)),
    {
        let ghost before = self.blocks();
        let ghost last = before.last();
        let current: usize = self.blocks.len() - 1;
        deque_at_mut(&mut self.blocks, current).extend_from_slice(slice);
        self.len = self.len + slice.len();
        proof {
            assert(self.blocks@[current as int]@ =~= last + slice@);
            assert(self.blocks() =~= before.drop_last().push(last + slice@));
            lemma_appended(false, 0, before, slice@);
        }
    }

    /// Adds the bytes of all the slices that the iterator yields to the current block.
    pub fn extend<'a, I: Iterator<Item = &'a [u8]>>(&mut self, iter: I)
        requires
            old(self).wf(),
            iter.obeys_prophetic_iter_laws(),
            iter.decrease() is Some,
            old(self).bytes().len() + concat(slices(iter.remaining())).len() <= usize::MAX,
        ensures
            old(self).added(concat(slices(iter.remaining())), final(self)),
    {
        let parts: Vec<&'a [u8]> = collect_all(iter);
        let ghost before = *self;
        let ghost all = slices(parts@);
        let mut i: usize = 0;
        proof {
            assert(all.take(0) =~= Seq::<Seq<u8>>::empty());
            lemma_appended_none(self.blocks());
        }
        while i < parts.len()
            invariant
                before.wf(),
                before.added(concat(all.take(i as int)), self),
                all == slices(parts@),
                0 <= i <= parts@.len(),
                before.bytes().len() + concat(all).len() <= usize::MAX,
            decreases parts@.len() - i,
        {
            let ghost done = concat(all.take(i as int));
            proof {
                lemma_appended(false, 0, before.blocks(), done);
                assert(all.take(i + 1).drop_last() =~= all.take(i as int));
                lemma_concat_prefix(all, i + 1);
                lemma_appended_more(before.blocks(), done, all[i as int]);
            }
            self.extend_from_slice(parts[i]);
            i += 1;
        }
        assert(all.take(i as int) =~= all);
    }

    /// Adds the bytes of the items at the given indexes to the current block.
    pub fn extends_bytes_from_offsets_indexes_in_current_block<O: OffsetSize>(
        &mut self,
        bytes: &[u8],
        offset_buffer_slice: &[O],
        indexes: &[usize],
    )
        requires
            old(self).wf(),
            ascending(offset_buffer_slice@),
            offset_buffer_slice@.last().val() <= bytes@.len(),
            forall|i: int|
                0 <= i < indexes@.len() ==> #[trigger] indexes@[i] + 1 < offset_buffer_slice@.len(),
            old(self).bytes().len() + bytes_at(bytes@, offset_buffer_slice@, indexes@).len()
                <= usize::MAX,
        ensures
            old(self).added(bytes_at(bytes@, offset_buffer_slice@, indexes@), final(self)),
    {
        let ghost before = *self;
        let ghost offsets = offset_buffer_slice@;
        let mut i: usize = 0;
        proof {
            assert(indexes@.take(0) =~= Seq::<usize>::empty());
            lemma_appended_none(self.blocks());
        }
        while i < indexes.len()
            invariant
                before.wf(),
                offsets == offset_buffer_slice@,
                ascending(offsets),
                offsets.last().val() <= bytes@.len(),
                forall|i: int| 0 <= i < indexes@.len() ==> #[trigger] indexes@[i] + 1 < offsets.len(),
                before.added(bytes_at(bytes@, offsets, indexes@.take(i as int)), self),
                0 <= i <= indexes@.len(),
                before.bytes().len() + bytes_at(bytes@, offsets, indexes@).len() <= usize::MAX,
            decreases indexes@.len() - i,
        {
            let index: usize = indexes[i];
            let ghost done = bytes_at(bytes@, offsets, indexes@.take(i as int));
            proof {
                assert(indexes@[i as int] + 1 < offset_buffer_slice.len());
                assert(offsets[0].val() <= offsets[index as int].val());
                assert(offsets[index as int].val() <= offsets[index + 1].val());
                assert(offsets[index + 1].val() <= offsets[offsets.len() - 1].val());
                assert(bytes@.len() <= usize::MAX) by {
                    assert(bytes.len() == bytes@.len());
                }
                assert(indexes@.take(i + 1).drop_last() =~= indexes@.take(i as int));
                lemma_appended(false, 0, before.blocks(), done);
                lemma_bytes_at_prefix(bytes@, offsets, indexes@, i + 1);
            }
            let from: usize = offset_buffer_slice[index].as_usize();
            let to: usize = offset_buffer_slice[index + 1].as_usize();
            let part = vstd::slice::slice_subrange(bytes, from, to);
            proof {
                lemma_appended_more(before.blocks(), done, part@);
            }
            self.extend_from_slice(part);
            i += 1;
        }
        assert(indexes@.take(i as int) =~= indexes@);
    }

    /// `after` is this builder without its first block.
    pub open spec fn without_first_block(&self, after: &Self) -> bool {
        &&& after.wf()
        &&& after.blocks() == if self.blocks().len() == 1 {
            seq![Seq::<u8>::empty()]
        } else {
            self.blocks().skip(1)
        }
    }

    /// Takes the first block. There always is one, though it may be empty.
    pub fn take_block(&mut self) -> (taken: Option<Vec<u8>>)
        requires
            old(self).wf(),
        ensures
            taken matches Some(block) && block@ == old(self).blocks()[0],
            old(self).without_first_block(final(self)),
    {
        let ghost before = self.blocks();
        proof {
            lemma_concat_first(before);
        }
        match self.blocks.pop_front() {
            Some(block) => {
                if self.blocks.len() == 0 {
                    self.blocks.push_back(Vec::new());
                    proof {
                        assert(before.skip(1) =~= Seq::<Seq<u8>>::empty());
                        assert(self.blocks() =~= seq![Seq::<u8>::empty()]);
                        lemma_concat_one(Seq::<u8>::empty());
                    }
                } else {
                    assert(self.blocks() =~= before.skip(1));
                }
                self.len = self.len - block.len();
                Some(block)
            },
            None => None,
        }
    }

    /// Takes the first block as a buffer.
    pub fn take_block_finished(&mut self) -> (taken: Option<Buffer>)
        requires
            old(self).wf(),
        ensures
            taken matches Some(buffer) && buffer_bytes(buffer) == old(self).blocks()[0],
            old(self).without_first_block(final(self)),
    {
        match self.take_block() {
            Some(block) => Some(buffer_from_bytes(block)),
            None => None,
        }
    }

    /// Takes all the blocks.
    pub fn take_all(&mut self) -> (taken: Vec<Vec<u8>>)
        requires
            old(self).wf(),
        ensures
            taken@.len() == old(self).blocks().len(),
            forall|i: int|
                0 <= i < taken@.len() ==> (#[trigger] taken@[i])@ == old(self).blocks()[i],
            final(self).wf(),
            final(self).blocks() == seq![Seq::<u8>::empty()],
    {
        let ghost before = *self;
        let mut taken: Vec<Vec<u8>> = Vec::new();
        let mut blocks: VecDeque<Vec<u8>> = VecDeque::new();
        blocks.push_back(Vec::new());
        core::mem::swap(&mut self.blocks, &mut blocks);
        self.len = 0;
        proof {
            assert(self.blocks() =~= seq![Seq::<u8>::empty()]);
            lemma_concat_one(Seq::<u8>::empty());
        }
        while blocks.len() > 0
            invariant
                blocks@.len() + taken@.len() == before.blocks@.len(),
                blocks@ == before.blocks@.skip(taken@.len() as int),
                forall|i: int|
                    0 <= i < taken@.len() ==> (#[trigger] taken@[i])@ == before.blocks()[i],
            decreases blocks@.len(),
        {
            let ghost at = taken@.len() as int;
            if let Some(block) = blocks.pop_front() {
                assert(block == before.blocks@[at]);
                taken.push(block);
            }
        }
        taken
    }

    /// Takes the first `n` bytes, which must lie in the first block, and gives the others the
    /// block sizes that the iterator yields. Together with `n` they add up to the number of
    /// bytes.
    pub fn take_n<I: Iterator<Item = usize>>(
        &mut self,
        n: usize,
        adjusted_block_size_iter: I,
    ) -> (taken: Vec<u8>)
        requires
            old(self).wf(),
            adjusted_block_size_iter.obeys_prophetic_iter_laws(),
            adjusted_block_size_iter.decrease() is Some,
            n <= old(self).blocks()[0].len(),
            valid_sizes(old(self).blocks(), n as nat, adjusted_block_size_iter.remaining()),
        ensures
            taken@ == old(self).bytes().take(n as int),
            final(self).wf(),
            final(self).blocks() == after_take_n(
                old(self).blocks(),
                n as nat,
                adjusted_block_size_iter.remaining(),
            ),
            final(self).bytes() == old(self).bytes().skip(n as int),
    {
        let sizes: Vec<usize> = collect_all(adjusted_block_size_iter);
        proof {
            lemma_concat_first(self.blocks());
            assert(self.bytes().take(n as int) =~= self.blocks()[0].take(n as int));
        }
        let (taken, layout) = take_n_from_blocks(&mut self.blocks, self.len, n, sizes.as_slice());
        self.len = layout.len;
        taken
    }
}

impl Default for BlockedBytesBufferBuilder {
    fn default() -> (builder: Self)
        ensures
            builder.wf(),
            builder.blocks() == seq![Seq::<u8>::empty()],
    {
        BlockedBytesBufferBuilder::new()
    }
}

/// The contents of the slices.
pub open spec fn slices(parts: Seq<&[u8]>) -> Seq<Seq<u8>> {
    Seq::new(parts.len(), |i: int| parts[i]@)
}

proof fn lemma_appended_none(blocks: Seq<Seq<u8>>)
    requires
        blocks.len() > 0,
    ensures
        appended(false, 0, blocks, Seq::empty()) == blocks,
{
    lemma_appended_nothing(false, 0, blocks);
}

proof fn lemma_appended_more(blocks: Seq<Seq<u8>>, a: Seq<u8>, b: Seq<u8>)
    requires
        blocks.len() > 0,
    ensures
        appended(false, 0, appended(false, 0, blocks, a), b) == appended(false, 0, blocks, a + b),
{
    lemma_appended_twice(false, 0, blocks, a, b);
}

proof fn lemma_concat_prefix<T>(blocks: Seq<Seq<T>>, k: int)
    requires
        0 <= k <= blocks.len(),
    ensures
        concat(blocks.take(k)).len() <= concat(blocks).len(),
    decreases blocks.len() - k,
{
    if k == blocks.len() {
        assert(blocks.take(k) =~= blocks);
    } else {
        lemma_concat_prefix(blocks, k + 1);
        assert(blocks.take(k + 1).drop_last() =~= blocks.take(k));
    }
}

proof fn lemma_bytes_at_prefix<O: OffsetSize>(
    bytes: Seq<u8>,
    offsets: Seq<O>,
    indexes: Seq<usize>,
    k: int,
)
    requires
        0 <= k <= indexes.len(),
    ensures
        bytes_at(bytes, offsets, indexes.take(k)).len() <= bytes_at(bytes, offsets, indexes).len(),
    decreases indexes.len() - k,
{
    if k == indexes.len() {
        assert(indexes.take(k) =~= indexes);
    } else {
        lemma_bytes_at_prefix(bytes, offsets, indexes, k + 1);
        assert(indexes.take(k + 1).drop_last() =~= indexes.take(k));
    }
}

} // verus!
