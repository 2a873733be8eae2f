//! Offsets of variable-length items, in blocks.

use crate::blocked_helpers::layout::{
    all_full_but_last, appended, blocks_needed, chunks, concat, count_blocks_needed, lemma_appended,
    lemma_appended_nothing, lemma_appended_step, lemma_appended_within, lemma_chunks,
    lemma_concat_first, lemma_concat_one, lemma_full_is_chunks, lemma_split_by, valid_blocks,
};
use crate::blocked_helpers::offset_block::OffsetBlock;
use crate::blocked_helpers::offset_size::{
    all_non_negative, is_offsets_of, lemma_offset_is_total, lemma_total_part, lemma_total_push,
    lemma_valid_offsets, lengths_fit, lengths_of, total, OffsetSize,
};
use crate::blocked_helpers::take_n_helpers::{
    after_take_n, all_fit, all_valid, blocks_allocated_size, used_bytes, items_of,
    lemma_split_by_own_sizes, redistribute_blocks, shift_fixed_blocks, valid_sizes, BlockBuilder,
};
use crate::collections::{collect_all, deque_at_mut};
use crate::groups_accumulator::BlocksIndex;
use crate::memory::is_queue_size;
use std::collections::VecDeque;
use std::ops::Index;
use vstd::layout::size_of;
use vstd::prelude::*;
use vstd::std_specs::iter::IteratorSpec;

verus! {

/// Builds the offsets of variable-length items, block by block.
///
/// When `FIXED_BLOCK_SIZING` is true every block is closed once it holds the number of items
/// that the builder was made with; otherwise the callers decide when a new block starts.
#[derive(Debug)]
pub struct BlockedOffsetBufferBuilder<const FIXED_BLOCK_SIZING: bool, O: OffsetSize> {
    /// A queue, so that the first block can be handed out. There is always a block to write to.
    blocks: VecDeque<OffsetBlock<O>>,
    /// The number of items in a full block, one less than its number of offsets.
    items_per_block: usize,
    /// The number of items, not of offsets.
    len: usize,
    /// The last block was only opened to have one to write to: while nothing goes into it,
    /// it is not one of the blocks that can be taken.
    pending_block: bool,
}

/// The numbers as mathematical integers.
pub open spec fn as_ints(values: Seq<usize>) -> Seq<int> {
    Seq::new(values.len(), |i: int| values[i] as int)
}

/// `n` times the same length.
pub open spec fn repeated(length: int, n: nat) -> Seq<int> {
    Seq::new(n, |i: int| length)
}

/// The lengths of the items at the given indexes, an item lying between the offset at its
/// index and the next one.
pub open spec fn lengths_at<O: OffsetSize>(offsets: Seq<O>, indexes: Seq<usize>) -> Seq<int> {
    Seq::new(
        indexes.len(),
        |i: int| offsets[indexes[i] + 1].val() - offsets[indexes[i] as int].val(),
    )
}

/// Offsets that may start anywhere but never decrease.
pub open spec fn never_decreasing<O: OffsetSize>(offsets: Seq<O>) -> bool {
    &&& offsets.len() > 0
    &&& forall|i: int, j: int|
        0 <= i <= j < offsets.len() ==> (#[trigger] offsets[i]).val() <= (
        #[trigger] offsets[j]).val()
}

/// Offsets of places: they may start at any place but never decrease.
pub open spec fn ascending<O: OffsetSize>(offsets: Seq<O>) -> bool {
    &&& never_decreasing(offsets)
    &&& offsets[0].val() >= 0
}

impl<const FIXED_BLOCK_SIZING: bool, O: OffsetSize> BlockedOffsetBufferBuilder<
    FIXED_BLOCK_SIZING,
    O,
> {
    /// The lengths of the items in each block, the block being written to included.
    pub closed spec fn lengths(&self) -> Seq<Seq<int>> {
        items_of(self.blocks@)
    }

    /// The last block is empty and not yet one of those that can be taken.
    pub closed spec fn pending(&self) -> bool {
        self.pending_block
    }

    /// The number of items in a full block.
    pub closed spec fn cap(&self) -> nat {
        self.items_per_block as nat
    }

    /// The lengths of all the items.
    pub open spec fn items(&self) -> Seq<int> {
        concat(self.lengths())
    }

    /// There is a block to take.
    pub open spec fn has_block(&self) -> bool {
        !self.pending() || self.lengths().len() > 1
    }

    pub closed spec fn wf(&self) -> bool {
        &&& all_valid(self.blocks@)
        &&& valid_blocks(FIXED_BLOCK_SIZING, self.cap(), self.lengths())
        &&& self.len == self.items().len()
        &&& self.pending() ==> self.lengths().last().len() == 0
        &&& FIXED_BLOCK_SIZING ==> self.items_per_block < usize::MAX
    }

    /// The blocks once `items` are added.
    pub open spec fn lengths_with(&self, items: Seq<int>) -> Seq<Seq<int>> {
        appended(FIXED_BLOCK_SIZING, self.cap(), self.lengths(), items)
    }

    /// The items can be added: they can be counted, and in no block do the offsets outgrow
    /// their type.
    pub open spec fn can_add(&self, items: Seq<int>) -> bool {
        &&& self.items().len() + items.len() <= usize::MAX
        &&& all_fit::<OffsetBlock<O>>(self.lengths_with(items))
    }

    /// `after` is this builder with `items` added behind the others.
    pub open spec fn added(&self, items: Seq<int>, after: &Self) -> bool {
        &&& after.wf()
        &&& after.cap() == self.cap()
        &&& after.lengths() == self.lengths_with(items)
    }

    /// `after` is this builder with `items` added behind the others. If there are any, the last
    /// block is pending exactly if it was opened because the one before is full.
    pub open spec fn lengthened(&self, items: Seq<int>, after: &Self) -> bool {
        &&& self.added(items, after)
        &&& items.len() > 0 ==> after.pending() == (FIXED_BLOCK_SIZING
            && after.lengths().last().len() == 0)
    }

    /// `after` is this builder with the lengths between `offsets` added.
    pub open spec fn extended_by_offsets(&self, offsets: Seq<O>, after: &Self) -> bool {
        &&& self.lengthened(lengths_of(offsets), after)
        &&& after.pending() == if !FIXED_BLOCK_SIZING {
            false
        } else if offsets.len() == 1 {
            self.pending()
        } else {
            after.lengths().last().len() == 0
        }
    }

    /// What holds of the blocks of every builder.
    pub proof fn lemma_wf(&self)
        requires
            self.wf(),
        ensures
            valid_blocks(FIXED_BLOCK_SIZING, self.cap(), self.lengths()),
            all_fit::<OffsetBlock<O>>(self.lengths()),
            self.pending() ==> self.lengths().last().len() == 0,
            self.items().len() <= usize::MAX,
    {
        assert forall|i: int| 0 <= i < self.lengths().len() implies OffsetBlock::<O>::fits(
            #[trigger] self.lengths()[i],
        ) by {
            lemma_valid_offsets(self.blocks@[i].offsets());
        }
    }

    pub fn new(block_size: usize) -> (builder: Self)
        requires
            FIXED_BLOCK_SIZING ==> 0 < block_size < usize::MAX,
        ensures
            builder.wf(),
            builder.lengths() == seq![Seq::<int>::empty()],
            !builder.pending(),
            builder.cap() == block_size,
    {
        let mut blocks: VecDeque<OffsetBlock<O>> = VecDeque::new();
        blocks.push_back(OffsetBlock::new());
        let builder = BlockedOffsetBufferBuilder {
            blocks,
            items_per_block: block_size,
            len: 0,
            pending_block: false,
        };
        proof {
            assert(builder.lengths() =~= seq![Seq::<int>::empty()]);
            lemma_concat_one(Seq::<int>::empty());
        }
        builder
    }

    /// The number of items.
    pub fn len(&self) -> (len: usize)
        requires
            self.wf(),
        ensures
            len == self.items().len(),
    {
        self.len
    }

    /// The number of items in the current block.
    pub fn current_block_len(&self) -> (len: usize)
        requires
            self.wf(),
        ensures
            len == self.lengths().last().len(),
    {
        self.blocks[self.blocks.len() - 1].len()
    }

    pub fn current_block_index(&self) -> (index: usize)
        requires
            self.wf(),
        ensures
            index == self.lengths().len() - 1,
    {
        self.blocks.len() - 1
    }

    /// The end of the last item of the current block.
    pub fn last_offset(&self) -> (offset: O)
        requires
            self.wf(),
        ensures
            offset.val() == total(self.lengths().last()),
    {
        self.blocks[self.blocks.len() - 1].last_offset()
    }

    /// Opens a new block. It counts as a block only once something goes into it, and until then no
    /// other can be opened.
    pub fn start_new_block(&mut self)
        requires
            old(self).wf(),
            !old(self).pending(),
        ensures
            final(self).wf(),
            final(self).cap() == old(self).cap(),
            final(self).lengths() == old(self).lengths().push(Seq::empty()),
            final(self).pending(),
    {
        self.open_block();
    }

    fn open_block(&mut self)
        requires
            all_valid(old(self).blocks@),
            old(self).len == old(self).items().len(),
            FIXED_BLOCK_SIZING ==> {
                &&& 0 < old(self).items_per_block < usize::MAX
                &&& forall|i: int|
                    0 <= i < old(self).lengths().len() ==> (
                    #[trigger] old(self).lengths()[i]).len() <= old(self).cap()
            },
        ensures
            final(self).wf(),
            final(self).cap() == old(self).cap(),
            final(self).lengths() == old(self).lengths().push(Seq::empty()),
            final(self).pending(),
    {
        let ghost before = self.lengths();
        self.blocks.push_back(OffsetBlock::new());
        self.pending_block = true;
        proof {
            assert(self.lengths() =~= before.push(Seq::empty()));
            assert(self.lengths().drop_last() =~= before);
            assert(concat(before) + Seq::<int>::empty() =~= concat(before));
        }
    }

    /// Counts `added` items that were put into the current block, and opens a new block if
    /// they filled it. Returns whether they did.
    fn count_added(&mut self, added: usize, Ghost(before): Ghost<Self>, Ghost(items): Ghost<
        Seq<int>,
    >) -> (finished_block: bool)
        requires
            before.wf(),
            items.len() == added,
            before.items().len() + added <= usize::MAX,
            FIXED_BLOCK_SIZING ==> before.lengths().last().len() + added <= before.cap(),
            all_valid(old(self).blocks@),
            old(self).items_per_block == before.items_per_block,
            old(self).len == before.len,
            old(self).pending_block == before.pending_block,
            old(self).lengths() == before.lengths().update(
                before.lengths().len() - 1,
                before.lengths().last() + items,
            ),
        ensures
            before.added(items, final(self)),
            finished_block == (FIXED_BLOCK_SIZING && before.lengths().last().len() + added
                == before.cap()),
            final(self).pending() == finished_block,
    {
        let ghost grown = self.lengths();
        proof {
            lemma_appended_within(FIXED_BLOCK_SIZING, before.cap(), before.lengths(), items);
            lemma_appended(FIXED_BLOCK_SIZING, before.cap(), before.lengths(), items);
            assert(grown.drop_last() =~= before.lengths().drop_last());
            assert(concat(grown) =~= before.items() + items);
        }
        self.len = self.len + added;
        self.pending_block = false;
        if FIXED_BLOCK_SIZING && self.blocks[self.blocks.len() - 1].len() == self.items_per_block {
            self.open_block();
            true
        } else {
            false
        }
    }

    /// Adds an item that ends at `next_offset_in_block`. Returns whether the block is full now.
    pub fn push_next_offset_in_block(&mut self, next_offset_in_block: O) -> (finished_block: bool)
        requires
            old(self).wf(),
            old(self).items().len() < usize::MAX,
            total(old(self).lengths().last()) <= next_offset_in_block.val(),
        ensures
            old(self).lengthened(
                seq![next_offset_in_block.val() - total(old(self).lengths().last())],
                final(self),
            ),
            finished_block == (FIXED_BLOCK_SIZING && old(self).lengths().last().len() + 1 == old(self).cap()),
            final(self).pending() == finished_block,
    {
        let ghost before = *self;
        let ghost last = before.lengths().last();
        let ghost length = next_offset_in_block.val() - total(last);
        let ghost items = seq![length];
        let current: usize = self.blocks.len() - 1;
        deque_at_mut(&mut self.blocks, current).push_offset(next_offset_in_block);
        proof {
            assert(last + seq![length] =~= last.push(length));
            assert(self.lengths() =~= before.lengths().update(current as int, last + seq![length]));
        }
        self.count_added(1, Ghost(before), Ghost(items))
    }

    /// Adds an item of the given length. Returns whether the block is full now.
    pub fn push_length(&mut self, length: usize) -> (finished_block: bool)
        requires
            old(self).wf(),
            old(self).items().len() < usize::MAX,
            total(old(self).lengths().last()) + length <= O::max_offset(),
        ensures
            old(self).lengthened(seq![length as int], final(self)),
            finished_block == (FIXED_BLOCK_SIZING && old(self).lengths().last().len() + 1 == old(self).cap()),
            final(self).pending() == finished_block,
    {
        let ghost before = *self;
        let ghost last = before.lengths().last();
        let ghost items = seq![length as int];
        let current: usize = self.blocks.len() - 1;
        proof {
            lemma_valid_offsets(self.blocks@[current as int].offsets());
        }
        deque_at_mut(&mut self.blocks, current).push_length(O::usize_as(length));
        proof {
            assert(last + seq![length as int] =~= last.push(length as int));
            assert(self.lengths() =~= before.lengths().update(
                current as int,
                last + seq![length as int],
            ));
        }
        self.count_added(1, Ghost(before), Ghost(items))
    }

    /// How many items the current block still has room for.
    pub(crate) fn current_block_remaining_len(&self) -> (remaining: usize)
        requires
            self.wf(),
            FIXED_BLOCK_SIZING,
        ensures
            remaining == self.cap() - self.lengths().last().len(),
            remaining > 0,
    {
        self.items_per_block - self.blocks[self.blocks.len() - 1].len()
    }

    /// Makes room in the queue for `n` more blocks.
    pub(crate) fn reserve_blocks(&mut self, n: usize)
        requires
            old(self).wf(),
        ensures
            final(self).wf(),
            final(self).cap() == old(self).cap(),
            final(self).lengths() == old(self).lengths(),
            final(self).pending() == old(self).pending(),
    {
        self.blocks.reserve(n);
    }

    /// Adds items of the given lengths to the current block. Returns whether it is full now.
    ///
    /// Unless `should_mark_empty`, adding nothing does not make a pending block one that can
    /// be taken.
    pub(crate) fn extend_length_in_block(
        &mut self,
        lengths: &[usize],
        should_mark_empty: bool,
    ) -> (finished_block: bool)
        requires
            old(self).wf(),
            old(self).items().len() + lengths@.len() <= usize::MAX,
            FIXED_BLOCK_SIZING ==> old(self).lengths().last().len() + lengths@.len() <= old(self).cap(),
            lengths_fit::<O>(old(self).lengths().last() + as_ints(lengths@)),
        ensures
            old(self).added(as_ints(lengths@), final(self)),
            finished_block == (FIXED_BLOCK_SIZING && old(self).lengths().last().len()
                + lengths@.len() == old(self).cap()),
            final(self).pending() == if lengths@.len() == 0 && !should_mark_empty {
                old(self).pending()
            } else {
                finished_block
            },
    {
        let ghost before = *self;
        let ghost last = before.lengths().last();
        let ghost items = as_ints(lengths@);
        let current: usize = self.blocks.len() - 1;
        let mut i: usize = 0;
        proof {
            assert(last + items.take(0) =~= last);
            assert(self.lengths() =~= before.lengths().update(
                current as int,
                last + items.take(0),
            ));
        }
        while i < lengths.len()
            invariant
                before.wf(),
                all_valid(self.blocks@),
                self.items_per_block == before.items_per_block,
                self.len == before.len,
                self.pending_block == before.pending_block,
                0 <= i <= lengths@.len(),
                items == as_ints(lengths@),
                last == before.lengths().last(),
                lengths_fit::<O>(last + items),
                current == before.lengths().len() - 1,
                self.lengths() == before.lengths().update(
                    current as int,
                    last + items.take(i as int),
                ),
            decreases lengths@.len() - i,
        {
            let ghost grown = last + items.take(i as int);
            proof {
                assert(self.lengths()[current as int] == grown);
                assert(self.lengths().len() == self.blocks@.len());
                lemma_total_part(last + items, 0, last.len() + i + 1);
                assert((last + items).subrange(0, last.len() + i + 1) =~= grown.push(
                    items[i as int],
                ));
                lemma_total_push(grown, items[i as int]);
                lemma_total_part(last + items, 0, last.len() + i);
                assert((last + items).subrange(0, last.len() + i) =~= grown);
            }
            let ghost now = self.lengths();
            deque_at_mut(&mut self.blocks, current).push_length(O::usize_as(lengths[i]));
            proof {
                assert(grown.push(items[i as int]) =~= last + items.take(i + 1));
                assert(self.lengths() =~= now.update(current as int, grown.push(items[i as int])));
                assert(self.lengths() =~= before.lengths().update(
                    current as int,
                    last + items.take(i + 1),
                ));
            }
            i += 1;
        }
        assert(items.take(i as int) =~= items);
        if lengths.len() > 0 || should_mark_empty {
            self.count_added(lengths.len(), Ghost(before), Ghost(items))
        } else {
            proof {
                assert(last + items =~= last);
                assert(self.lengths() =~= before.lengths());
                lemma_appended_nothing(FIXED_BLOCK_SIZING, before.cap(), before.lengths());
                assert(items =~= Seq::<int>::empty());
            }
            false
        }
    }

    /// Adds the items that lie between consecutive offsets to the current block.
    pub(crate) fn extends_length_from_offsets_in_current_block(
        &mut self,
        offset_buffer_slice: &[O],
    ) -> (finished_block: bool)
        requires
            old(self).wf(),
            never_decreasing(offset_buffer_slice@),
            old(self).items().len() + offset_buffer_slice@.len() - 1 <= usize::MAX,
            FIXED_BLOCK_SIZING ==> old(self).lengths().last().len() + offset_buffer_slice@.len() - 1
                <= old(self).cap(),
            lengths_fit::<O>(old(self).lengths().last() + lengths_of(offset_buffer_slice@)),
        ensures
            old(self).added(lengths_of(offset_buffer_slice@), final(self)),
            finished_block == (FIXED_BLOCK_SIZING && old(self).lengths().last().len()
                + offset_buffer_slice@.len() - 1 == old(self).cap()),
            final(self).pending() == finished_block,
    {
        let ghost before = *self;
        let ghost last = before.lengths().last();
        let ghost items = lengths_of(offset_buffer_slice@);
        let current: usize = self.blocks.len() - 1;
        let mut i: usize = 1;
        proof {
            assert(last + items.take(0) =~= last);
            assert(self.lengths() =~= before.lengths().update(
                current as int,
                last + items.take(0),
            ));
        }
        while i < offset_buffer_slice.len()
            invariant
                before.wf(),
                all_valid(self.blocks@),
                self.items_per_block == before.items_per_block,
                self.len == before.len,
                self.pending_block == before.pending_block,
                1 <= i <= offset_buffer_slice@.len(),
                never_decreasing(offset_buffer_slice@),
                items == lengths_of(offset_buffer_slice@),
                last == before.lengths().last(),
                lengths_fit::<O>(last + items),
                current == before.lengths().len() - 1,
                self.lengths() == before.lengths().update(
                    current as int,
                    last + items.take(i - 1),
                ),
            decreases offset_buffer_slice@.len() - i,
        {
            let ghost grown = last + items.take(i - 1);
            let ghost length = items[i - 1];
            proof {
                assert(self.lengths()[current as int] == grown);
                assert(self.lengths().len() == self.blocks@.len());
                lemma_total_part(last + items, 0, last.len() + i);
                assert((last + items).subrange(0, last.len() + i) =~= grown.push(length));
                lemma_total_push(grown, length);
                assert(offset_buffer_slice@[i - 1].val() <= offset_buffer_slice@[i as int].val());
                self.blocks@[current as int].lemma_total_non_negative();
            }
            let length = offset_buffer_slice[i].minus(offset_buffer_slice[i - 1]);
            let ghost now = self.lengths();
            deque_at_mut(&mut self.blocks, current).push_length(length);
            proof {
                assert(grown.push(items[i - 1]) =~= last + items.take(i as int));
                assert(self.lengths() =~= now.update(current as int, grown.push(items[i - 1])));
                assert(self.lengths() =~= before.lengths().update(
                    current as int,
                    last + items.take(i as int),
                ));
            }
            i += 1;
        }
        assert(items.take(i - 1) =~= items);
        self.count_added(offset_buffer_slice.len() - 1, Ghost(before), Ghost(items))
    }

    /// Adds the items at the given indexes of an offset buffer to the current block.
    fn extends_length_from_offsets_indexes_in_current_block(
        &mut self,
        offset_buffer_slice: &[O],
        indexes: &[usize],
    ) -> (added_items: usize)
        requires
            old(self).wf(),
            never_decreasing(offset_buffer_slice@),
            indexes@.len() > 0,
            forall|i: int|
                0 <= i < indexes@.len() ==> #[trigger] indexes@[i] + 1 < offset_buffer_slice@.len(),
            old(self).items().len() + indexes@.len() <= usize::MAX,
            FIXED_BLOCK_SIZING ==> old(self).lengths().last().len() + indexes@.len() <= old(self).cap(),
            lengths_fit::<O>(
                old(self).lengths().last() + lengths_at(offset_buffer_slice@, indexes@),
            ),
        ensures
            old(self).added(lengths_at(offset_buffer_slice@, indexes@), final(self)),
            added_items == indexes@.len(),
            final(self).pending() == (FIXED_BLOCK_SIZING && old(self).lengths().last().len()
                + indexes@.len() == old(self).cap()),
    {
        let ghost before = *self;
        let ghost last = before.lengths().last();
        let ghost items = lengths_at(offset_buffer_slice@, indexes@);
        let current: usize = self.blocks.len() - 1;
        let mut i: usize = 0;
        proof {
            assert(last + items.take(0) =~= last);
            assert(self.lengths() =~= before.lengths().update(
                current as int,
                last + items.take(0),
            ));
        }
        while i < indexes.len()
            invariant
                before.wf(),
                all_valid(self.blocks@),
                self.items_per_block == before.items_per_block,
                self.len == before.len,
                self.pending_block == before.pending_block,
                0 <= i <= indexes@.len(),
                never_decreasing(offset_buffer_slice@),
                forall|i: int|
                    0 <= i < indexes@.len() ==> #[trigger] indexes@[i] + 1
                        < offset_buffer_slice@.len(),
                items == lengths_at(offset_buffer_slice@, indexes@),
                last == before.lengths().last(),
                lengths_fit::<O>(last + items),
                current == before.lengths().len() - 1,
                self.lengths() == before.lengths().update(
                    current as int,
                    last + items.take(i as int),
                ),
            decreases indexes@.len() - i,
        {
            let ghost grown = last + items.take(i as int);
            proof {
                assert(self.lengths()[current as int] == grown);
                assert(self.lengths().len() == self.blocks@.len());
                lemma_total_part(last + items, 0, last.len() + i + 1);
                assert((last + items).subrange(0, last.len() + i + 1) =~= grown.push(
                    items[i as int],
                ));
                lemma_total_push(grown, items[i as int]);
                assert(indexes@[i as int] + 1 < offset_buffer_slice.len());
                assert(offset_buffer_slice@[indexes@[i as int] as int].val()
                    <= offset_buffer_slice@[indexes@[i as int] + 1].val());
                self.blocks@[current as int].lemma_total_non_negative();
            }
            let index: usize = indexes[i];
            let length = offset_buffer_slice[index + 1].minus(offset_buffer_slice[index]);
            let ghost now = self.lengths();
            deque_at_mut(&mut self.blocks, current).push_length(length);
            proof {
                assert(grown.push(items[i as int]) =~= last + items.take(i + 1));
                assert(self.lengths() =~= now.update(current as int, grown.push(items[i as int])));
                assert(self.lengths() =~= before.lengths().update(
                    current as int,
                    last + items.take(i + 1),
                ));
            }
            i += 1;
        }
        assert(items.take(i as int) =~= items);
        let _ = self.count_added(indexes.len(), Ghost(before), Ghost(items));
        indexes.len()
    }

    /// Adds `n` items of the given length to the current block. Returns whether it is full now.
    fn push_length_within_block(&mut self, len: usize, n: usize) -> (finished_block: bool)
        requires
            old(self).wf(),
            old(self).items().len() + n <= usize::MAX,
            FIXED_BLOCK_SIZING ==> old(self).lengths().last().len() + n <= old(self).cap(),
            n > 0 ==> len <= O::max_offset(),
            lengths_fit::<O>(old(self).lengths().last() + repeated(len as int, n as nat)),
        ensures
            old(self).added(repeated(len as int, n as nat), final(self)),
            finished_block == (FIXED_BLOCK_SIZING && old(self).lengths().last().len() + n == old(self).cap()),
            final(self).pending() == finished_block,
    {
        let ghost before = *self;
        let ghost last = before.lengths().last();
        let ghost items = repeated(len as int, n as nat);
        let current: usize = self.blocks.len() - 1;
        proof {
            lemma_total_repeated(last, len as int, n as nat);
        }
        if n > 0 {
            deque_at_mut(&mut self.blocks, current).push_length_n(O::usize_as(len), n);
        } else {
            assert(last + items =~= last);
        }
        assert(self.lengths() =~= before.lengths().update(current as int, last + items));
        self.count_added(n, Ghost(before), Ghost(items))
    }

    /// Adds `n` empty items to the current block. Returns whether it is full now.
    pub(crate) fn push_empty_within_block(&mut self, n: usize) -> (finished_block: bool)
        requires
            old(self).wf(),
            old(self).items().len() + n <= usize::MAX,
            FIXED_BLOCK_SIZING ==> old(self).lengths().last().len() + n <= old(self).cap(),
        ensures
            old(self).added(repeated(0, n as nat), final(self)),
            finished_block == (FIXED_BLOCK_SIZING && old(self).lengths().last().len() + n == old(self).cap()),
            final(self).pending() == finished_block,
    {
        proof {
            let last = self.lengths().last();
            lemma_valid_offsets(self.blocks@.last().offsets());
            lemma_total_repeated(last, 0, n as nat);
            assert(all_non_negative(last + repeated(0, n as nat))) by {
                assert forall|i: int| 0 <= i < last.len() + n implies #[trigger] (last + repeated(
                    0,
                    n as nat,
                ))[i] >= 0 by {
                    if i < last.len() {
                        assert(last[i] >= 0);
                    }
                }
            }
            self.blocks@.last().offsets().last().lemma_max_offset();
        }
        self.push_length_within_block(0, n)
    }

    /// The last block of the builder after adding items that the last block has room for is
    /// empty exactly if they filled it.
    proof fn lemma_filled(&self, items: Seq<int>, after: &Self)
        requires
            self.wf(),
            self.added(items, after),
            items.len() > 0,
            FIXED_BLOCK_SIZING ==> self.lengths().last().len() + items.len() <= self.cap(),
        ensures
            (after.lengths().last().len() == 0) == (FIXED_BLOCK_SIZING
                && self.lengths().last().len() + items.len() == self.cap()),
            after.items() == self.items() + items,
    {
        lemma_appended_within(FIXED_BLOCK_SIZING, self.cap(), self.lengths(), items);
        lemma_appended(FIXED_BLOCK_SIZING, self.cap(), self.lengths(), items);
    }

    /// Adding items block by block: the next `k` items fit into the last block, and the others
    /// follow them.
    proof fn lemma_step(&self, items: Seq<int>, k: int)
        requires
            FIXED_BLOCK_SIZING,
            self.wf(),
            all_fit::<OffsetBlock<O>>(self.lengths_with(items)),
            0 <= k <= items.len(),
            k == items.len() || k == self.cap() - self.lengths().last().len(),
            self.lengths().last().len() + k <= self.cap(),
        ensures
            lengths_fit::<O>(self.lengths().last() + items.take(k)),
            self.lengths_with(items) == appended(
                true,
                self.cap(),
                self.lengths_with(items.take(k)),
                items.skip(k),
            ),
    {
        lemma_appended_step(self.cap(), self.lengths(), items, k);
        assert(OffsetBlock::<O>::fits(self.lengths_with(items)[self.lengths().len() - 1]));
    }

    /// How many blocks more it takes to hold `n` more items.
    fn blocks_to_reserve(&self, n: usize) -> (blocks: usize)
        requires
            self.wf(),
            FIXED_BLOCK_SIZING,
        ensures
            blocks == blocks_needed(
                n as int,
                self.cap() - self.lengths().last().len(),
                self.cap() as int,
            ),
    {
        count_blocks_needed(n, self.current_block_remaining_len(), self.items_per_block)
    }

    /// Adds the items that lie between consecutive offsets.
    pub fn extends_length_from_offsets(&mut self, offset_buffer_slice: &[O])
        requires
            old(self).wf(),
            never_decreasing(offset_buffer_slice@),
            old(self).can_add(lengths_of(offset_buffer_slice@)),
        ensures
            old(self).extended_by_offsets(offset_buffer_slice@, final(self)),
    {
        if !FIXED_BLOCK_SIZING {
            proof {
                let all = self.lengths_with(lengths_of(offset_buffer_slice@));
                assert(OffsetBlock::<O>::fits(all[self.lengths().len() - 1]));
            }
            let _ = self.extends_length_from_offsets_in_current_block(offset_buffer_slice);
            return;
        }
        let len: usize = offset_buffer_slice.len() - 1;
        let to_reserve: usize = self.blocks_to_reserve(len);
        self.reserve_blocks(to_reserve);
        let ghost before = *self;
        let ghost items = lengths_of(offset_buffer_slice@);
        let ghost target = before.lengths_with(items);
        let mut done: usize = 0;
        assert(items.skip(0) =~= items);
        while done < len
            invariant
                FIXED_BLOCK_SIZING,
                self.wf(),
                self.cap() == before.cap(),
                never_decreasing(offset_buffer_slice@),
                len == offset_buffer_slice.len() - 1,
                items == lengths_of(offset_buffer_slice@),
                0 <= done <= len,
                self.lengths_with(items.skip(done as int)) == target,
                all_fit::<OffsetBlock<O>>(target),
                self.items().len() == before.items().len() + done,
                before.items().len() + len <= usize::MAX,
                done == 0 ==> self.pending() == before.pending(),
                done > 0 ==> self.pending() == (self.lengths().last().len() == 0),
            decreases len - done,
        {
            let remaining_in_current_block: usize = self.current_block_remaining_len();
            let to_add: usize = if remaining_in_current_block < len - done {
                remaining_in_current_block
            } else {
                len - done
            };
            let ghost now = *self;
            let ghost left = items.skip(done as int);
            let part = vstd::slice::slice_subrange(offset_buffer_slice, done, done + to_add + 1);
            proof {
                now.lemma_step(left, to_add as int);
                assert(lengths_of(part@) =~= left.take(to_add as int));
                assert(left.skip(to_add as int) =~= items.skip(done + to_add));
                assert(never_decreasing(part@));
            }
            let _ = self.extends_length_from_offsets_in_current_block(part);
            proof {
                now.lemma_filled(left.take(to_add as int), self);
            }
            done += to_add;
        }
        proof {
            assert(items.skip(len as int) =~= Seq::<int>::empty());
            lemma_appended_nothing(true, self.cap(), self.lengths());
        }
    }

    /// Adds the items at the given indexes of an offset buffer.
    pub fn extends_length_from_offsets_in_indexes(
        &mut self,
        offset_buffer_slice: &[O],
        indexes: &[usize],
    )
        requires
            old(self).wf(),
            never_decreasing(offset_buffer_slice@),
            !FIXED_BLOCK_SIZING ==> indexes@.len() > 0,
            forall|i: int|
                0 <= i < indexes@.len() ==> #[trigger] indexes@[i] + 1 < offset_buffer_slice@.len(),
            old(self).can_add(lengths_at(offset_buffer_slice@, indexes@)),
        ensures
            old(self).lengthened(lengths_at(offset_buffer_slice@, indexes@), final(self)),
            final(self).pending() == if !FIXED_BLOCK_SIZING {
                false
            } else if indexes@.len() == 0 {
                old(self).pending()
            } else {
                final(self).lengths().last().len() == 0
            },
    {
        if !FIXED_BLOCK_SIZING {
            proof {
                let all = self.lengths_with(lengths_at(offset_buffer_slice@, indexes@));
                assert(OffsetBlock::<O>::fits(all[self.lengths().len() - 1]));
            }
            let _ = self.extends_length_from_offsets_indexes_in_current_block(
                offset_buffer_slice,
                indexes,
            );
            return;
        }
        let len: usize = indexes.len();
        let to_reserve: usize = self.blocks_to_reserve(len);
        self.reserve_blocks(to_reserve);
        let ghost before = *self;
        let ghost items = lengths_at(offset_buffer_slice@, indexes@);
        let ghost target = before.lengths_with(items);
        let mut done: usize = 0;
        assert(items.skip(0) =~= items);
        while done < len
            invariant
                FIXED_BLOCK_SIZING,
                self.wf(),
                self.cap() == before.cap(),
                never_decreasing(offset_buffer_slice@),
                forall|i: int|
                    0 <= i < indexes@.len() ==> #[trigger] indexes@[i] + 1
                        < offset_buffer_slice@.len(),
                len == indexes@.len(),
                items == lengths_at(offset_buffer_slice@, indexes@),
                0 <= done <= len,
                self.lengths_with(items.skip(done as int)) == target,
                all_fit::<OffsetBlock<O>>(target),
                self.items().len() == before.items().len() + done,
                before.items().len() + len <= usize::MAX,
                done == 0 ==> self.pending() == before.pending(),
                done > 0 ==> self.pending() == (self.lengths().last().len() == 0),
            decreases len - done,
        {
            let remaining_in_current_block: usize = self.current_block_remaining_len();
            let to_add: usize = if remaining_in_current_block < len - done {
                remaining_in_current_block
            } else {
                len - done
            };
            let ghost now = *self;
            let ghost left = items.skip(done as int);
            let to_copy = vstd::slice::slice_subrange(indexes, done, done + to_add);
            proof {
                now.lemma_step(left, to_add as int);
                assert(lengths_at(offset_buffer_slice@, to_copy@) =~= left.take(to_add as int));
                assert(left.skip(to_add as int) =~= items.skip(done + to_add));
                assert forall|i: int| 0 <= i < to_copy@.len() implies #[trigger] to_copy@[i] + 1
                    < offset_buffer_slice@.len() by {
                    assert(indexes@[i + done] + 1 < offset_buffer_slice@.len());
                }
            }
            let _ = self.extends_length_from_offsets_indexes_in_current_block(
                offset_buffer_slice,
                to_copy,
            );
            proof {
                now.lemma_filled(left.take(to_add as int), self);
            }
            done += to_add;
        }
        proof {
            assert(items.skip(len as int) =~= Seq::<int>::empty());
            lemma_appended_nothing(true, self.cap(), self.lengths());
        }
    }

    /// Adds `n` items of the given length.
    pub fn push_length_n(&mut self, len: usize, n: usize)
        requires
            old(self).wf(),
            old(self).can_add(repeated(len as int, n as nat)),
        ensures
            old(self).lengthened(repeated(len as int, n as nat), final(self)),
            final(self).pending() == if !FIXED_BLOCK_SIZING {
                false
            } else if n == 0 {
                old(self).pending()
            } else {
                final(self).lengths().last().len() == 0
            },
    {
        let ghost items = repeated(len as int, n as nat);
        if !FIXED_BLOCK_SIZING {
            proof {
                let all = self.lengths_with(items);
                let last = self.lengths().last();
                assert(OffsetBlock::<O>::fits(all[self.lengths().len() - 1]));
                self.lemma_wf();
                lemma_one_fits::<O>(last, items);
            }
            let _ = self.push_length_within_block(len, n);
            return;
        }
        let to_reserve: usize = self.blocks_to_reserve(n);
        self.reserve_blocks(to_reserve);
        let ghost before = *self;
        let ghost target = before.lengths_with(items);
        let mut done: usize = 0;
        assert(items.skip(0) =~= items);
        while done < n
            invariant
                FIXED_BLOCK_SIZING,
                self.wf(),
                self.cap() == before.cap(),
                items == repeated(len as int, n as nat),
                0 <= done <= n,
                self.lengths_with(items.skip(done as int)) == target,
                all_fit::<OffsetBlock<O>>(target),
                self.items().len() == before.items().len() + done,
                before.items().len() + n <= usize::MAX,
                done == 0 ==> self.pending() == before.pending(),
                done > 0 ==> self.pending() == (self.lengths().last().len() == 0),
            decreases n - done,
        {
            let remaining_in_current_block: usize = self.current_block_remaining_len();
            let to_add: usize = if remaining_in_current_block < n - done {
                remaining_in_current_block
            } else {
                n - done
            };
            let ghost now = *self;
            let ghost left = items.skip(done as int);
            proof {
                now.lemma_step(left, to_add as int);
                assert(repeated(len as int, to_add as nat) =~= left.take(to_add as int));
                assert(left.skip(to_add as int) =~= items.skip(done + to_add));
                now.lemma_wf();
                lemma_one_fits::<O>(now.lengths().last(), left.take(to_add as int));
            }
            let _ = self.push_length_within_block(len, to_add);
            proof {
                now.lemma_filled(left.take(to_add as int), self);
            }
            done += to_add;
        }
        proof {
            assert(items.skip(n as int) =~= Seq::<int>::empty());
            lemma_appended_nothing(true, self.cap(), self.lengths());
        }
    }

    /// Adds `n` empty items.
    pub fn push_empty_n(&mut self, n: usize)
        requires
            old(self).wf(),
            old(self).items().len() + n <= usize::MAX,
        ensures
            old(self).lengthened(repeated(0, n as nat), final(self)),
            final(self).pending() == if !FIXED_BLOCK_SIZING {
                false
            } else if n == 0 {
                old(self).pending()
            } else {
                final(self).lengths().last().len() == 0
            },
    {
        if !FIXED_BLOCK_SIZING {
            let _ = self.push_empty_within_block(n);
            return;
        }
        let to_reserve: usize = self.blocks_to_reserve(n);
        self.reserve_blocks(to_reserve);
        let ghost before = *self;
        let ghost items = repeated(0, n as nat);
        let ghost target = before.lengths_with(items);
        let mut done: usize = 0;
        assert(items.skip(0) =~= items);
        while done < n
            invariant
                FIXED_BLOCK_SIZING,
                self.wf(),
                self.cap() == before.cap(),
                items == repeated(0, n as nat),
                0 <= done <= n,
                self.lengths_with(items.skip(done as int)) == target,
                self.items().len() == before.items().len() + done,
                before.items().len() + n <= usize::MAX,
                done == 0 ==> self.pending() == before.pending(),
                done > 0 ==> self.pending() == (self.lengths().last().len() == 0),
            decreases n - done,
        {
            let remaining_in_current_block: usize = self.current_block_remaining_len();
            let to_add: usize = if remaining_in_current_block < n - done {
                remaining_in_current_block
            } else {
                n - done
            };
            let ghost now = *self;
            let ghost left = items.skip(done as int);
            proof {
                lemma_appended_step(now.cap(), now.lengths(), left, to_add as int);
                assert(repeated(0, to_add as nat) =~= left.take(to_add as int));
                assert(left.skip(to_add as int) =~= items.skip(done + to_add));
            }
            let _ = self.push_empty_within_block(to_add);
            proof {
                now.lemma_filled(left.take(to_add as int), self);
            }
            done += to_add;
        }
        proof {
            assert(items.skip(n as int) =~= Seq::<int>::empty());
            lemma_appended_nothing(true, self.cap(), self.lengths());
        }
    }

    /// Adds an item for each length that the iterator yields.
    pub fn extend<I: Iterator<Item = usize>>(&mut self, iter: I)
        requires
            old(self).wf(),
            iter.obeys_prophetic_iter_laws(),
            iter.decrease() is Some,
            old(self).can_add(as_ints(iter.remaining())),
        ensures
            old(self).lengthened(as_ints(iter.remaining()), final(self)),
            final(self).pending() == (FIXED_BLOCK_SIZING && iter.remaining().len() > 0 && final(self).lengths().last().len() == 0),
    {
        let lengths: Vec<usize> = collect_all(iter);
        let ghost items = as_ints(lengths@);
        if !FIXED_BLOCK_SIZING {
            proof {
                let all = self.lengths_with(items);
                assert(OffsetBlock::<O>::fits(all[self.lengths().len() - 1]));
            }
            let _ = self.extend_length_in_block(lengths.as_slice(), true);
            return;
        }
        let len: usize = lengths.len();
        let ghost before = *self;
        let ghost target = before.lengths_with(items);
        let mut done: usize = 0;
        let mut is_first = true;
        assert(items.skip(0) =~= items);
        while is_first || done < len
            invariant
                FIXED_BLOCK_SIZING,
                self.wf(),
                self.cap() == before.cap(),
                len == lengths@.len(),
                items == as_ints(lengths@),
                0 <= done <= len,
                is_first ==> done == 0,
                self.lengths_with(items.skip(done as int)) == target,
                all_fit::<OffsetBlock<O>>(target),
                self.items().len() == before.items().len() + done,
                before.items().len() + len <= usize::MAX,
                !is_first && done == 0 ==> !self.pending() && len == 0,
                done > 0 ==> self.pending() == (self.lengths().last().len() == 0),
            decreases len - done, is_first as int,
        {
            let remaining_in_current_block: usize = self.current_block_remaining_len();
            let to_add: usize = if remaining_in_current_block < len - done {
                remaining_in_current_block
            } else {
                len - done
            };
            let ghost now = *self;
            let ghost left = items.skip(done as int);
            let part = vstd::slice::slice_subrange(lengths.as_slice(), done, done + to_add);
            proof {
                now.lemma_step(left, to_add as int);
                assert(as_ints(part@) =~= left.take(to_add as int));
                assert(left.skip(to_add as int) =~= items.skip(done + to_add));
            }
            let _ = self.extend_length_in_block(part, is_first);
            proof {
                if to_add > 0 {
                    now.lemma_filled(left.take(to_add as int), self);
                } else {
                    assert(left.take(0) =~= Seq::<int>::empty());
                    lemma_appended_nothing(true, now.cap(), now.lengths());
                }
            }
            is_first = false;
            done += to_add;
        }
        proof {
            assert(items.skip(len as int) =~= Seq::<int>::empty());
            lemma_appended_nothing(true, self.cap(), self.lengths());
        }
    }

    /// Takes the first block. `None` if all blocks were taken.
    pub fn take_block(&mut self) -> (taken: Option<Vec<O>>)
        requires
            old(self).wf(),
        ensures
            old(self).took_block(
                match taken {
                    Some(block) => Some(block@),
                    None => None,
                },
                final(self),
            ),
    {
        if self.pending_block && self.blocks.len() == 1 {
            return None;
        }
        let ghost before = self.lengths();
        proof {
            lemma_concat_first(before);
        }
        match self.blocks.pop_front() {
            Some(block) => {
                if self.blocks.len() == 0 {
                    self.blocks.push_back(OffsetBlock::new());
                    self.pending_block = true;
                    proof {
                        assert(before.skip(1) =~= Seq::<Seq<int>>::empty());
                        assert(self.lengths() =~= seq![Seq::<int>::empty()]);
                        lemma_concat_one(Seq::<int>::empty());
                    }
                } else {
                    assert(self.lengths() =~= before.skip(1));
                }
                self.len = self.len - block.len();
                Some(block.finish())
            },
            None => None,
        }
    }

    /// Taking a block gives `taken` and leaves `after`: the offsets of the first block, or `None` if
    /// all blocks were taken.
    pub open spec fn took_block(&self, taken: Option<Seq<O>>, after: &Self) -> bool {
        match taken {
            Some(block) => {
                &&& self.has_block()
                &&& is_offsets_of(block, self.lengths()[0])
                &&& self.without_first_block(after)
            },
            None => !self.has_block() && *after == *self,
        }
    }

    /// `after` is this builder without its first block.
    pub open spec fn without_first_block(&self, after: &Self) -> bool {
        &&& after.wf()
        &&& after.cap() == self.cap()
        &&& after.lengths() == if self.lengths().len() == 1 {
            seq![Seq::<int>::empty()]
        } else {
            self.lengths().skip(1)
        }
        &&& after.pending() == (self.pending() || self.lengths().len() == 1)
    }

    /// Takes all the blocks, the one being written to included.
    pub fn take_all(&mut self) -> (taken: Vec<Vec<O>>)
        requires
            old(self).wf(),
        ensures
            taken@.len() == old(self).lengths().len(),
            forall|i: int|
                0 <= i < taken@.len() ==> is_offsets_of(
                    (#[trigger] taken@[i])@,
                    old(self).lengths()[i],
                ),
            final(self).wf(),
            final(self).cap() == old(self).cap(),
            final(self).lengths() == seq![Seq::<int>::empty()],
            final(self).pending(),
    {
        let ghost before = *self;
        let mut taken: Vec<Vec<O>> = Vec::new();
        let mut blocks: VecDeque<OffsetBlock<O>> = VecDeque::new();
        blocks.push_back(OffsetBlock::new());
        core::mem::swap(&mut self.blocks, &mut blocks);
        self.len = 0;
        self.pending_block = true;
        proof {
            assert(self.lengths() =~= seq![Seq::<int>::empty()]);
            lemma_concat_one(Seq::<int>::empty());
        }
        while blocks.len() > 0
            invariant
                all_valid(blocks@),
                blocks@.len() + taken@.len() == before.blocks@.len(),
                blocks@ == before.blocks@.skip(taken@.len() as int),
                forall|i: int|
                    0 <= i < taken@.len() ==> is_offsets_of(
                        (#[trigger] taken@[i])@,
                        before.lengths()[i],
                    ),
            decreases blocks@.len(),
        {
            let ghost at = taken@.len() as int;
            if let Some(block) = blocks.pop_front() {
                assert(block == before.blocks@[at]);
                assert(before.lengths()[at] == block.items());
                taken.push(block.finish());
            }
        }
        taken
    }

    /// Takes the first `n` items, which must lie in the first block.
    ///
    /// The sizes that the blocks are to have afterwards are given exactly if
    /// `FIXED_BLOCK_SIZING` is false; together with `n` they add up to the number of items.
    pub fn take_n<I: Iterator<Item = usize>>(
        &mut self,
        n: usize,
        adjusted_block_size_iter: Option<I>,
    ) -> (taken: Vec<O>)
        requires
            old(self).wf(),
            FIXED_BLOCK_SIZING == adjusted_block_size_iter is None,
            adjusted_block_size_iter is Some ==> {
                let sizes = adjusted_block_size_iter->0;
                &&& sizes.obeys_prophetic_iter_laws()
                &&& sizes.decrease() is Some
                &&& old(self).can_take_n_dynamic(n as nat, sizes.remaining())
            },
            adjusted_block_size_iter is None ==> old(self).can_take_n_fixed(n as nat),
        ensures
            is_offsets_of(taken@, old(self).items().take(n as int)),
            final(self).items() == old(self).items().skip(n as int),
            adjusted_block_size_iter is Some ==> old(self).taken_n_dynamic(
                n as nat,
                adjusted_block_size_iter->0.remaining(),
                final(self),
            ),
            adjusted_block_size_iter is None ==> old(self).taken_n_fixed(n as nat, final(self)),
    {
        match adjusted_block_size_iter {
            Some(sizes) => {
                let sizes: Vec<usize> = collect_all(sizes);
                self.take_n_dynamic(n, sizes.as_slice())
            },
            None => self.take_n_fixed(n),
        }
    }

    /// When the first `n` items can be taken and the others given new block sizes.
    pub open spec fn can_take_n_dynamic(&self, n: nat, sizes: Seq<usize>) -> bool {
        &&& n <= self.lengths()[0].len()
        &&& valid_sizes(self.lengths(), n, sizes)
        &&& all_fit::<OffsetBlock<O>>(after_take_n(self.lengths(), n, sizes))
        &&& n == self.lengths()[0].len() ==> self.has_block()
    }

    /// `after` is this builder without its first `n` items, the others in blocks of the given
    /// sizes.
    pub open spec fn taken_n_dynamic(&self, n: nat, sizes: Seq<usize>, after: &Self) -> bool {
        &&& after.wf()
        &&& after.cap() == self.cap()
        &&& after.lengths() == after_take_n(self.lengths(), n, sizes)
        &&& after.pending() == if n == self.lengths()[0].len() {
            self.pending() || self.lengths().len() == 1
        } else if n == 0 {
            self.pending()
        } else {
            false
        }
    }

    /// When the first `n` items can be taken from blocks that are all full but the last.
    pub open spec fn can_take_n_fixed(&self, n: nat) -> bool {
        &&& all_full_but_last(self.cap(), self.lengths())
        &&& n <= self.items().len()
        &&& n <= self.cap()
        &&& all_fit::<OffsetBlock<O>>(chunks(self.items().skip(n as int), self.cap()))
        &&& n == self.items().len() ==> self.has_block()
    }

    /// `after` is this builder without its first `n` items, all blocks but the last still full.
    pub open spec fn taken_n_fixed(&self, n: nat, after: &Self) -> bool {
        &&& after.wf()
        &&& after.cap() == self.cap()
        &&& after.lengths() == chunks(self.items().skip(n as int), self.cap())
        &&& after.pending() == if n == self.items().len() || n == self.cap() {
            self.pending() || self.lengths().len() == 1
        } else if n == 0 {
            self.pending()
        } else {
            after.lengths().last().len() == 0
        }
    }

    fn take_n_dynamic(&mut self, n: usize, sizes: &[usize]) -> (taken: Vec<O>)
        requires
            old(self).wf(),
            !FIXED_BLOCK_SIZING,
            old(self).can_take_n_dynamic(n as nat, sizes@),
        ensures
            is_offsets_of(taken@, old(self).items().take(n as int)),
            final(self).items() == old(self).items().skip(n as int),
            old(self).taken_n_dynamic(n as nat, sizes@, final(self)),
    {
        let ghost before = self.lengths();
        let ghost items = self.items();
        proof {
            self.lemma_wf();
            lemma_concat_first(before);
            assert(items.take(n as int) =~= before[0].take(n as int));
        }
        let first_block_items: usize = self.blocks[0].len();
        if n == first_block_items {
            proof {
                assert(before[0].take(n as int) =~= before[0]);
                lemma_split_by_own_sizes(before.skip(1), sizes@);
                assert(items.skip(n as int) =~= concat(before.skip(1)));
                if before.len() == 1 {
                    assert(before.skip(1) =~= Seq::<Seq<int>>::empty());
                    lemma_concat_one(Seq::<int>::empty());
                }
            }
            match self.take_block() {
                Some(block) => block,
                None => Vec::new(),
            }
        } else if n == 0 {
            proof {
                assert(before[0].take(0) =~= Seq::<int>::empty());
                assert(items.skip(0) =~= items);
                lemma_split_by_own_sizes(before, sizes@);
            }
            OffsetBlock::new().finish()
        } else {
            proof {
                lemma_split_by(items.skip(n as int), sizes@);
                OffsetBlock::<O>::lemma_fits_part(before[0], 0, n as int);
                assert(Seq::<int>::empty() + before[0].subrange(0, n as int) =~= before[0].take(
                    n as int,
                ));
            }
            let mut taken: OffsetBlock<O> = OffsetBlock::with_capacity(n);
            taken.append_range(&self.blocks[0], 0..n);
            redistribute_blocks(&mut self.blocks, n, sizes);
            self.len = self.len - n;
            self.pending_block = false;
            taken.finish()
        }
    }

    fn take_n_fixed(&mut self, n: usize) -> (taken: Vec<O>)
        requires
            old(self).wf(),
            FIXED_BLOCK_SIZING,
            old(self).can_take_n_fixed(n as nat),
        ensures
            is_offsets_of(taken@, old(self).items().take(n as int)),
            final(self).items() == old(self).items().skip(n as int),
            old(self).taken_n_fixed(n as nat, final(self)),
    {
        let ghost before = self.lengths();
        let ghost items = self.items();
        let ghost cap = self.cap();
        proof {
            self.lemma_wf();
            lemma_concat_first(before);
            lemma_full_is_chunks(before, cap);
            lemma_chunks(items.skip(n as int), cap);
            if before.len() == 1 {
                assert(before.skip(1) =~= Seq::<Seq<int>>::empty());
            } else {
                assert(before[0].len() == cap);
            }
            assert(items.take(n as int) =~= before[0].take(n as int));
        }
        if n == self.len || n == self.items_per_block {
            proof {
                assert(before[0].take(n as int) =~= before[0]);
                assert(items.skip(n as int) =~= concat(before.skip(1)));
                lemma_rest_is_chunks(before, cap);
            }
            return match self.take_block() {
                Some(block) => block,
                None => Vec::new(),
            };
        }
        proof {
            OffsetBlock::<O>::lemma_fits_part(before[0], 0, n as int);
            assert(Seq::<int>::empty() + before[0].subrange(0, n as int) =~= before[0].take(
                n as int,
            ));
        }
        let mut taken: OffsetBlock<O> = OffsetBlock::with_capacity(n);
        taken.append_range(&self.blocks[0], 0..n);
        if n > 0 {
            shift_fixed_blocks(&mut self.blocks, self.len, n, self.items_per_block);
            self.len = self.len - n;
            self.pending_block = self.blocks[self.blocks.len() - 1].len() == 0;
        } else {
            assert(items.skip(0) =~= items);
        }
        taken.finish()
    }

    /// Heap bytes that the builder has allocated.
    pub fn allocated_size(&self) -> (bytes: usize)
        requires
            self.wf(),
        ensures
            is_queue_size(
                bytes,
                size_of::<OffsetBlock<O>>(),
                used_bytes::<OffsetBlock<O>>(self.lengths()),
            ),
    {
        blocks_allocated_size(&self.blocks)
    }

    /// The blocks of offsets.
    pub closed spec fn blocks(&self) -> Seq<OffsetBlock<O>> {
        self.blocks@
    }

    /// The blocks hold the offsets of the items.
    pub proof fn lemma_blocks(&self)
        requires
            self.wf(),
        ensures
            self.blocks().len() == self.lengths().len(),
            forall|i: int|
                0 <= i < self.blocks().len() ==> is_offsets_of(
                    (#[trigger] self.blocks()[i]).offsets(),
                    self.lengths()[i],
                ),
    {
        assert forall|i: int| 0 <= i < self.blocks().len() implies is_offsets_of(
            (#[trigger] self.blocks()[i]).offsets(),
            self.lengths()[i],
        ) by {
            assert(self.lengths()[i] == self.blocks()[i].items());
        }
    }

    /// The offset at a position: the sum of the lengths before it in its block.
    fn offset_at(&self, index: BlocksIndex) -> (offset: &O)
        requires
            self.wf(),
            index.block_index < self.lengths().len(),
            index.index_in_block <= self.lengths()[index.block_index as int].len(),
        ensures
            offset.val() == total(
                self.lengths()[index.block_index as int].take(index.index_in_block as int),
            ),
    {
        proof {
            let block = self.blocks()[index.block_index as int];
            self.lemma_blocks();
            assert(is_offsets_of(
                block.offsets(),
                self.lengths()[index.block_index as int],
            ));
            lemma_offset_is_total(block.offsets(), index.index_in_block as int);
        }
        &self.blocks[index.block_index()].as_slice()[index.index_in_block()]
    }

    /// Iterates over the blocks, the one being written to included.
    pub fn blocks_iter(&self) -> (iter: std::collections::vec_deque::Iter<'_, OffsetBlock<O>>)
        requires
            self.wf(),
        ensures
            iter.remaining() == self.blocks().as_ref(),
    {
        self.blocks.iter()
    }

    /// Hands out the blocks one after the other: none if all were taken, else all of them, the
    /// one being written to included.
    pub fn into_iter(self) -> (iter: BlockedOffsetBufferIter<O>)
        requires
            self.wf(),
        ensures
            iter.wf(),
            iter.lengths() == if self.has_block() {
                self.lengths()
            } else {
                Seq::empty()
            },
    {
        if self.pending_block && self.blocks.len() == 1 {
            let iter = BlockedOffsetBufferIter { blocks: VecDeque::new() };
            assert(iter.lengths() =~= Seq::<Seq<int>>::empty());
            iter
        } else {
            BlockedOffsetBufferIter { blocks: self.blocks }
        }
    }
}

impl<const FIXED_BLOCK_SIZING: bool, O: OffsetSize> vstd::std_specs::core::IndexSpecImpl<
    BlocksIndex,
> for BlockedOffsetBufferBuilder<FIXED_BLOCK_SIZING, O> {
    open spec fn index_req(&self, index: &BlocksIndex) -> bool {
        &&& self.wf()
        &&& index.block_index < self.lengths().len()
        &&& index.index_in_block <= self.lengths()[index.block_index as int].len()
    }
}

impl<const FIXED_BLOCK_SIZING: bool, O: OffsetSize> Index<
    BlocksIndex,
> for BlockedOffsetBufferBuilder<FIXED_BLOCK_SIZING, O> {
    type Output = O;

    /// The offset at a position: the sum of the lengths before it in its block.
    fn index(&self, index: BlocksIndex) -> (offset: &O)
        ensures
            offset.val() == total(
                self.lengths()[index.block_index as int].take(index.index_in_block as int),
            ),
    {
        self.offset_at(index)
    }
}

impl<O: OffsetSize> vstd::std_specs::core::IndexSpecImpl<usize> for BlockedOffsetBufferBuilder<true, O> {
    open spec fn index_req(&self, index: &usize) -> bool {
        let position = BlocksIndex::at(*index as int, self.cap() as int + 1);
        &&& self.wf()
        &&& position.block_index < self.lengths().len()
        &&& position.index_in_block <= self.lengths()[position.block_index as int].len()
    }
}

impl<O: OffsetSize> Index<usize> for BlockedOffsetBufferBuilder<true, O> {
    type Output = O;

    /// The offset at `index` when the offsets of all blocks, one more than their items, are
    /// counted through.
    fn index(&self, index: usize) -> (offset: &O)
        ensures
            ({
                let position = BlocksIndex::at(index as int, self.cap() as int + 1);
                offset.val() == total(
                    self.lengths()[position.block_index as int].take(
                        position.index_in_block as int,
                    ),
                )
            }),
    {
        let position = BlocksIndex::from_index_in_fixed_block_size(
            index,
            self.items_per_block + 1,
        );
        &self[position]
    }
}

/// Hands out the blocks of a builder.
pub struct BlockedOffsetBufferIter<O: OffsetSize> {
    blocks: VecDeque<OffsetBlock<O>>,
}

impl<O: OffsetSize> BlockedOffsetBufferIter<O> {
    /// The lengths of the items in the blocks that are still to come.
    pub closed spec fn lengths(&self) -> Seq<Seq<int>> {
        items_of(self.blocks@)
    }

    pub closed spec fn wf(&self) -> bool {
        all_valid(self.blocks@)
    }

    pub fn next(&mut self) -> (next: Option<Vec<O>>)
        requires
            old(self).wf(),
        ensures
            final(self).wf(),
            match next {
                Some(block) => {
                    &&& old(self).lengths().len() > 0
                    &&& is_offsets_of(block@, old(self).lengths()[0])
                    &&& final(self).lengths() == old(self).lengths().skip(1)
                },
                None => old(self).lengths().len() == 0 && final(self).lengths()
                    == old(self).lengths(),
            },
    {
        let ghost before = self.lengths();
        match self.blocks.pop_front() {
            Some(block) => {
                assert(self.lengths() =~= before.skip(1));
                Some(block.finish())
            },
            None => None,
        }
    }
}

/// A length that fits together with others fits alone.
proof fn lemma_one_fits<O: OffsetSize>(last: Seq<int>, items: Seq<int>)
    requires
        lengths_fit::<O>(last + items),
        lengths_fit::<O>(last),
    ensures
        forall|i: int| 0 <= i < items.len() ==> 0 <= #[trigger] items[i] <= O::max_offset(),
{
    assert forall|i: int| 0 <= i < items.len() implies 0 <= #[trigger] items[i]
        <= O::max_offset() by {
        let k = last.len() + i;
        lemma_total_part(last + items, k, k + 1);
        assert((last + items).subrange(k, k + 1) =~= Seq::<int>::empty().push(items[i]));
        lemma_total_push(Seq::<int>::empty(), items[i]);
        assert((last + items)[k] >= 0);
    }
}

pub proof fn lemma_total_repeated(before: Seq<int>, length: int, n: nat)
    ensures
        total(before + repeated(length, n)) == total(before) + length * n,
    decreases n,
{
    let all = before + repeated(length, n);
    if n == 0 {
        assert(all =~= before);
        assert(length * 0 == 0) by (nonlinear_arith);
    } else {
        lemma_total_repeated(before, length, (n - 1) as nat);
        assert(all.drop_last() =~= before + repeated(length, (n - 1) as nat));
        assert(length * n == length * (n - 1) + length) by (nonlinear_arith);
    }
}

/// Blocks of a fixed size without the first one are still cut as they should be.
proof fn lemma_rest_is_chunks(blocks: Seq<Seq<int>>, cap: nat)
    requires
        cap > 0,
        all_full_but_last(cap, blocks),
        blocks.last().len() < cap,
    ensures
        chunks(concat(blocks.skip(1)), cap) == if blocks.len() == 1 {
            seq![Seq::<int>::empty()]
        } else {
            blocks.skip(1)
        },
{
    let rest = blocks.skip(1);
    if blocks.len() == 1 {
        assert(rest =~= Seq::<Seq<int>>::empty());
        assert(chunks(Seq::<int>::empty(), cap) =~= seq![Seq::<int>::empty()]);
    } else {
        assert forall|i: int| 0 <= i < rest.len() - 1 implies (#[trigger] rest[i]).len() == cap by {
            assert(rest[i] == blocks[i + 1]);
        }
        lemma_full_is_chunks(rest, cap);
    }
}

} // verus!
