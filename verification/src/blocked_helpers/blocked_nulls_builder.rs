//! Which items are null, bit-packed, in blocks.

use crate::arrow_buffers::{
    append_n_non_nulls, append_n_nulls, append_null_buffer, append_validity, count_nulls,
    finish_nulls, is_valid_at, has_bitmap, is_valid_built, lemma_no_nulls, new_nulls, null_buffer_len,
    null_count, nulls_allocated_size, nulls_len, same_bits, slice_nulls, validity, validity_built,
};
use crate::blocked_helpers::layout::{
    appended, appended_until_full, blocks_needed, concat, count_blocks_needed, lemma_appended, lemma_appended_nothing,
    lemma_appended_step, lemma_appended_within, lemma_concat_at, lemma_concat_first,
    lemma_concat_one, valid_blocks,
};
use crate::collections::{collect_all, deque_at_mut, deque_capacity};
use crate::groups_accumulator::BlocksIndex;
use crate::memory::{allocated_bytes, cover, has_room, is_queue_size, saturated};
use arrow::array::NullBufferBuilder;
use arrow::buffer::NullBuffer;
use std::collections::VecDeque;
use std::ops::Index;
use vstd::layout::size_of;
use vstd::prelude::*;
use vstd::std_specs::iter::IteratorSpec;

verus! {

/// The items of each block.
pub open spec fn validity_of_blocks(blocks: Seq<NullBufferBuilder>) -> Seq<Seq<bool>> {
    Seq::new(blocks.len(), |i: int| validity_built(blocks[i]))
}

/// The items of a null buffer at the given indexes.
pub open spec fn validity_at(items: Seq<bool>, indexes: Seq<usize>) -> Seq<bool> {
    Seq::new(indexes.len(), |i: int| items[indexes[i] as int])
}

/// The null buffer of a block with these items: there is one exactly if there is a null.
pub open spec fn is_null_buffer_of(buffer: Option<NullBuffer>, items: Seq<bool>) -> bool {
    match buffer {
        Some(buffer) => validity(buffer) == items && count_nulls(items) > 0,
        None => count_nulls(items) == 0,
    }
}

/// The bytes that each block takes in its bitmap, which there is only where there is a null.
pub open spec fn bitmaps_bytes(blocks: Seq<Seq<bool>>) -> Seq<nat> {
    Seq::new(
        blocks.len(),
        |i: int|
            if count_nulls(blocks[i]) > 0 {
                ((blocks[i].len() + 7) / 8) as nat
            } else {
                0
            },
    )
}

/// Collects which items are valid (`true`) or null (`false`), block by block.
///
/// When `FIXED_BLOCK_SIZING` is true every block is closed once it holds `block_size` items;
/// otherwise the callers decide when a new block starts, but for a single null that fills a block
/// to `block_size` items.
#[derive(Debug)]
pub struct BlockedNullsBuilder<const FIXED_BLOCK_SIZING: bool> {
    /// A queue, so that the first block can be handed out. There is always a block to write to.
    blocks: VecDeque<NullBufferBuilder>,
    /// The number of items in a full block.
    block_size: usize,
    /// The number of items that were added, less those that were counted off with the blocks that
    /// were taken.
    len: usize,
}

impl<const FIXED_BLOCK_SIZING: bool> BlockedNullsBuilder<FIXED_BLOCK_SIZING> {
    /// The items in each block, the block being written to included.
    pub closed spec fn blocks(&self) -> Seq<Seq<bool>> {
        validity_of_blocks(self.blocks@)
    }

    /// The number of items in a full block.
    pub closed spec fn cap(&self) -> nat {
        self.block_size as nat
    }

    /// All the items.
    pub open spec fn items(&self) -> Seq<bool> {
        concat(self.blocks())
    }

    /// The running count of items. With every block that is taken it goes down by one item less
    /// than the block has.
    pub closed spec fn counted(&self) -> usize {
        self.len
    }

    pub closed spec fn wf(&self) -> bool {
        &&& valid_blocks(FIXED_BLOCK_SIZING, self.cap(), self.blocks())
        &&& self.items().len() <= self.counted()
    }

    /// `after` is this builder with `items` added behind the others.
    pub open spec fn added(&self, items: Seq<bool>, after: &Self) -> bool {
        &&& after.wf()
        &&& after.cap() == self.cap()
        &&& after.blocks() == appended(FIXED_BLOCK_SIZING, self.cap(), self.blocks(), items)
        &&& after.counted() == saturated(self.counted() as nat + items.len())
    }

    /// A position where there is an item.
    pub open spec fn has(&self, index: BlocksIndex) -> bool {
        &&& index.block_index < self.blocks().len()
        &&& index.index_in_block < self.blocks()[index.block_index as int].len()
    }

    /// What holds of the blocks of every builder.
    pub proof fn lemma_wf(&self)
        requires
            self.wf(),
        ensures
            valid_blocks(FIXED_BLOCK_SIZING, self.cap(), self.blocks()),
            self.items().len() <= self.counted(),
    {
    }

    /// The last block is no longer than all blocks together.
    proof fn lemma_last_len(&self)
        requires
            self.wf(),
        ensures
            self.blocks().last().len() <= self.items().len(),
    {
        lemma_concat_at(self.blocks(), self.blocks().len() - 1);
    }

    pub fn new(block_size: usize) -> (builder: Self)
        requires
            FIXED_BLOCK_SIZING ==> block_size > 0,
        ensures
            builder.wf(),
            builder.blocks() == seq![Seq::<bool>::empty()],
            builder.cap() == block_size,
            builder.counted() == 0,
    {
        let mut blocks: VecDeque<NullBufferBuilder> = VecDeque::new();
        blocks.push_back(new_nulls(block_size));
        let builder = BlockedNullsBuilder { blocks, block_size, len: 0 };
        proof {
            assert(builder.blocks() =~= seq![Seq::<bool>::empty()]);
            lemma_concat_one(Seq::<bool>::empty());
        }
        builder
    }

    /// The running count of items: the number of items as long as no block was taken. With every
    /// block that is taken it goes down by one item less than the block has.
    pub fn len(&self) -> (len: usize)
        ensures
            len == self.counted(),
    {
        self.len
    }

    /// Heap bytes that the builder has allocated, or the largest number there is if they are
    /// more than that.
    pub fn allocated_size(&self) -> (bytes: usize)
        ensures
            is_queue_size(bytes, size_of::<NullBufferBuilder>(), bitmaps_bytes(self.blocks())),
    {
        let ghost used = bitmaps_bytes(self.blocks());
        let mut sizes: Vec<usize> = Vec::new();
        let mut i: usize = 0;
        while i < self.blocks.len()
            invariant
                used == bitmaps_bytes(self.blocks()),
                i == sizes@.len() <= self.blocks@.len(),
                forall|k: int| 0 <= k < i ==> used[k] <= #[trigger] sizes@[k] <= isize::MAX,
            decreases self.blocks@.len() - i,
        {
            sizes.push(nulls_allocated_size(&self.blocks[i]));
            i += 1;
        }
        let capacity: usize = deque_capacity(&self.blocks);
        let item_size: usize = core::mem::size_of::<NullBufferBuilder>();
        let bytes: usize = allocated_bytes(capacity, item_size, sizes.as_slice());
        assert(has_room(capacity, item_size as nat, used.len()) && cover(sizes@, used));
        bytes
    }

    /// The number of items in a full block.
    pub(crate) fn block_size(&self) -> (block_size: usize)
        requires
            FIXED_BLOCK_SIZING,
        ensures
            block_size == self.cap(),
    {
        self.block_size
    }

    /// Opens a new block.
    pub fn start_new_block(&mut self)
        requires
            old(self).wf(),
        ensures
            final(self).wf(),
            final(self).cap() == old(self).cap(),
            final(self).blocks() == old(self).blocks().push(Seq::empty()),
            final(self).counted() == old(self).counted(),
    {
        self.open_block();
    }

    fn open_block(&mut self)
        requires
            old(self).items().len() <= old(self).len,
            FIXED_BLOCK_SIZING ==> {
                &&& 0 < old(self).block_size
                &&& forall|i: int|
                    0 <= i < old(self).blocks().len() ==> (#[trigger] old(self).blocks()[i]).len()
                        <= old(self).cap()
            },
        ensures
            final(self).wf(),
            final(self).cap() == old(self).cap(),
            final(self).blocks() == old(self).blocks().push(Seq::empty()),
            final(self).counted() == old(self).counted(),
    {
        let ghost before = self.blocks();
        self.blocks.push_back(new_nulls(self.block_size));
        proof {
            assert(self.blocks() =~= before.push(Seq::empty()));
            assert(self.blocks().drop_last() =~= before);
            assert(concat(before) + Seq::<bool>::empty() =~= concat(before));
        }
    }

    /// Counts `added` items that were put into the current block, and opens a new block if they
    /// filled it.
    fn count_added(&mut self, added: usize, Ghost(before): Ghost<Self>, Ghost(items): Ghost<
        Seq<bool>,
    >)
        requires
            before.wf(),
            items.len() == added,
            before.items().len() + added <= usize::MAX,
            FIXED_BLOCK_SIZING ==> before.blocks().last().len() + added <= before.cap(),
            old(self).block_size == before.block_size,
            old(self).len == before.len,
            old(self).blocks() == before.blocks().update(
                before.blocks().len() - 1,
                before.blocks().last() + items,
            ),
        ensures
            before.added(items, final(self)),
    {
        let ghost grown = self.blocks();
        proof {
            lemma_appended_within(FIXED_BLOCK_SIZING, before.cap(), before.blocks(), items);
            lemma_appended(FIXED_BLOCK_SIZING, before.cap(), before.blocks(), items);
            assert(grown.drop_last() =~= before.blocks().drop_last());
            assert(concat(grown) =~= before.items() + items);
        }
        self.len = self.len.saturating_add(added);
        if FIXED_BLOCK_SIZING && nulls_len(&self.blocks[self.blocks.len() - 1])
            == self.block_size {
            self.open_block();
        }
    }

    /// Makes room in the queue for `n` more blocks.
    pub(crate) fn reserve_blocks(&mut self, n: usize)
        requires
            old(self).wf(),
        ensures
            final(self).wf(),
            final(self).cap() == old(self).cap(),
            final(self).blocks() == old(self).blocks(),
            final(self).counted() == old(self).counted(),
    {
        self.blocks.reserve(n);
    }

    /// How many items the current block still has room for.
    fn current_block_remaining_len(&self) -> (remaining: usize)
        requires
            self.wf(),
            FIXED_BLOCK_SIZING,
        ensures
            remaining == self.cap() - self.blocks().last().len(),
            remaining > 0,
    {
        self.block_size - nulls_len(&self.blocks[self.blocks.len() - 1])
    }

    /// How many blocks more it takes to hold `n` more items.
    fn blocks_to_reserve(&self, n: usize) -> (blocks: usize)
        requires
            self.wf(),
            FIXED_BLOCK_SIZING,
        ensures
            blocks == blocks_needed(
                n as int,
                self.cap() - self.blocks().last().len(),
                self.cap() as int,
            ),
    {
        count_blocks_needed(n, self.current_block_remaining_len(), self.block_size)
    }

    /// Adds the items of a null buffer to the current block.
    pub(crate) fn extends_from_null_buffer_in_current_block(&mut self, null_buffer: &NullBuffer)
        requires
            old(self).wf(),
            validity(*null_buffer).len() > 0,
            old(self).items().len() + validity(*null_buffer).len() <= usize::MAX,
            FIXED_BLOCK_SIZING ==> old(self).blocks().last().len() + validity(*null_buffer).len()
                <= old(self).cap(),
        ensures
            old(self).added(validity(*null_buffer), final(self)),
    {
        let ghost items = validity(*null_buffer);
        if null_count(null_buffer) == 0 {
            proof {
                lemma_no_nulls(items);
            }
            self.push_n_within_block(null_buffer_len(null_buffer), true);
            return;
        }
        let ghost before = *self;
        let current: usize = self.blocks.len() - 1;
        proof {
            self.lemma_last_len();
        }
        append_null_buffer(deque_at_mut(&mut self.blocks, current), null_buffer);
        assert(self.blocks() =~= before.blocks().update(
            current as int,
            before.blocks().last() + items,
        ));
        self.count_added(null_buffer_len(null_buffer), Ghost(before), Ghost(items));
    }

    /// Adds the items of a null buffer.
    pub fn extends_from_null_buffer(&mut self, null_buffer: &NullBuffer)
        requires
            old(self).wf(),
            old(self).items().len() + validity(*null_buffer).len() <= usize::MAX,
        ensures
            old(self).added(validity(*null_buffer), final(self)),
    {
        let ghost items = validity(*null_buffer);
        let len: usize = null_buffer_len(null_buffer);
        if null_count(null_buffer) == 0 {
            proof {
                lemma_no_nulls(items);
            }
            self.push_n(len, true);
            return;
        }
        proof {
            lemma_no_nulls(items);
        }
        if !FIXED_BLOCK_SIZING {
            self.extends_from_null_buffer_in_current_block(null_buffer);
            return;
        }
        let to_reserve: usize = self.blocks_to_reserve(len);
        self.reserve_blocks(to_reserve);
        let ghost before = *self;
        let ghost target = appended(true, before.cap(), before.blocks(), items);
        let mut done: usize = 0;
        assert(items.skip(0) =~= items);
        while done < len
            invariant
                FIXED_BLOCK_SIZING,
                self.wf(),
                self.cap() == before.cap(),
                items == validity(*null_buffer),
                len == items.len(),
                0 <= done <= len,
                appended(true, self.cap(), self.blocks(), items.skip(done as int)) == target,
                self.items().len() == before.items().len() + done,
                self.counted() == saturated(before.counted() as nat + done as nat),
                before.items().len() + len <= usize::MAX,
            decreases len - done,
        {
            let remaining_in_current_block: usize = self.current_block_remaining_len();
            let to_add: usize = if remaining_in_current_block < len - done {
                remaining_in_current_block
            } else {
                len - done
            };
            let ghost now = *self;
            let ghost left = items.skip(done as int);
            proof {
                lemma_appended_step(now.cap(), now.blocks(), left, to_add as int);
                assert(items.subrange(done as int, done + to_add) =~= left.take(to_add as int));
                assert(left.skip(to_add as int) =~= items.skip(done + to_add));
                lemma_appended(true, now.cap(), now.blocks(), left.take(to_add as int));
            }
            if to_add == len {
                // All at once: no slice, which counts the nulls again.
                assert(left.take(to_add as int) =~= items);
                self.extends_from_null_buffer_in_current_block(null_buffer);
            } else {
                let part = slice_nulls(null_buffer, done, to_add);
                self.extends_from_null_buffer_in_current_block(&part);
            }
            done += to_add;
        }
        proof {
            assert(items.skip(len as int) =~= Seq::<bool>::empty());
            lemma_appended_nothing(true, self.cap(), self.blocks());
        }
    }

    /// Adds the items of a null buffer at the given indexes to the current block. Returns how
    /// many.
    fn extends_from_null_buffer_in_indexes_in_current_block(
        &mut self,
        null_buffer: &NullBuffer,
        indexes: &[usize],
    ) -> (added_items: usize)
        requires
            old(self).wf(),
            validity(*null_buffer).len() > 0,
            indexes@.len() > 0,
            forall|i: int|
                0 <= i < indexes@.len() ==> #[trigger] indexes@[i] < validity(*null_buffer).len(),
            old(self).items().len() + indexes@.len() <= usize::MAX,
            FIXED_BLOCK_SIZING ==> old(self).blocks().last().len() + indexes@.len() <= old(self).cap(),
        ensures
            old(self).added(validity_at(validity(*null_buffer), indexes@), final(self)),
            added_items == indexes@.len(),
    {
        let ghost before = *self;
        let ghost last = before.blocks().last();
        let ghost items = validity_at(validity(*null_buffer), indexes@);
        let current: usize = self.blocks.len() - 1;
        let mut i: usize = 0;
        proof {
            self.lemma_last_len();
            assert(last + items.take(0) =~= last);
            assert(self.blocks() =~= before.blocks().update(current as int, last + items.take(0)));
        }
        while i < indexes.len()
            invariant
                before.wf(),
                self.block_size == before.block_size,
                self.len == before.len,
                0 <= i <= indexes@.len(),
                items == validity_at(validity(*null_buffer), indexes@),
                forall|i: int|
                    0 <= i < indexes@.len() ==> #[trigger] indexes@[i] < validity(
                        *null_buffer,
                    ).len(),
                last == before.blocks().last(),
                last.len() + items.len() <= usize::MAX,
                current == before.blocks().len() - 1,
                self.blocks() == before.blocks().update(
                    current as int,
                    last + items.take(i as int),
                ),
            decreases indexes@.len() - i,
        {
            let ghost now = self.blocks();
            let ghost grown = last + items.take(i as int);
            assert(self.blocks()[current as int] == grown);
            assert(self.blocks().len() == self.blocks@.len());
            let is_valid = is_valid_at(null_buffer, indexes[i]);
            append_validity(deque_at_mut(&mut self.blocks, current), is_valid);
            proof {
                assert(grown.push(items[i as int]) =~= last + items.take(i + 1));
                assert(self.blocks() =~= now.update(current as int, grown.push(items[i as int])));
                assert(self.blocks() =~= before.blocks().update(
                    current as int,
                    last + items.take(i + 1),
                ));
            }
            i += 1;
        }
        assert(items.take(i as int) =~= items);
        self.count_added(indexes.len(), Ghost(before), Ghost(items));
        indexes.len()
    }

    /// Adds the items of a null buffer at the given indexes.
    pub fn extends_from_null_buffer_in_indexes(
        &mut self,
        null_buffer: &NullBuffer,
        indexes: &[usize],
    )
        requires
            old(self).wf(),
            !FIXED_BLOCK_SIZING ==> indexes@.len() > 0,
            forall|i: int|
                0 <= i < indexes@.len() ==> #[trigger] indexes@[i] < validity(*null_buffer).len(),
            old(self).items().len() + indexes@.len() <= usize::MAX,
        ensures
            old(self).added(validity_at(validity(*null_buffer), indexes@), final(self)),
    {
        let ghost items = validity_at(validity(*null_buffer), indexes@);
        if !FIXED_BLOCK_SIZING {
            assert(indexes@[0] < validity(*null_buffer).len());
            let _ = self.extends_from_null_buffer_in_indexes_in_current_block(
                null_buffer,
                indexes,
            );
            return;
        }
        let len: usize = indexes.len();
        let to_reserve: usize = self.blocks_to_reserve(len);
        self.reserve_blocks(to_reserve);
        let ghost before = *self;
        let ghost target = appended(true, before.cap(), before.blocks(), items);
        let mut done: usize = 0;
        assert(items.skip(0) =~= items);
        while done < len
            invariant
                FIXED_BLOCK_SIZING,
                self.wf(),
                self.cap() == before.cap(),
                items == validity_at(validity(*null_buffer), indexes@),
                forall|i: int|
                    0 <= i < indexes@.len() ==> #[trigger] indexes@[i] < validity(
                        *null_buffer,
                    ).len(),
                len == indexes@.len(),
                0 <= done <= len,
                appended(true, self.cap(), self.blocks(), items.skip(done as int)) == target,
                self.items().len() == before.items().len() + done,
                self.counted() == saturated(before.counted() as nat + done as nat),
                before.items().len() + len <= usize::MAX,
            decreases len - done,
        {
            let remaining_in_current_block: usize = self.current_block_remaining_len();
            let to_add: usize = if remaining_in_current_block < len - done {
                remaining_in_current_block
            } else {
                len - done
            };
            let ghost now = *self;
            let ghost left = items.skip(done as int);
            let to_copy = vstd::slice::slice_subrange(indexes, done, done + to_add);
            proof {
                lemma_appended_step(now.cap(), now.blocks(), left, to_add as int);
                assert(validity_at(validity(*null_buffer), to_copy@) =~= left.take(to_add as int));
                assert(left.skip(to_add as int) =~= items.skip(done + to_add));
                lemma_appended(true, now.cap(), now.blocks(), left.take(to_add as int));
                assert forall|i: int| 0 <= i < to_copy@.len() implies #[trigger] to_copy@[i]
                    < validity(*null_buffer).len() by {
                    assert(indexes@[i + done] < validity(*null_buffer).len());
                }
                assert(indexes@[done as int] < validity(*null_buffer).len());
            }
            let _ = self.extends_from_null_buffer_in_indexes_in_current_block(
                null_buffer,
                to_copy,
            );
            done += to_add;
        }
        proof {
            assert(items.skip(len as int) =~= Seq::<bool>::empty());
            lemma_appended_nothing(true, self.cap(), self.blocks());
        }
    }

    /// Adds `n` items that are all valid or all null to the current block.
    fn push_n_within_block(&mut self, n: usize, is_valid: bool)
        requires
            old(self).wf(),
            old(self).items().len() + n <= usize::MAX,
            FIXED_BLOCK_SIZING ==> old(self).blocks().last().len() + n <= old(self).cap(),
        ensures
            old(self).added(same_bits(is_valid, n as nat), final(self)),
    {
        let ghost before = *self;
        let ghost items = same_bits(is_valid, n as nat);
        let current: usize = self.blocks.len() - 1;
        proof {
            self.lemma_last_len();
        }
        if is_valid {
            append_n_non_nulls(deque_at_mut(&mut self.blocks, current), n);
        } else {
            append_n_nulls(deque_at_mut(&mut self.blocks, current), n);
        }
        assert(self.blocks() =~= before.blocks().update(
            current as int,
            before.blocks().last() + items,
        ));
        self.count_added(n, Ghost(before), Ghost(items));
    }

    /// Adds `n` items that are all valid or all null.
    pub fn push_n(&mut self, n: usize, is_valid: bool)
        requires
            old(self).wf(),
            old(self).items().len() + n <= usize::MAX,
        ensures
            old(self).added(same_bits(is_valid, n as nat), final(self)),
    {
        if !FIXED_BLOCK_SIZING {
            self.push_n_within_block(n, is_valid);
            return;
        }
        let to_reserve: usize = self.blocks_to_reserve(n);
        self.reserve_blocks(to_reserve);
        let ghost before = *self;
        let ghost items = same_bits(is_valid, n as nat);
        let ghost target = appended(true, before.cap(), before.blocks(), items);
        let mut done: usize = 0;
        assert(items.skip(0) =~= items);
        while done < n
            invariant
                FIXED_BLOCK_SIZING,
                self.wf(),
                self.cap() == before.cap(),
                items == same_bits(is_valid, n as nat),
                0 <= done <= n,
                appended(true, self.cap(), self.blocks(), items.skip(done as int)) == target,
                self.items().len() == before.items().len() + done,
                self.counted() == saturated(before.counted() as nat + done as nat),
                before.items().len() + n <= usize::MAX,
            decreases n - done,
        {
            let remaining_in_current_block: usize = self.current_block_remaining_len();
            let to_add: usize = if remaining_in_current_block < n - done {
                remaining_in_current_block
            } else {
                n - done
            };
            let ghost now = *self;
            let ghost left = items.skip(done as int);
            proof {
                lemma_appended_step(now.cap(), now.blocks(), left, to_add as int);
                assert(same_bits(is_valid, to_add as nat) =~= left.take(to_add as int));
                assert(left.skip(to_add as int) =~= items.skip(done + to_add));
                lemma_appended(true, now.cap(), now.blocks(), left.take(to_add as int));
            }
            self.push_n_within_block(to_add, is_valid);
            done += to_add;
        }
        proof {
            assert(items.skip(n as int) =~= Seq::<bool>::empty());
            lemma_appended_nothing(true, self.cap(), self.blocks());
        }
    }

    pub fn push_n_nulls(&mut self, n: usize)
        requires
            old(self).wf(),
            old(self).items().len() + n <= usize::MAX,
        ensures
            old(self).added(same_bits(false, n as nat), final(self)),
    {
        self.push_n(n, false);
    }

    pub fn push_n_non_nulls(&mut self, n: usize)
        requires
            old(self).wf(),
            old(self).items().len() + n <= usize::MAX,
        ensures
            old(self).added(same_bits(true, n as nat), final(self)),
    {
        self.push_n(n, true);
    }

    /// Puts an item into the current block and leaves that open.
    fn put(&mut self, is_valid: bool)
        requires
            old(self).wf(),
            old(self).items().len() < usize::MAX,
        ensures
            final(self).block_size == old(self).block_size,
            final(self).len == old(self).len,
            final(self).blocks() == old(self).blocks().update(
                old(self).blocks().len() - 1,
                old(self).blocks().last() + seq![is_valid],
            ),
    {
        let ghost before = *self;
        let current: usize = self.blocks.len() - 1;
        proof {
            self.lemma_last_len();
        }
        append_validity(deque_at_mut(&mut self.blocks, current), is_valid);
        proof {
            let last = before.blocks().last();
            assert(last + seq![is_valid] =~= last.push(is_valid));
            assert(self.blocks() =~= before.blocks().update(
                current as int,
                last + seq![is_valid],
            ));
        }
    }

    /// Adds an item. Without fixed sizing the current block stays open: for builders that decide
    /// themselves where their blocks end.
    pub(crate) fn push_validity(&mut self, is_valid: bool)
        requires
            old(self).wf(),
            old(self).items().len() < usize::MAX,
        ensures
            old(self).added(seq![is_valid], final(self)),
    {
        let ghost before = *self;
        let ghost items = seq![is_valid];
        self.put(is_valid);
        self.count_added(1, Ghost(before), Ghost(items));
    }

    /// Adds a valid item.
    pub fn push_non_null(&mut self)
        requires
            old(self).wf(),
            old(self).items().len() < usize::MAX,
        ensures
            old(self).added(seq![true], final(self)),
    {
        self.push_validity(true);
    }

    /// Adds a null. A block that this fills is closed, without fixed sizing too.
    pub fn push_null(&mut self)
        requires
            old(self).wf(),
            old(self).items().len() < usize::MAX,
        ensures
            final(self).wf(),
            final(self).cap() == old(self).cap(),
            final(self).blocks() == appended_until_full(
                old(self).cap(),
                old(self).blocks(),
                false,
            ),
            final(self).counted() == saturated(old(self).counted() as nat + 1),
            FIXED_BLOCK_SIZING ==> old(self).added(seq![false], final(self)),
    {
        let ghost before = *self;
        let ghost grown = before.blocks().drop_last().push(before.blocks().last().push(false));
        self.put(false);
        proof {
            let items = seq![false];
            assert(before.blocks().last() + items =~= before.blocks().last().push(false));
            assert(self.blocks() =~= grown);
            lemma_appended_within(FIXED_BLOCK_SIZING, before.cap(), before.blocks(), items);
            lemma_appended(FIXED_BLOCK_SIZING, before.cap(), before.blocks(), items);
            lemma_appended(false, before.cap(), before.blocks(), items);
            assert(concat(grown).len() == before.items().len() + 1);
        }
        self.len = self.len.saturating_add(1);
        if nulls_len(&self.blocks[self.blocks.len() - 1]) == self.block_size {
            self.open_block();
        }
    }

    pub fn is_null(&self, blocked_index: BlocksIndex) -> (is_null: bool)
        requires
            self.wf(),
            self.has(blocked_index),
        ensures
            is_null
                == !self.blocks()[blocked_index.block_index as int][blocked_index.index_in_block
                as int],
    {
        !is_valid_built(
            &self.blocks[blocked_index.block_index()],
            blocked_index.index_in_block(),
        )
    }

    /// Whether there is a null.
    pub fn might_have_nulls(&self) -> (might: bool)
        ensures
            might == exists|i: int, j: int|
                0 <= i < self.blocks().len() && 0 <= j < self.blocks()[i].len()
                    && !#[trigger] self.blocks()[i][j],
    {
        let mut k: usize = 0;
        while k < self.blocks.len()
            invariant
                0 <= k <= self.blocks@.len(),
                forall|i: int, j: int|
                    0 <= i < k && 0 <= j < self.blocks()[i].len() ==> #[trigger] self.blocks()[i][j],
            decreases self.blocks@.len() - k,
        {
            let block: &NullBufferBuilder = &self.blocks[k];
            let ghost valid = self.blocks()[k as int];
            if has_bitmap(block) {
                let mut item: usize = 0;
                while item < nulls_len(block)
                    invariant
                        0 <= item <= valid.len(),
                        0 <= k < self.blocks@.len(),
                        valid == validity_built(*block),
                        valid == self.blocks()[k as int],
                        forall|j: int| 0 <= j < item ==> #[trigger] valid[j],
                    decreases valid.len() - item,
                {
                    if !is_valid_built(block, item) {
                        assert(!self.blocks()[k as int][item as int]);
                        return true;
                    }
                    item += 1;
                }
            } else {
                proof {
                    lemma_no_nulls(valid);
                    assert forall|j: int| 0 <= j < valid.len() implies #[trigger] valid[j] by {
                        assert(same_bits(true, valid.len())[j]);
                    }
                }
            }
            k += 1;
        }
        false
    }

    /// Adds items to the current block. Returns how many.
    pub(crate) fn extend_validity_in_block(&mut self, items: &[bool]) -> (added_items: usize)
        requires
            old(self).wf(),
            old(self).items().len() + items@.len() <= usize::MAX,
            FIXED_BLOCK_SIZING ==> old(self).blocks().last().len() + items@.len() <= old(self).cap(),
        ensures
            old(self).added(items@, final(self)),
            added_items == items@.len(),
    {
        let ghost before = *self;
        let ghost last = before.blocks().last();
        let current: usize = self.blocks.len() - 1;
        let mut i: usize = 0;
        proof {
            self.lemma_last_len();
            assert(last + items@.take(0) =~= last);
            assert(self.blocks() =~= before.blocks().update(
                current as int,
                last + items@.take(0),
            ));
        }
        while i < items.len()
            invariant
                before.wf(),
                self.block_size == before.block_size,
                self.len == before.len,
                0 <= i <= items@.len(),
                last == before.blocks().last(),
                last.len() + items@.len() <= usize::MAX,
                current == before.blocks().len() - 1,
                self.blocks() == before.blocks().update(
                    current as int,
                    last + items@.take(i as int),
                ),
            decreases items@.len() - i,
        {
            let ghost now = self.blocks();
            let ghost grown = last + items@.take(i as int);
            assert(self.blocks()[current as int] == grown);
            assert(self.blocks().len() == self.blocks@.len());
            append_validity(deque_at_mut(&mut self.blocks, current), items[i]);
            proof {
                assert(grown.push(items@[i as int]) =~= last + items@.take(i + 1));
                assert(self.blocks() =~= now.update(current as int, grown.push(items@[i as int])));
                assert(self.blocks() =~= before.blocks().update(
                    current as int,
                    last + items@.take(i + 1),
                ));
            }
            i += 1;
        }
        assert(items@.take(i as int) =~= items@);
        self.count_added(items.len(), Ghost(before), Ghost(items@));
        items.len()
    }

    /// Adds the items that the iterator yields.
    pub fn extend<I: Iterator<Item = bool>>(&mut self, iter: I)
        requires
            old(self).wf(),
            iter.obeys_prophetic_iter_laws(),
            iter.decrease() is Some,
            old(self).items().len() + iter.remaining().len() <= usize::MAX,
        ensures
            old(self).added(iter.remaining(), final(self)),
    {
        let values: Vec<bool> = collect_all(iter);
        if !FIXED_BLOCK_SIZING {
            let _ = self.extend_validity_in_block(values.as_slice());
            return;
        }
        let len: usize = values.len();
        let ghost before = *self;
        let ghost items = values@;
        let ghost target = appended(true, before.cap(), before.blocks(), items);
        let mut done: usize = 0;
        assert(items.skip(0) =~= items);
        while done < len
            invariant
                FIXED_BLOCK_SIZING,
                self.wf(),
                self.cap() == before.cap(),
                items == values@,
                len == items.len(),
                0 <= done <= len,
                appended(true, self.cap(), self.blocks(), items.skip(done as int)) == target,
                self.items().len() == before.items().len() + done,
                self.counted() == saturated(before.counted() as nat + done as nat),
                before.items().len() + len <= usize::MAX,
            decreases len - done,
        {
            let remaining_in_current_block: usize = self.current_block_remaining_len();
            let to_add: usize = if remaining_in_current_block < len - done {
                remaining_in_current_block
            } else {
                len - done
            };
            let ghost now = *self;
            let ghost left = items.skip(done as int);
            let part = vstd::slice::slice_subrange(values.as_slice(), done, done + to_add);
            proof {
                lemma_appended_step(now.cap(), now.blocks(), left, to_add as int);
                assert(part@ =~= left.take(to_add as int));
                assert(left.skip(to_add as int) =~= items.skip(done + to_add));
                lemma_appended(true, now.cap(), now.blocks(), left.take(to_add as int));
            }
            let _ = self.extend_validity_in_block(part);
            done += to_add;
        }
        proof {
            assert(items.skip(len as int) =~= Seq::<bool>::empty());
            lemma_appended_nothing(true, self.cap(), self.blocks());
        }
    }

    /// `after` is this builder without its first block.
    pub open spec fn without_first_block(&self, after: &Self) -> bool {
        &&& after.wf()
        &&& after.cap() == self.cap()
        &&& after.blocks() == if self.blocks().len() == 1 {
            seq![Seq::<bool>::empty()]
        } else {
            self.blocks().skip(1)
        }
    }

    /// Takes the first block: its null buffer if it has a null. There always is a block, though
    /// it may be empty. The running count goes down by one item less than the block has.
    pub fn take_block(&mut self) -> (taken: Option<Option<NullBuffer>>)
        requires
            old(self).wf(),
        ensures
            taken matches Some(buffer) && is_null_buffer_of(buffer, old(self).blocks()[0]),
            old(self).without_first_block(final(self)),
            final(self).counted() == saturated(
                (old(self).counted() - old(self).blocks()[0].len() + 1) as nat,
            ),
    {
        let ghost before = self.blocks();
        proof {
            lemma_concat_first(before);
        }
        match self.blocks.pop_front() {
            Some(block) => {
                if self.blocks.len() == 0 {
                    self.blocks.push_back(new_nulls(self.block_size));
                    proof {
                        assert(before.skip(1) =~= Seq::<Seq<bool>>::empty());
                        assert(self.blocks() =~= seq![Seq::<bool>::empty()]);
                        lemma_concat_one(Seq::<bool>::empty());
                    }
                } else {
                    assert(self.blocks() =~= before.skip(1));
                }
                self.len = (self.len - nulls_len(&block)).saturating_add(1);
                match finish_nulls(block) {
                    Some(buffer) => if null_count(&buffer) > 0 {
                        Some(Some(buffer))
                    } else {
                        Some(None)
                    },
                    None => Some(None),
                }
            },
            None => None,
        }
    }
}

impl<const FIXED_BLOCK_SIZING: bool> vstd::std_specs::core::IndexSpecImpl<BlocksIndex>
    for BlockedNullsBuilder<FIXED_BLOCK_SIZING> {
    open spec fn index_req(&self, index: &BlocksIndex) -> bool {
        self.wf() && self.has(*index)
    }
}

impl<const FIXED_BLOCK_SIZING: bool> Index<BlocksIndex>
    for BlockedNullsBuilder<FIXED_BLOCK_SIZING> {
    type Output = bool;

    /// Whether the item at a position is valid.
    fn index(&self, index: BlocksIndex) -> (is_valid: &bool)
        ensures
            *is_valid == self.blocks()[index.block_index as int][index.index_in_block as int],
    {
        if self.is_null(index) {
            &false
        } else {
            &true
        }
    }
}

// Only where the builder controls the blocks: otherwise they are not of the same size.
impl vstd::std_specs::core::IndexSpecImpl<usize> for BlockedNullsBuilder<true> {
    open spec fn index_req(&self, index: &usize) -> bool {
        self.wf() && self.has(BlocksIndex::at(*index as int, self.cap() as int))
    }
}

impl Index<usize> for BlockedNullsBuilder<true> {
    type Output = bool;

    fn index(&self, index: usize) -> (is_valid: &bool)
        ensures
            ({
                let position = BlocksIndex::at(index as int, self.cap() as int);
                *is_valid
                    == self.blocks()[position.block_index as int][position.index_in_block as int]
            }),
    {
        proof {
            self.lemma_wf();
        }
        &self[BlocksIndex::from_index_in_fixed_block_size(index, self.block_size)]
    }
}

} // verus!
