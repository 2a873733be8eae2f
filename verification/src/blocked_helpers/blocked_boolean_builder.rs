//! Booleans, bit-packed, in blocks.

use crate::arrow_buffers::{
    append_bit, append_bits, append_packed, bits_capacity, bits_len, boolean_values, built_bits,
    finish_bits, get_bit, is_clean, new_bits, packed_bytes, packed_slice, packed_slice_mut,
    same_bits, set_bit, truncate_bits,
};
use crate::blocked_helpers::bits::{bit_at, bits_in, shift_bits_down};
use crate::blocked_helpers::layout::{
    all_full_but_last, appended, appended_until_full, chunks, concat, count_blocks_needed, lemma_appended,
    lemma_appended_nothing, lemma_appended_step, lemma_appended_within, lemma_chunks,
    lemma_concat_at, lemma_concat_first, lemma_concat_one, lemma_full_is_chunks, valid_blocks,
};
use crate::blocked_helpers::take_n_helpers::{
    after_take_n, all_valid, blocks_allocated_size, used_bytes, items_of, lemma_after_take_n,
    shift_fixed_blocks, take_n_from_blocks, valid_sizes, BlockBuilder,
};
use crate::collections::{collect_all, deque_at_mut};
use crate::groups_accumulator::BlocksIndex;
use crate::memory::is_queue_size;
use arrow::array::BooleanBufferBuilder;
use arrow::buffer::BooleanBuffer;
use std::collections::VecDeque;
use std::ops::{Index, Range};
use vstd::layout::size_of;
use vstd::prelude::*;
use vstd::std_specs::iter::IteratorSpec;

verus! {

impl BlockBuilder for BooleanBufferBuilder {
    type Item = bool;

    type Output = BooleanBuffer;

    open spec fn items(&self) -> Seq<bool> {
        built_bits(*self)
    }

    open spec fn valid(&self) -> bool {
        is_clean(*self)
    }

    open spec fn fits(items: Seq<bool>) -> bool {
        items.len() <= usize::MAX
    }

    open spec fn bytes_of(items: Seq<bool>) -> nat {
        (items.len() + 7) / 8
    }

    open spec fn is_output(output: BooleanBuffer, items: Seq<bool>) -> bool {
        boolean_values(output) == items
    }

    proof fn lemma_fits_part(items: Seq<bool>, from: int, to: int) {
    }

    fn with_capacity(capacity: usize) -> (block: Self) {
        let block = new_bits(capacity);
        assert(built_bits(block) =~= Seq::<bool>::empty());
        block
    }

    fn len(&self) -> (len: usize) {
        bits_len(self)
    }

    fn truncate(&mut self, len: usize) {
        truncate_bits(self, len);
    }

    fn append_range(&mut self, src: &Self, range: Range<usize>) {
        append_packed(self, range.start, range.end, packed_slice(src));
        proof {
            assert(bits_in(packed_bytes(*src), range.start as int, range.end as int)
                =~= built_bits(*src).subrange(range.start as int, range.end as int));
        }
    }

    fn shift_down(&mut self, offset: usize, len: usize) {
        let ghost before = packed_bytes(*self);
        let ghost wanted = built_bits(*self).subrange(offset as int, offset + len);
        if offset == 0 {
            truncate_bits(self, len);
            assert(built_bits(*self) =~= wanted);
            return;
        }
        shift_bits_down(packed_slice_mut(self), offset, len);
        let ghost shifted = packed_bytes(*self);
        let ghost bits = built_bits(*self);
        truncate_bits(self, len);
        proof {
            assert forall|i: int| 0 <= i < len implies bits.take(len as int)[i] == wanted[i] by {
                assert(bit_at(shifted, i) == bit_at(before, i + offset));
            }
            assert(built_bits(*self) =~= wanted);
        }
    }

    fn allocated_size(&self) -> (bytes: usize) {
        bits_capacity(self) / 8
    }

    fn finish(self) -> (output: BooleanBuffer) {
        finish_bits(self)
    }
}

/// Collects booleans, block by block.
///
/// When `FIXED_BLOCK_SIZING` is true every block is closed once it holds `block_size` values;
/// otherwise the callers decide when a new block starts, but for a single value that fills a block
/// to `block_size` values.
#[derive(Debug)]
pub struct BlockedBooleanBuilder<const FIXED_BLOCK_SIZING: bool> {
    /// A queue, so that the first block can be handed out. There is always a block to write to.
    blocks: VecDeque<BooleanBufferBuilder>,
    /// The number of values in a full block.
    block_size: usize,
    len: usize,
}

impl<const FIXED_BLOCK_SIZING: bool> BlockedBooleanBuilder<FIXED_BLOCK_SIZING> {
    /// The values in each block, the block being written to included.
    pub closed spec fn blocks(&self) -> Seq<Seq<bool>> {
        items_of(self.blocks@)
    }

    /// The number of values in a full block.
    pub closed spec fn cap(&self) -> nat {
        self.block_size as nat
    }

    /// All the values.
    pub open spec fn values(&self) -> Seq<bool> {
        concat(self.blocks())
    }

    pub closed spec fn wf(&self) -> bool {
        &&& all_valid(self.blocks@)
        &&& valid_blocks(FIXED_BLOCK_SIZING, self.cap(), self.blocks())
        &&& self.len == self.values().len()
    }

    /// `after` is this builder with `items` added behind the others.
    pub open spec fn added(&self, items: Seq<bool>, after: &Self) -> bool {
        &&& after.wf()
        &&& after.cap() == self.cap()
        &&& after.blocks() == appended(FIXED_BLOCK_SIZING, self.cap(), self.blocks(), items)
    }

    /// A position where there is a value.
    pub open spec fn has(&self, index: BlocksIndex) -> bool {
        &&& index.block_index < self.blocks().len()
        &&& index.index_in_block < self.blocks()[index.block_index as int].len()
    }

    /// What holds of the blocks of every builder.
    pub proof fn lemma_wf(&self)
        requires
            self.wf(),
        ensures
            valid_blocks(FIXED_BLOCK_SIZING, self.cap(), self.blocks()),
            self.values().len() <= usize::MAX,
    {
    }

    /// No block is longer than all blocks together.
    proof fn lemma_block_len(&self, i: int)
        requires
            0 <= i < self.blocks().len(),
        ensures
            self.blocks()[i].len() <= self.values().len(),
    {
        lemma_concat_at(self.blocks(), i);
    }

    pub fn new(block_size: usize) -> (builder: Self)
        requires
            FIXED_BLOCK_SIZING ==> block_size > 0,
        ensures
            builder.wf(),
            builder.blocks() == seq![Seq::<bool>::empty()],
            builder.cap() == block_size,
    {
        let mut blocks: VecDeque<BooleanBufferBuilder> = VecDeque::new();
        blocks.push_back(BooleanBufferBuilder::with_capacity(block_size));
        let builder = BlockedBooleanBuilder { blocks, block_size, len: 0 };
        proof {
            assert(builder.blocks() =~= seq![Seq::<bool>::empty()]);
            lemma_concat_one(Seq::<bool>::empty());
        }
        builder
    }

    /// The number of values: those that [`Self::take_n`] takes and those that it leaves together.
    pub fn len(&self) -> (len: usize)
        requires
            self.wf(),
        ensures
            len == self.values().len(),
    {
        self.len
    }

    /// Heap bytes that the builder has allocated.
    pub fn allocated_size(&self) -> (bytes: usize)
        requires
            self.wf(),
        ensures
            is_queue_size(
                bytes,
                size_of::<BooleanBufferBuilder>(),
                used_bytes::<BooleanBufferBuilder>(self.blocks()),
            ),
    {
        blocks_allocated_size(&self.blocks)
    }

    /// The number of values in a full block.
    pub fn block_size(&self) -> (block_size: usize)
        requires
            FIXED_BLOCK_SIZING,
        ensures
            block_size == self.cap(),
    {
        self.block_size
    }

    /// Opens a new block.
    pub fn start_new_block(&mut self)
        requires
            old(self).wf(),
        ensures
            final(self).wf(),
            final(self).cap() == old(self).cap(),
            final(self).blocks() == old(self).blocks().push(Seq::empty()),
    {
        self.open_block();
    }

    fn open_block(&mut self)
        requires
            all_valid(old(self).blocks@),
            old(self).len == old(self).values().len(),
            FIXED_BLOCK_SIZING ==> {
                &&& 0 < old(self).block_size
                &&& forall|i: int|
                    0 <= i < old(self).blocks().len() ==> (#[trigger] old(self).blocks()[i]).len()
                        <= old(self).cap()
            },
        ensures
            final(self).wf(),
            final(self).cap() == old(self).cap(),
            final(self).blocks() == old(self).blocks().push(Seq::empty()),
    {
        let ghost before = self.blocks();
        self.blocks.push_back(BooleanBufferBuilder::with_capacity(self.block_size));
        proof {
            assert(self.blocks() =~= before.push(Seq::empty()));
            assert(self.blocks().drop_last() =~= before);
            assert(concat(before) + Seq::<bool>::empty() =~= concat(before));
        }
    }

    /// Counts `added` values that were put into the current block, and opens a new block if
    /// they filled it.
    fn count_added(&mut self, added: usize, Ghost(before): Ghost<Self>, Ghost(items): Ghost<
        Seq<bool>,
    >)
        requires
            before.wf(),
            items.len() == added,
            before.values().len() + added <= usize::MAX,
            FIXED_BLOCK_SIZING ==> before.blocks().last().len() + added <= before.cap(),
            all_valid(old(self).blocks@),
            old(self).block_size == before.block_size,
            old(self).len == before.len,
            old(self).blocks() == before.blocks().update(
                before.blocks().len() - 1,
                before.blocks().last() + items,
            ),
        ensures
            before.added(items, final(self)),
    {
        let ghost grown = self.blocks();
        proof {
            lemma_appended_within(FIXED_BLOCK_SIZING, before.cap(), before.blocks(), items);
            lemma_appended(FIXED_BLOCK_SIZING, before.cap(), before.blocks(), items);
            assert(grown.drop_last() =~= before.blocks().drop_last());
            assert(concat(grown) =~= before.values() + items);
        }
        self.len = self.len + added;
        if FIXED_BLOCK_SIZING && bits_len(&self.blocks[self.blocks.len() - 1])
            == self.block_size {
            self.open_block();
        }
    }

    /// Makes room in the queue for `n` more blocks.
    pub(crate) fn reserve_blocks(&mut self, n: usize)
        requires
            old(self).wf(),
        ensures
            final(self).wf(),
            final(self).cap() == old(self).cap(),
            final(self).blocks() == old(self).blocks(),
    {
        self.blocks.reserve(n);
    }

    /// How many values the current block still has room for.
    fn current_block_remaining_len(&self) -> (remaining: usize)
        requires
            self.wf(),
            FIXED_BLOCK_SIZING,
        ensures
            remaining == self.cap() - self.blocks().last().len(),
            remaining > 0,
    {
        self.block_size - bits_len(&self.blocks[self.blocks.len() - 1])
    }

    /// Adds a value `n` times to the current block.
    fn push_n_within_block(&mut self, n: usize, is_set: bool)
        requires
            old(self).wf(),
            old(self).values().len() + n <= usize::MAX,
            FIXED_BLOCK_SIZING ==> old(self).blocks().last().len() + n <= old(self).cap(),
        ensures
            old(self).added(same_bits(is_set, n as nat), final(self)),
    {
        let ghost before = *self;
        let ghost items = same_bits(is_set, n as nat);
        let current: usize = self.blocks.len() - 1;
        proof {
            self.lemma_block_len(current as int);
        }
        append_bits(deque_at_mut(&mut self.blocks, current), n, is_set);
        assert(self.blocks() =~= before.blocks().update(
            current as int,
            before.blocks().last() + items,
        ));
        self.count_added(n, Ghost(before), Ghost(items));
    }

    /// Adds a value `n` times.
    pub fn append_n(&mut self, n: usize, is_set: bool)
        requires
            old(self).wf(),
            old(self).values().len() + n <= usize::MAX,
        ensures
            old(self).added(same_bits(is_set, n as nat), final(self)),
    {
        if !FIXED_BLOCK_SIZING {
            self.push_n_within_block(n, is_set);
            return;
        }
        let remaining: usize = self.current_block_remaining_len();
        let to_reserve: usize = count_blocks_needed(n, remaining, self.block_size);
        self.reserve_blocks(to_reserve);
        let ghost before = *self;
        let ghost items = same_bits(is_set, n as nat);
        let ghost target = appended(true, before.cap(), before.blocks(), items);
        let mut done: usize = 0;
        assert(items.skip(0) =~= items);
        while done < n
            invariant
                FIXED_BLOCK_SIZING,
                self.wf(),
                self.cap() == before.cap(),
                items == same_bits(is_set, n as nat),
                0 <= done <= n,
                appended(true, self.cap(), self.blocks(), items.skip(done as int)) == target,
                self.values().len() == before.values().len() + done,
                before.values().len() + n <= usize::MAX,
            decreases n - done,
        {
            let remaining_in_current_block: usize = self.current_block_remaining_len();
            let to_add: usize = if remaining_in_current_block < n - done {
                remaining_in_current_block
            } else {
                n - done
            };
            let ghost now = *self;
            let ghost left = items.skip(done as int);
            proof {
                lemma_appended_step(now.cap(), now.blocks(), left, to_add as int);
                assert(same_bits(is_set, to_add as nat) =~= left.take(to_add as int));
                assert(left.skip(to_add as int) =~= items.skip(done + to_add));
                lemma_appended(true, now.cap(), now.blocks(), left.take(to_add as int));
            }
            self.push_n_within_block(to_add, is_set);
            done += to_add;
        }
        proof {
            assert(items.skip(n as int) =~= Seq::<bool>::empty());
            lemma_appended_nothing(true, self.cap(), self.blocks());
        }
    }

    /// Adds a value. A block that this fills is closed, without fixed sizing too.
    pub fn append(&mut self, is_set: bool)
        requires
            old(self).wf(),
            old(self).values().len() < usize::MAX,
        ensures
            final(self).wf(),
            final(self).cap() == old(self).cap(),
            final(self).blocks() == appended_until_full(
                old(self).cap(),
                old(self).blocks(),
                is_set,
            ),
            FIXED_BLOCK_SIZING ==> old(self).added(seq![is_set], final(self)),
    {
        let ghost before = *self;
        let ghost grown = before.blocks().drop_last().push(before.blocks().last().push(is_set));
        let current: usize = self.blocks.len() - 1;
        proof {
            self.lemma_block_len(current as int);
        }
        append_bit(deque_at_mut(&mut self.blocks, current), is_set);
        proof {
            let items = seq![is_set];
            assert(before.blocks().last() + items =~= before.blocks().last().push(is_set));
            assert(self.blocks() =~= grown);
            assert(grown =~= before.blocks().update(
                current as int,
                before.blocks().last() + items,
            ));
            lemma_appended_within(FIXED_BLOCK_SIZING, before.cap(), before.blocks(), items);
            lemma_appended(FIXED_BLOCK_SIZING, before.cap(), before.blocks(), items);
            lemma_appended(false, before.cap(), before.blocks(), items);
            assert(concat(grown).len() == before.values().len() + 1);
        }
        self.len = self.len + 1;
        if bits_len(&self.blocks[self.blocks.len() - 1]) == self.block_size {
            self.open_block();
        }
    }

    /// Adds values to the current block. Returns how many.
    pub(crate) fn extend_validity_in_block(&mut self, values: &[bool]) -> (added_items: usize)
        requires
            old(self).wf(),
            old(self).values().len() + values@.len() <= usize::MAX,
            FIXED_BLOCK_SIZING ==> old(self).blocks().last().len() + values@.len() <= old(self).cap(),
        ensures
            old(self).added(values@, final(self)),
            added_items == values@.len(),
    {
        let ghost before = *self;
        let ghost last = before.blocks().last();
        let current: usize = self.blocks.len() - 1;
        let mut i: usize = 0;
        proof {
            self.lemma_block_len(current as int);
            assert(last + values@.take(0) =~= last);
            assert(self.blocks() =~= before.blocks().update(
                current as int,
                last + values@.take(0),
            ));
        }
        while i < values.len()
            invariant
                before.wf(),
                all_valid(self.blocks@),
                self.block_size == before.block_size,
                self.len == before.len,
                0 <= i <= values@.len(),
                last == before.blocks().last(),
                last.len() + values@.len() <= usize::MAX,
                current == before.blocks().len() - 1,
                self.blocks() == before.blocks().update(
                    current as int,
                    last + values@.take(i as int),
                ),
            decreases values@.len() - i,
        {
            let ghost now = self.blocks();
            let ghost grown = last + values@.take(i as int);
            assert(self.blocks()[current as int] == grown);
            assert(self.blocks().len() == self.blocks@.len());
            append_bit(deque_at_mut(&mut self.blocks, current), values[i]);
            proof {
                assert(grown.push(values@[i as int]) =~= last + values@.take(i + 1));
                assert(self.blocks() =~= now.update(current as int, grown.push(values@[i as int])));
                assert(self.blocks() =~= before.blocks().update(
                    current as int,
                    last + values@.take(i + 1),
                ));
            }
            i += 1;
        }
        assert(values@.take(i as int) =~= values@);
        self.count_added(values.len(), Ghost(before), Ghost(values@));
        values.len()
    }

    /// Adds the values that the iterator yields.
    pub fn extend<I: Iterator<Item = bool>>(&mut self, iter: I)
        requires
            old(self).wf(),
            iter.obeys_prophetic_iter_laws(),
            iter.decrease() is Some,
            old(self).values().len() + iter.remaining().len() <= usize::MAX,
        ensures
            old(self).added(iter.remaining(), final(self)),
    {
        let values: Vec<bool> = collect_all(iter);
        if !FIXED_BLOCK_SIZING {
            let _ = self.extend_validity_in_block(values.as_slice());
            return;
        }
        let len: usize = values.len();
        let ghost before = *self;
        let ghost items = values@;
        let ghost target = appended(true, before.cap(), before.blocks(), items);
        let mut done: usize = 0;
        assert(items.skip(0) =~= items);
        while done < len
            invariant
                FIXED_BLOCK_SIZING,
                self.wf(),
                self.cap() == before.cap(),
                items == values@,
                len == items.len(),
                0 <= done <= len,
                appended(true, self.cap(), self.blocks(), items.skip(done as int)) == target,
                self.values().len() == before.values().len() + done,
                before.values().len() + len <= usize::MAX,
            decreases len - done,
        {
            let remaining_in_current_block: usize = self.current_block_remaining_len();
            let to_add: usize = if remaining_in_current_block < len - done {
                remaining_in_current_block
            } else {
                len - done
            };
            let ghost now = *self;
            let ghost left = items.skip(done as int);
            let part = vstd::slice::slice_subrange(values.as_slice(), done, done + to_add);
            proof {
                lemma_appended_step(now.cap(), now.blocks(), left, to_add as int);
                assert(part@ =~= left.take(to_add as int));
                assert(left.skip(to_add as int) =~= items.skip(done + to_add));
                lemma_appended(true, now.cap(), now.blocks(), left.take(to_add as int));
            }
            let _ = self.extend_validity_in_block(part);
            done += to_add;
        }
        proof {
            assert(items.skip(len as int) =~= Seq::<bool>::empty());
            lemma_appended_nothing(true, self.cap(), self.blocks());
        }
    }

    pub fn get_bit(&self, blocked_index: BlocksIndex) -> (is_set: bool)
        requires
            self.wf(),
            self.has(blocked_index),
        ensures
            is_set == self.blocks()[blocked_index.block_index as int][blocked_index.index_in_block
                as int],
    {
        get_bit(&self.blocks[blocked_index.block_index()], blocked_index.index_in_block())
    }

    pub fn set_bit(&mut self, blocked_index: BlocksIndex, is_set: bool)
        requires
            old(self).wf(),
            old(self).has(blocked_index),
        ensures
            final(self).wf(),
            final(self).cap() == old(self).cap(),
            final(self).blocks() == old(self).blocks().update(
                blocked_index.block_index as int,
                old(self).blocks()[blocked_index.block_index as int].update(
                    blocked_index.index_in_block as int,
                    is_set,
                ),
            ),
    {
        let ghost before = self.blocks();
        let ghost i = blocked_index.block_index as int;
        let ghost changed = before[i].update(blocked_index.index_in_block as int, is_set);
        set_bit(
            deque_at_mut(&mut self.blocks, blocked_index.block_index()),
            blocked_index.index_in_block(),
            is_set,
        );
        proof {
            assert(self.blocks() =~= before.update(i, changed));
            lemma_concat_at(before, i);
            lemma_concat_at(self.blocks(), i);
            assert(self.blocks().take(i) =~= before.take(i));
            assert(self.blocks().skip(i + 1) =~= before.skip(i + 1));
        }
    }

    /// `after` is this builder without its first block.
    pub open spec fn without_first_block(&self, after: &Self) -> bool {
        &&& after.wf()
        &&& after.cap() == self.cap()
        &&& after.blocks() == if self.blocks().len() == 1 {
            seq![Seq::<bool>::empty()]
        } else {
            self.blocks().skip(1)
        }
    }

    /// Takes the first block. There always is one, though it may be empty.
    pub fn take_block(&mut self) -> (taken: Option<BooleanBuffer>)
        requires
            old(self).wf(),
        ensures
            taken matches Some(buffer) && boolean_values(buffer) == old(self).blocks()[0],
            old(self).without_first_block(final(self)),
    {
        let ghost before = self.blocks();
        proof {
            lemma_concat_first(before);
        }
        match self.blocks.pop_front() {
            Some(block) => {
                if self.blocks.len() == 0 {
                    self.blocks.push_back(BooleanBufferBuilder::with_capacity(self.block_size));
                    proof {
                        assert(before.skip(1) =~= Seq::<Seq<bool>>::empty());
                        assert(self.blocks() =~= seq![Seq::<bool>::empty()]);
                        lemma_concat_one(Seq::<bool>::empty());
                    }
                } else {
                    assert(self.blocks() =~= before.skip(1));
                }
                self.len = self.len - bits_len(&block);
                Some(finish_bits(block))
            },
            None => None,
        }
    }

    /// Takes all the blocks.
    pub fn take_all(&mut self) -> (taken: Vec<BooleanBuffer>)
        requires
            old(self).wf(),
        ensures
            taken@.len() == old(self).blocks().len(),
            forall|i: int|
                0 <= i < taken@.len() ==> boolean_values(#[trigger] taken@[i]) == old(self).blocks()[i],
            final(self).wf(),
            final(self).cap() == old(self).cap(),
            final(self).blocks() == seq![Seq::<bool>::empty()],
    {
        let ghost before = *self;
        let mut taken: Vec<BooleanBuffer> = Vec::new();
        let mut blocks: VecDeque<BooleanBufferBuilder> = VecDeque::new();
        blocks.push_back(BooleanBufferBuilder::with_capacity(self.block_size));
        core::mem::swap(&mut self.blocks, &mut blocks);
        self.len = 0;
        proof {
            assert(self.blocks() =~= seq![Seq::<bool>::empty()]);
            lemma_concat_one(Seq::<bool>::empty());
        }
        while blocks.len() > 0
            invariant
                all_valid(blocks@),
                blocks@.len() + taken@.len() == before.blocks@.len(),
                blocks@ == before.blocks@.skip(taken@.len() as int),
                forall|i: int|
                    0 <= i < taken@.len() ==> boolean_values(#[trigger] taken@[i])
                        == before.blocks()[i],
            decreases blocks@.len(),
        {
            let ghost at = taken@.len() as int;
            if let Some(block) = blocks.pop_front() {
                assert(block == before.blocks@[at]);
                assert(before.blocks()[at] == block.items());
                taken.push(finish_bits(block));
            }
        }
        taken
    }

    /// When the first `n` values can be taken and the others given new block sizes.
    pub open spec fn can_take_n_dynamic(&self, n: nat, sizes: Seq<usize>) -> bool {
        &&& n <= self.blocks()[0].len()
        &&& valid_sizes(self.blocks(), n, sizes)
    }

    /// When the first `n` values can be taken from blocks that are all full but the last.
    pub open spec fn can_take_n_fixed(&self, n: nat) -> bool {
        &&& all_full_but_last(self.cap(), self.blocks())
        &&& n <= self.values().len()
        &&& n <= self.cap()
    }

    /// Takes the first `n` values, which must lie in the first block.
    ///
    /// The sizes that the blocks are to have afterwards are given exactly if
    /// `FIXED_BLOCK_SIZING` is false; together with `n` they add up to the number of values.
    pub fn take_n<I: Iterator<Item = usize>>(
        &mut self,
        n: usize,
        adjusted_block_size_iter: Option<I>,
    ) -> (taken: BooleanBuffer)
        requires
            old(self).wf(),
            FIXED_BLOCK_SIZING == adjusted_block_size_iter is None,
            adjusted_block_size_iter is Some ==> {
                let sizes = adjusted_block_size_iter->0;
                &&& sizes.obeys_prophetic_iter_laws()
                &&& sizes.decrease() is Some
                &&& old(self).can_take_n_dynamic(n as nat, sizes.remaining())
            },
            adjusted_block_size_iter is None ==> old(self).can_take_n_fixed(n as nat),
        ensures
            boolean_values(taken) == old(self).values().take(n as int),
            final(self).wf(),
            final(self).cap() == old(self).cap(),
            final(self).values() == old(self).values().skip(n as int),
            final(self).blocks() == match adjusted_block_size_iter {
                Some(sizes) => after_take_n(old(self).blocks(), n as nat, sizes.remaining()),
                None => chunks(old(self).values().skip(n as int), old(self).cap()),
            },
    {
        let ghost before = self.blocks();
        proof {
            lemma_concat_first(before);
        }
        match adjusted_block_size_iter {
            Some(sizes) => {
                let sizes: Vec<usize> = collect_all(sizes);
                proof {
                    assert(self.values().take(n as int) =~= before[0].take(n as int));
                    assert forall|i: int|
                        0 <= i < after_take_n(before, n as nat, sizes@).len() implies (
                    #[trigger] after_take_n(before, n as nat, sizes@)[i]).len() <= usize::MAX by {
                        lemma_after_take_n_len(before, n as nat, sizes@, i);
                    }
                }
                let (taken, layout) = take_n_from_blocks(
                    &mut self.blocks,
                    self.len,
                    n,
                    sizes.as_slice(),
                );
                self.len = layout.len;
                taken
            },
            None => self.take_n_fixed(n),
        }
    }

    fn take_n_fixed(&mut self, n: usize) -> (taken: BooleanBuffer)
        requires
            old(self).wf(),
            FIXED_BLOCK_SIZING,
            old(self).can_take_n_fixed(n as nat),
        ensures
            boolean_values(taken) == old(self).values().take(n as int),
            final(self).wf(),
            final(self).cap() == old(self).cap(),
            final(self).values() == old(self).values().skip(n as int),
            final(self).blocks() == chunks(old(self).values().skip(n as int), old(self).cap()),
    {
        let ghost before = self.blocks();
        let ghost values = self.values();
        let ghost cap = self.cap();
        proof {
            lemma_concat_first(before);
            lemma_full_is_chunks(before, cap);
            lemma_chunks(values.skip(n as int), cap);
            if before.len() == 1 {
                assert(before.skip(1) =~= Seq::<Seq<bool>>::empty());
            } else {
                assert(before[0].len() == cap);
            }
            assert(values.take(n as int) =~= before[0].take(n as int));
        }
        if n == self.len || n == self.block_size {
            proof {
                assert(before[0].take(n as int) =~= before[0]);
                assert(values.skip(n as int) =~= concat(before.skip(1)));
                if before.len() == 1 {
                    assert(chunks(Seq::<bool>::empty(), cap) =~= seq![Seq::<bool>::empty()]);
                    lemma_concat_one(Seq::<bool>::empty());
                } else {
                    let rest = before.skip(1);
                    assert forall|i: int| 0 <= i < rest.len() - 1 implies (#[trigger] rest[i]).len()
                        == cap by {
                        assert(rest[i] == before[i + 1]);
                    }
                    lemma_full_is_chunks(rest, cap);
                }
            }
            return match self.take_block() {
                Some(block) => block,
                None => finish_bits(BooleanBufferBuilder::with_capacity(0)),
            };
        }
        if n == 0 {
            proof {
                assert(values.skip(0) =~= values);
                assert(values.take(0) =~= Seq::<bool>::empty());
            }
            return finish_bits(BooleanBufferBuilder::with_capacity(0));
        }
        proof {
            assert(Seq::<bool>::empty() + before[0].subrange(0, n as int) =~= before[0].take(
                n as int,
            ));
        }
        let mut taken: BooleanBufferBuilder = BooleanBufferBuilder::with_capacity(n);
        taken.append_range(&self.blocks[0], 0..n);
        shift_fixed_blocks(&mut self.blocks, self.len, n, self.block_size);
        self.len = self.len - n;
        finish_bits(taken)
    }
}

/// No block that is left is longer than all the values were.
proof fn lemma_after_take_n_len<T>(blocks: Seq<Seq<T>>, n: nat, sizes: Seq<usize>, i: int)
    requires
        blocks.len() > 0,
        n <= blocks[0].len(),
        valid_sizes(blocks, n, sizes),
        0 <= i < after_take_n(blocks, n, sizes).len(),
        concat(blocks).len() <= usize::MAX,
    ensures
        after_take_n(blocks, n, sizes)[i].len() <= usize::MAX,
{
    lemma_concat_first(blocks);
    lemma_after_take_n(blocks, n, sizes);
    lemma_concat_at(after_take_n(blocks, n, sizes), i);
}

impl<const FIXED_BLOCK_SIZING: bool> vstd::std_specs::core::IndexSpecImpl<BlocksIndex>
    for BlockedBooleanBuilder<FIXED_BLOCK_SIZING> {
    open spec fn index_req(&self, index: &BlocksIndex) -> bool {
        self.wf() && self.has(*index)
    }
}

impl<const FIXED_BLOCK_SIZING: bool> Index<BlocksIndex>
    for BlockedBooleanBuilder<FIXED_BLOCK_SIZING> {
    type Output = bool;

    fn index(&self, index: BlocksIndex) -> (is_set: &bool)
        ensures
            *is_set == self.blocks()[index.block_index as int][index.index_in_block as int],
    {
        if self.get_bit(index) {
            &true
        } else {
            &false
        }
    }
}

// Only where the builder controls the blocks: otherwise they are not of the same size.
impl vstd::std_specs::core::IndexSpecImpl<usize> for BlockedBooleanBuilder<true> {
    open spec fn index_req(&self, index: &usize) -> bool {
        self.wf() && self.has(BlocksIndex::at(*index as int, self.cap() as int))
    }
}

impl Index<usize> for BlockedBooleanBuilder<true> {
    type Output = bool;

    fn index(&self, index: usize) -> (is_set: &bool)
        ensures
            ({
                let position = BlocksIndex::at(index as int, self.cap() as int);
                *is_set
                    == self.blocks()[position.block_index as int][position.index_in_block as int]
            }),
    {
        proof {
            self.lemma_wf();
        }
        &self[BlocksIndex::from_index_in_fixed_block_size(index, self.block_size)]
    }
}

} // verus!
