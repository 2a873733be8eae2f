//! Taking the first values out of a queue of blocks while giving the rest new block sizes.

use crate::blocked_helpers::layout::{
    all_full_but_last, chunks, concat, lemma_concat_first, lemma_concat_one, lemma_full_is_chunks,
    lemma_split_by, lemma_sum_first, split_by, sum,
};
use crate::collections::{deque_at_mut, deque_capacity};
use crate::memory::{allocated_bytes, cover, has_room, is_queue_size};
use std::collections::VecDeque;
use std::ops::Range;
use vstd::arithmetic::div_mod::lemma_fundamental_div_mod_converse;
use vstd::layout::size_of;
use vstd::prelude::*;

verus! {

/// A growable block of values.
pub trait BlockBuilder: Sized {
    type Item;

    /// What a block becomes once nothing is added to it any more.
    type Output;

    /// The values in the block.
    spec fn items(&self) -> Seq<Self::Item>;

    /// The block is in a state that its methods accept.
    spec fn valid(&self) -> bool;

    /// One block can hold these values.
    spec fn fits(items: Seq<Self::Item>) -> bool;

    /// The bytes that these values take in a block.
    spec fn bytes_of(items: Seq<Self::Item>) -> nat;

    /// The finished block holds exactly these values.
    spec fn is_output(output: Self::Output, items: Seq<Self::Item>) -> bool;

    /// A stretch of values that fit into one block fits as well.
    proof fn lemma_fits_part(items: Seq<Self::Item>, from: int, to: int)
        requires
            Self::fits(items),
            0 <= from <= to <= items.len(),
        ensures
            Self::fits(items.subrange(from, to)),
    ;

    fn with_capacity(capacity: usize) -> (block: Self)
        ensures
            block.valid(),
            block.items() == Seq::<Self::Item>::empty(),
    ;

    fn len(&self) -> (len: usize)
        requires
            self.valid(),
        ensures
            len == self.items().len(),
    ;

    /// Keeps the first `len` values.
    fn truncate(&mut self, len: usize)
        requires
            old(self).valid(),
            len <= old(self).items().len(),
        ensures
            final(self).valid(),
            final(self).items() == old(self).items().take(len as int),
    ;

    /// Adds the values of `src` in `range`.
    fn append_range(&mut self, src: &Self, range: Range<usize>)
        requires
            old(self).valid(),
            src.valid(),
            range.start <= range.end <= src.items().len(),
            Self::fits(
                old(self).items() + src.items().subrange(range.start as int, range.end as int),
            ),
        ensures
            final(self).valid(),
            final(self).items() == old(self).items() + src.items().subrange(
                range.start as int,
                range.end as int,
            ),
    ;

    /// Moves the `len` values from `offset` on to the start and drops all others.
    fn shift_down(&mut self, offset: usize, len: usize)
        requires
            old(self).valid(),
            offset + len <= old(self).items().len(),
        ensures
            final(self).valid(),
            final(self).items() == old(self).items().subrange(offset as int, offset + len),
    ;

    /// Heap bytes that the block has allocated, at least those that its values take and no more
    /// than one allocation can have.
    fn allocated_size(&self) -> (bytes: usize)
        requires
            self.valid(),
        ensures
            Self::bytes_of(self.items()) <= bytes <= isize::MAX,
    ;

    fn finish(self) -> (output: Self::Output)
        requires
            self.valid(),
        ensures
            Self::is_output(output, self.items()),
    ;
}

/// The values of each block.
pub open spec fn items_of<B: BlockBuilder>(blocks: Seq<B>) -> Seq<Seq<B::Item>> {
    Seq::new(blocks.len(), |i: int| blocks[i].items())
}

pub open spec fn all_valid<B: BlockBuilder>(blocks: Seq<B>) -> bool {
    forall|i: int| 0 <= i < blocks.len() ==> (#[trigger] blocks[i]).valid()
}

/// Every block of values fits into one block.
pub open spec fn all_fit<B: BlockBuilder>(blocks: Seq<Seq<B::Item>>) -> bool {
    forall|i: int| 0 <= i < blocks.len() ==> B::fits(#[trigger] blocks[i])
}

/// The bytes that the values of each block take.
pub open spec fn used_bytes<B: BlockBuilder>(blocks: Seq<Seq<B::Item>>) -> Seq<nat> {
    Seq::new(blocks.len(), |i: int| B::bytes_of(blocks[i]))
}

/// Heap bytes that the blocks and the queue that holds them have allocated, or the largest
/// number there is if they are more than that.
pub(crate) fn blocks_allocated_size<B: BlockBuilder>(blocks: &VecDeque<B>) -> (bytes: usize)
    requires
        all_valid(blocks@),
    ensures
        is_queue_size(bytes, size_of::<B>(), used_bytes::<B>(items_of(blocks@))),
{
    let ghost used = used_bytes::<B>(items_of(blocks@));
    let mut sizes: Vec<usize> = Vec::new();
    let mut i: usize = 0;
    while i < blocks.len()
        invariant
            all_valid(blocks@),
            used == used_bytes::<B>(items_of(blocks@)),
            i == sizes@.len() <= blocks@.len(),
            forall|k: int| 0 <= k < i ==> used[k] <= #[trigger] sizes@[k] <= isize::MAX,
        decreases blocks@.len() - i,
    {
        sizes.push(blocks[i].allocated_size());
        i += 1;
    }
    let capacity: usize = deque_capacity(blocks);
    let bytes: usize = allocated_bytes(capacity, core::mem::size_of::<B>(), sizes.as_slice());
    assert(has_room(capacity, size_of::<B>(), used.len()) && cover(sizes@, used));
    bytes
}

/// How many values each block holds.
pub open spec fn is_sizes_of<T>(sizes: Seq<usize>, blocks: Seq<Seq<T>>) -> bool {
    &&& sizes.len() == blocks.len()
    &&& forall|i: int| 0 <= i < sizes.len() ==> #[trigger] sizes[i] == blocks[i].len()
}

/// The block sizes that may be asked for once the first `n` values are taken.
///
/// They add up to the number of values that stay. Where no value changes its block, because
/// the first block goes as a whole or nothing goes, the blocks keep their sizes; otherwise
/// no empty block is asked for behind the last value.
pub open spec fn valid_sizes<T>(blocks: Seq<Seq<T>>, n: nat, sizes: Seq<usize>) -> bool {
    if n == blocks[0].len() {
        is_sizes_of(sizes, blocks.skip(1))
    } else if n == 0 {
        is_sizes_of(sizes, blocks)
    } else {
        &&& sum(sizes) + n == concat(blocks).len()
        &&& sizes.last() > 0
    }
}

/// The blocks that are left once the first `n` values are taken. There is always one.
pub open spec fn after_take_n<T>(blocks: Seq<Seq<T>>, n: nat, sizes: Seq<usize>) -> Seq<Seq<T>> {
    if blocks.len() == 1 && n == blocks[0].len() {
        seq![Seq::empty()]
    } else {
        split_by(concat(blocks).skip(n as int), sizes)
    }
}

/// The values that a read cursor before value `offset` of block `index` still has ahead.
spec fn unread<T>(blocks: Seq<Seq<T>>, index: int, offset: int) -> Seq<T> {
    concat(blocks.skip(index)).skip(offset)
}

/// Blocks that keep their sizes keep their values.
pub proof fn lemma_split_by_own_sizes<T>(blocks: Seq<Seq<T>>, sizes: Seq<usize>)
    requires
        is_sizes_of(sizes, blocks),
    ensures
        split_by(concat(blocks), sizes) == blocks,
        sum(sizes) == concat(blocks).len(),
    decreases blocks.len(),
{
    if blocks.len() > 0 {
        let rest = blocks.skip(1);
        lemma_concat_first(blocks);
        assert(is_sizes_of(sizes.skip(1), rest)) by {
            assert forall|i: int| 0 <= i < sizes.skip(1).len() implies #[trigger] sizes.skip(1)[i]
                == rest[i].len() by {
                assert(sizes[i + 1] == blocks[i + 1].len());
            }
        }
        lemma_split_by_own_sizes(rest, sizes.skip(1));
        lemma_sum_first(sizes);
        let s = concat(blocks);
        assert(sizes[0] == blocks[0].len());
        assert(s.take(sizes[0] as int) =~= blocks[0]);
        assert(s.skip(sizes[0] as int) =~= concat(rest));
        assert(blocks =~= seq![blocks[0]] + rest);
    } else {
        assert(split_by(concat(blocks), sizes) =~= blocks);
    }
}

/// What is left of the values once the first `n` are taken.
pub proof fn lemma_after_take_n<T>(blocks: Seq<Seq<T>>, n: nat, sizes: Seq<usize>)
    requires
        blocks.len() > 0,
        n <= blocks[0].len(),
        valid_sizes(blocks, n, sizes),
    ensures
        concat(after_take_n(blocks, n, sizes)) == concat(blocks).skip(n as int),
        after_take_n(blocks, n, sizes).len() > 0,
{
    lemma_concat_first(blocks);
    let rest = concat(blocks).skip(n as int);
    if n == blocks[0].len() {
        lemma_split_by_own_sizes(blocks.skip(1), sizes);
        assert(rest =~= concat(blocks.skip(1)));
        if blocks.len() == 1 {
            assert(blocks.skip(1) =~= Seq::<Seq<T>>::empty());
            lemma_concat_one(Seq::<T>::empty());
        }
    } else if n == 0 {
        lemma_split_by_own_sizes(blocks, sizes);
        assert(rest =~= concat(blocks));
    } else {
        lemma_split_by(rest, sizes);
    }
}

/// The block for size `k` holds the values behind those of the sizes before it.
proof fn lemma_split_by_at<T>(s: Seq<T>, sizes: Seq<usize>, k: int)
    requires
        sum(sizes) == s.len(),
        0 <= k < sizes.len(),
    ensures
        sum(sizes.take(k)) + sizes[k] == sum(sizes.take(k + 1)),
        sum(sizes.take(k + 1)) <= s.len(),
        split_by(s, sizes).len() == sizes.len(),
        split_by(s, sizes)[k] == s.subrange(
            sum(sizes.take(k)) as int,
            sum(sizes.take(k + 1)) as int,
        ),
    decreases k,
{
    lemma_split_by(s, sizes);
    lemma_sum_first(sizes);
    assert(sizes.take(k + 1).drop_last() =~= sizes.take(k));
    if k == 0 {
        assert(sizes.take(0) =~= Seq::<usize>::empty());
        assert(s.take(sizes[0] as int) =~= s.subrange(0, sizes[0] as int));
    } else {
        let rest = s.skip(sizes[0] as int);
        lemma_split_by_at(rest, sizes.skip(1), k - 1);
        lemma_sum_first(sizes.take(k));
        lemma_sum_first(sizes.take(k + 1));
        assert(sizes.take(k).skip(1) =~= sizes.skip(1).take(k - 1));
        assert(sizes.take(k + 1).skip(1) =~= sizes.skip(1).take(k));
        assert(split_by(s, sizes)[k] == split_by(rest, sizes.skip(1))[k - 1]);
        assert(rest.subrange(
            sum(sizes.skip(1).take(k - 1)) as int,
            sum(sizes.skip(1).take(k)) as int,
        ) =~= s.subrange(sum(sizes.take(k)) as int, sum(sizes.take(k + 1)) as int));
    }
}

/// A cursor at the end of a block stands at the start of the next one.
proof fn lemma_unread_next<T>(blocks: Seq<Seq<T>>, index: int, offset: int)
    requires
        0 <= index < blocks.len(),
        offset == blocks[index].len(),
    ensures
        unread(blocks, index, offset) == unread(blocks, index + 1, 0),
{
    lemma_concat_first(blocks.skip(index));
    assert(blocks.skip(index).skip(1) =~= blocks.skip(index + 1));
    assert(unread(blocks, index, offset) =~= unread(blocks, index + 1, 0));
}

/// What a cursor has ahead starts with the rest of its block.
proof fn lemma_unread_in_block<T>(blocks: Seq<Seq<T>>, index: int, offset: int, count: int)
    requires
        0 <= index < blocks.len(),
        0 <= offset <= offset + count <= blocks[index].len(),
    ensures
        unread(blocks, index, offset).len() >= blocks[index].len() - offset,
        unread(blocks, index, offset).take(count) == blocks[index].subrange(
            offset,
            offset + count,
        ),
        unread(blocks, index, offset + count) == unread(blocks, index, offset).skip(count),
{
    lemma_concat_first(blocks.skip(index));
    assert(unread(blocks, index, offset).take(count) =~= blocks[index].subrange(
        offset,
        offset + count,
    ));
    assert(unread(blocks, index, offset + count) =~= unread(blocks, index, offset).skip(count));
}

/// Changing blocks before the cursor does not change what is ahead of it.
proof fn lemma_unread_same<T>(a: Seq<Seq<T>>, i: int, b: Seq<Seq<T>>, j: int, offset: int)
    requires
        0 <= i <= a.len(),
        0 <= j <= b.len(),
        a.skip(i) =~= b.skip(j),
    ensures
        unread(a, i, offset) == unread(b, j, offset),
{
}

/// Moves the cursor over blocks that were fully read.
fn skip_read_blocks<B: BlockBuilder>(
    blocks: &VecDeque<B>,
    src_index: usize,
    src_offset: usize,
) -> (cursor: (usize, usize))
    requires
        all_valid(blocks@),
        src_index <= blocks@.len(),
        src_index < blocks@.len() ==> src_offset <= blocks@[src_index as int].items().len(),
        src_index == blocks@.len() ==> src_offset == 0,
        unread(items_of(blocks@), src_index as int, src_offset as int).len() > 0,
    ensures
        src_index <= cursor.0 < blocks@.len(),
        cursor.0 == src_index ==> cursor.1 == src_offset,
        cursor.1 < blocks@[cursor.0 as int].items().len(),
        unread(items_of(blocks@), cursor.0 as int, cursor.1 as int) == unread(
            items_of(blocks@),
            src_index as int,
            src_offset as int,
        ),
{
    let ghost ahead = unread(items_of(blocks@), src_index as int, src_offset as int);
    let mut index: usize = src_index;
    let mut offset: usize = src_offset;
    while index < blocks.len() && offset >= blocks[index].len()
        invariant
            all_valid(blocks@),
            src_index <= index <= blocks@.len(),
            index == src_index ==> offset == src_offset,
            index < blocks@.len() ==> offset <= blocks@[index as int].items().len(),
            index == blocks@.len() ==> offset == 0,
            unread(items_of(blocks@), index as int, offset as int) == ahead,
        decreases blocks@.len() - index,
    {
        proof {
            lemma_unread_next(items_of(blocks@), index as int, offset as int);
        }
        index += 1;
        offset = 0;
    }
    proof {
        if index == blocks@.len() {
            assert(items_of(blocks@).skip(index as int) =~= Seq::<Seq<B::Item>>::empty());
            assert(ahead.len() == 0);
        }
    }
    (index, offset)
}

/// Fills the block at `dst_index` with the next `remaining` unread values and moves the
/// read cursor behind them.
fn fill_from_unread<B: BlockBuilder>(
    blocks: &mut VecDeque<B>,
    dst_index: usize,
    cursor: (usize, usize),
    remaining: usize,
) -> (end: (usize, usize))
    requires
        all_valid(old(blocks)@),
        dst_index < cursor.0 <= old(blocks)@.len(),
        cursor.0 < old(blocks)@.len() ==> cursor.1 <= old(blocks)@[cursor.0 as int].items().len(),
        cursor.0 == old(blocks)@.len() ==> cursor.1 == 0,
        remaining <= unread(items_of(old(blocks)@), cursor.0 as int, cursor.1 as int).len(),
        B::fits(
            old(blocks)@[dst_index as int].items() + unread(
                items_of(old(blocks)@),
                cursor.0 as int,
                cursor.1 as int,
            ).take(remaining as int),
        ),
    ensures
        all_valid(final(blocks)@),
        final(blocks)@.len() == old(blocks)@.len(),
        cursor.0 <= end.0 <= final(blocks)@.len(),
        end.0 < final(blocks)@.len() ==> end.1 <= final(blocks)@[end.0 as int].items().len(),
        end.0 == final(blocks)@.len() ==> end.1 == 0,
        items_of(final(blocks)@) == items_of(old(blocks)@).update(
            dst_index as int,
            old(blocks)@[dst_index as int].items() + unread(
                items_of(old(blocks)@),
                cursor.0 as int,
                cursor.1 as int,
            ).take(remaining as int),
        ),
        unread(items_of(final(blocks)@), end.0 as int, end.1 as int) == unread(
            items_of(old(blocks)@),
            cursor.0 as int,
            cursor.1 as int,
        ).skip(remaining as int),
{
    let ghost before = items_of(blocks@);
    let ghost start = before[dst_index as int];
    let ghost ahead = unread(before, cursor.0 as int, cursor.1 as int);
    let mut src_index: usize = cursor.0;
    let mut src_offset: usize = cursor.1;
    let mut left: usize = remaining;
    // Only takes the place of a block that is being read from.
    let mut placeholder: B = B::with_capacity(0);
    proof {
        assert(before =~= before.update(dst_index as int, start + ahead.take(0)));
        assert(ahead.skip(0) =~= ahead);
    }
    while left > 0
        invariant
            all_valid(blocks@),
            placeholder.valid(),
            blocks@.len() == before.len(),
            dst_index < cursor.0 <= src_index <= blocks@.len(),
            src_index < blocks@.len() ==> src_offset <= blocks@[src_index as int].items().len(),
            src_index == blocks@.len() ==> src_offset == 0,
            left <= remaining <= ahead.len(),
            start == before[dst_index as int],
            B::fits(start + ahead.take(remaining as int)),
            items_of(blocks@) == before.update(
                dst_index as int,
                start + ahead.take(remaining - left),
            ),
            unread(items_of(blocks@), src_index as int, src_offset as int) == ahead.skip(
                remaining - left,
            ),
        decreases left,
    {
        let (index, offset) = skip_read_blocks(blocks, src_index, src_offset);
        src_index = index;
        src_offset = offset;
        let available: usize = blocks[src_index].len() - src_offset;
        let to_copy: usize = if available < left {
            available
        } else {
            left
        };
        let ghost now = items_of(blocks@);
        let ghost done = remaining - left;
        let ghost part = now[src_index as int].subrange(
            src_offset as int,
            src_offset + to_copy,
        );
        proof {
            lemma_unread_in_block(now, src_index as int, src_offset as int, to_copy as int);
            assert(ahead.take(done) + part =~= ahead.take(done + to_copy));
            B::lemma_fits_part(
                start + ahead.take(remaining as int),
                0,
                start.len() + done + to_copy,
            );
            assert((start + ahead.take(remaining as int)).subrange(
                0,
                start.len() + done + to_copy,
            ) =~= start + ahead.take(done) + part);
        }
        let ghost src_block = blocks@[src_index as int];
        let ghost taken_out = placeholder;
        core::mem::swap(deque_at_mut(blocks, src_index), &mut placeholder);
        assert(blocks@[dst_index as int].items() == now[dst_index as int]);
        deque_at_mut(blocks, dst_index).append_range(
            &placeholder,
            src_offset..src_offset + to_copy,
        );
        core::mem::swap(deque_at_mut(blocks, src_index), &mut placeholder);
        proof {
            let after = items_of(blocks@);
            assert(after =~= now.update(dst_index as int, start + ahead.take(done) + part));
            assert(start + ahead.take(done) + part =~= start + ahead.take(done + to_copy));
            assert(after =~= before.update(dst_index as int, start + ahead.take(done + to_copy)));
            lemma_unread_same(
                now,
                src_index as int,
                after,
                src_index as int,
                src_offset + to_copy,
            );
            assert(ahead.skip(done).skip(to_copy as int) =~= ahead.skip(done + to_copy));
        }
        src_offset += to_copy;
        left -= to_copy;
    }
    (src_index, src_offset)
}

/// Gives the values behind the first `n` new block sizes, in place: blocks are shifted,
/// refilled and reused, and a new block is made only where an old one is split.
///
/// The first `n` values, which lie in the first block, are dropped.
pub(crate) fn redistribute_blocks<B: BlockBuilder>(
    blocks: &mut VecDeque<B>,
    n: usize,
    sizes: &[usize],
)
    requires
        all_valid(old(blocks)@),
        old(blocks)@.len() > 0,
        n < old(blocks)@[0].items().len(),
        sum(sizes@) + n == concat(items_of(old(blocks)@)).len(),
        sizes@.last() > 0,
        all_fit::<B>(split_by(concat(items_of(old(blocks)@)).skip(n as int), sizes@)),
    ensures
        all_valid(final(blocks)@),
        items_of(final(blocks)@) == split_by(
            concat(items_of(old(blocks)@)).skip(n as int),
            sizes@,
        ),
{
    let ghost rest = concat(items_of(blocks@)).skip(n as int);
    let ghost wanted = split_by(rest, sizes@);
    // Read cursor into the old layout, right behind the values that go.
    let mut src_index: usize = 0;
    let mut src_offset: usize = n;
    // Write cursor into the new layout.
    let mut dst_index: usize = 0;
    proof {
        lemma_concat_first(items_of(blocks@));
        lemma_split_by(rest, sizes@);
        assert(items_of(blocks@).skip(0) =~= items_of(blocks@));
        assert(sizes@.take(0) =~= Seq::<usize>::empty());
        assert(rest.skip(0) =~= rest);
        assert(items_of(blocks@).take(0) =~= wanted.take(0));
    }
    while dst_index < sizes.len()
        invariant
            all_valid(blocks@),
            dst_index <= src_index <= blocks@.len(),
            dst_index <= sizes@.len(),
            src_index < blocks@.len() ==> src_offset <= blocks@[src_index as int].items().len(),
            src_index == blocks@.len() ==> src_offset == 0,
            sum(sizes@) == rest.len(),
            sizes@.len() > 0,
            sizes@.last() > 0,
            wanted == split_by(rest, sizes@),
            wanted.len() == sizes@.len(),
            all_fit::<B>(wanted),
            items_of(blocks@).take(dst_index as int) == wanted.take(dst_index as int),
            sum(sizes@.take(dst_index as int)) <= rest.len(),
            unread(items_of(blocks@), src_index as int, src_offset as int) == rest.skip(
                sum(sizes@.take(dst_index as int)) as int,
            ),
        decreases sizes@.len() - dst_index,
    {
        let new_block_size: usize = sizes[dst_index];
        let ghost k = dst_index as int;
        let ghost from = sum(sizes@.take(k)) as int;
        proof {
            lemma_split_by_at(rest, sizes@, k);
            lemma_tail_is_left(sizes@, k);
        }
        let (index, offset) = skip_read_blocks(blocks, src_index, src_offset);
        src_index = index;
        src_offset = offset;
        let ghost now = items_of(blocks@);
        let ghost target = rest.subrange(from, from + new_block_size);
        assert(wanted[k] == target);
        if dst_index == src_index {
            let remaining_in_src: usize = blocks[src_index].len() - src_offset;
            if new_block_size < remaining_in_src {
                // The tail of the block is still needed, so what is split off gets a
                // block of its own in front of it.
                let mut split: B = B::with_capacity(new_block_size);
                proof {
                    lemma_unread_in_block(
                        now,
                        src_index as int,
                        src_offset as int,
                        new_block_size as int,
                    );
                    assert(rest.skip(from).take(new_block_size as int) =~= target);
                    assert(Seq::<B::Item>::empty() + target =~= target);
                }
                split.append_range(
                    &blocks[src_index],
                    src_offset..src_offset + new_block_size,
                );
                assert(split.items() =~= target);
                blocks.insert(dst_index, split);
                proof {
                    let after = items_of(blocks@);
                    assert(after =~= now.insert(k, target));
                    assert(after.take(k + 1) =~= wanted.take(k + 1)) by {
                        assert forall|i: int| 0 <= i < k implies after[i] == wanted[i] by {
                            assert(now.take(k)[i] == wanted.take(k)[i]);
                        }
                    }
                    assert(after.skip(src_index + 1) =~= now.skip(src_index as int));
                    lemma_unread_same(
                        now,
                        src_index as int,
                        after,
                        src_index + 1,
                        src_offset + new_block_size,
                    );
                    assert(rest.skip(from).skip(new_block_size as int) =~= rest.skip(
                        from + new_block_size,
                    ));
                }
                src_index += 1;
                src_offset += new_block_size;
                dst_index += 1;
            } else {
                // The whole tail of the block stays in it.
                proof {
                    lemma_unread_in_block(
                        now,
                        src_index as int,
                        src_offset as int,
                        remaining_in_src as int,
                    );
                    lemma_unread_next(now, src_index as int, src_offset + remaining_in_src);
                }
                deque_at_mut(blocks, dst_index).shift_down(src_offset, remaining_in_src);
                let ghost head = rest.skip(from).take(remaining_in_src as int);
                let ghost shifted = items_of(blocks@);
                proof {
                    assert(shifted =~= now.update(k, head));
                    assert(shifted.skip(k + 1) =~= now.skip(k + 1));
                    lemma_unread_same(now, k + 1, shifted, k + 1, 0);
                    assert(head + rest.skip(from).skip(remaining_in_src as int).take(
                        new_block_size - remaining_in_src,
                    ) =~= target);
                }
                let (index, offset) = fill_from_unread(
                    blocks,
                    dst_index,
                    (src_index + 1, 0),
                    new_block_size - remaining_in_src,
                );
                src_index = index;
                src_offset = offset;
                proof {
                    let after = items_of(blocks@);
                    assert(after =~= now.update(k, target));
                    assert(after.take(k + 1) =~= wanted.take(k + 1)) by {
                        assert forall|i: int| 0 <= i < k implies after[i] == wanted[i] by {
                            assert(now.take(k)[i] == wanted.take(k)[i]);
                        }
                    }
                    assert(rest.skip(from).skip(remaining_in_src as int).skip(
                        new_block_size - remaining_in_src,
                    ) =~= rest.skip(from + new_block_size));
                }
                dst_index += 1;
            }
        } else {
            // This slot holds a block that was fully read: it is reused, empty.
            deque_at_mut(blocks, dst_index).truncate(0);
            proof {
                let emptied = items_of(blocks@);
                assert(now[k].take(0) =~= Seq::<B::Item>::empty());
                assert(emptied =~= now.update(k, Seq::empty()));
                assert(emptied.skip(src_index as int) =~= now.skip(src_index as int));
                lemma_unread_same(
                    now,
                    src_index as int,
                    emptied,
                    src_index as int,
                    src_offset as int,
                );
                assert(Seq::<B::Item>::empty() + rest.skip(from).take(new_block_size as int)
                    =~= target);
            }
            let (index, offset) = fill_from_unread(
                blocks,
                dst_index,
                (src_index, src_offset),
                new_block_size,
            );
            src_index = index;
            src_offset = offset;
            proof {
                let after = items_of(blocks@);
                assert(after =~= now.update(k, target));
                assert(after.take(k + 1) =~= wanted.take(k + 1)) by {
                    assert forall|i: int| 0 <= i < k implies after[i] == wanted[i] by {
                        assert(now.take(k)[i] == wanted.take(k)[i]);
                    }
                }
                assert(rest.skip(from).skip(new_block_size as int) =~= rest.skip(
                    from + new_block_size,
                ));
            }
            dst_index += 1;
        }
    }
    // Old blocks that the new layout did not need.
    let ghost last = items_of(blocks@);
    blocks.truncate(dst_index);
    proof {
        assert(items_of(blocks@) =~= last.take(dst_index as int));
        assert(wanted.take(dst_index as int) =~= wanted);
    }
}

/// Up to the last size there are values left, since the last block is not empty.
proof fn lemma_tail_is_left(sizes: Seq<usize>, k: int)
    requires
        0 <= k < sizes.len(),
        sizes.last() > 0,
    ensures
        sum(sizes.take(k)) < sum(sizes),
    decreases sizes.len() - k,
{
    assert(sizes.take(k + 1).drop_last() =~= sizes.take(k));
    if k + 1 == sizes.len() {
        assert(sizes.take(k + 1) =~= sizes);
    } else {
        lemma_tail_is_left(sizes, k + 1);
    }
}

/// Every block without its first `n` values, refilled with the first `n` of the next one.
spec fn shifted<T>(blocks: Seq<Seq<T>>, n: int) -> Seq<Seq<T>> {
    Seq::new(blocks.len(), |i: int| shifted_block(blocks, n, i))
}

spec fn shifted_block<T>(blocks: Seq<Seq<T>>, n: int, i: int) -> Seq<T> {
    without_first(blocks[i], n) + if i + 1 < blocks.len() {
        at_most_first(blocks[i + 1], n)
    } else {
        Seq::empty()
    }
}

spec fn without_first<T>(s: Seq<T>, n: int) -> Seq<T> {
    if s.len() <= n {
        Seq::empty()
    } else {
        s.skip(n)
    }
}

spec fn at_most_first<T>(s: Seq<T>, n: int) -> Seq<T> {
    if s.len() <= n {
        s
    } else {
        s.take(n)
    }
}

proof fn lemma_shifted<T>(blocks: Seq<Seq<T>>, n: int)
    requires
        blocks.len() > 0,
        n >= 0,
    ensures
        concat(shifted(blocks, n)) == without_first(blocks[0], n) + concat(blocks.skip(1)),
    decreases blocks.len(),
{
    let all = shifted(blocks, n);
    lemma_concat_first(all);
    if blocks.len() == 1 {
        assert(blocks.skip(1) =~= Seq::<Seq<T>>::empty());
        assert(all.skip(1) =~= Seq::<Seq<T>>::empty());
        assert(all[0] + concat(all.skip(1)) =~= without_first(blocks[0], n) + concat(
            blocks.skip(1),
        ));
    } else {
        let rest = blocks.skip(1);
        lemma_shifted(rest, n);
        assert(all.skip(1) =~= shifted(rest, n)) by {
            assert forall|i: int| 0 <= i < rest.len() implies all.skip(1)[i] == shifted(
                rest,
                n,
            )[i] by {
                assert(rest[i] == blocks[i + 1]);
                if i + 1 < rest.len() {
                    assert(rest[i + 1] == blocks[i + 2]);
                }
            }
        }
        lemma_concat_first(rest);
        assert(rest[0] =~= at_most_first(rest[0], n) + without_first(rest[0], n));
        assert(all[0] + (without_first(rest[0], n) + concat(rest.skip(1))) =~= without_first(
            blocks[0],
            n,
        ) + (rest[0] + concat(rest.skip(1))));
    }
}

/// The number of values in blocks that are all full but the last.
pub proof fn lemma_full_len<T>(blocks: Seq<Seq<T>>, cap: nat)
    requires
        all_full_but_last(cap, blocks),
    ensures
        concat(blocks).len() == (blocks.len() - 1) * cap + blocks.last().len(),
    decreases blocks.len(),
{
    lemma_concat_first(blocks);
    if blocks.len() > 1 {
        let rest = blocks.skip(1);
        assert forall|i: int| 0 <= i < rest.len() - 1 implies (#[trigger] rest[i]).len() == cap by {
            assert(rest[i] == blocks[i + 1]);
        }
        lemma_full_len(rest, cap);
        assert((blocks.len() - 1) * cap == (blocks.len() - 2) * cap + cap) by (nonlinear_arith);
    } else {
        assert(blocks.skip(1) =~= Seq::<Seq<T>>::empty());
    }
}

/// Drops the first `n` values of blocks of `cap` values each, in place: every block is
/// shifted down by `n` and refilled from the front of the next one, so that all blocks
/// but the last stay full.
pub(crate) fn shift_fixed_blocks<B: BlockBuilder>(
    blocks: &mut VecDeque<B>,
    len: usize,
    n: usize,
    cap: usize,
)
    requires
        all_valid(old(blocks)@),
        all_full_but_last(cap as nat, items_of(old(blocks)@)),
        items_of(old(blocks)@).last().len() < cap,
        len == concat(items_of(old(blocks)@)).len(),
        0 < n < cap,
        n < len,
        all_fit::<B>(chunks(concat(items_of(old(blocks)@)).skip(n as int), cap as nat)),
    ensures
        all_valid(final(blocks)@),
        items_of(final(blocks)@) == chunks(
            concat(items_of(old(blocks)@)).skip(n as int),
            cap as nat,
        ),
{
    let ghost before = items_of(blocks@);
    let ghost count = before.len() as int;
    let ghost wanted = shifted(before, n as int);
    let ghost last = before.last().len() as int;
    let ghost rest = concat(before).skip(n as int);
    // The blocks that stay.
    let ghost kept = if last >= n || count == 1 {
        wanted
    } else {
        wanted.drop_last()
    };
    proof {
        lemma_full_len(before, cap as nat);
        lemma_shifted(before, n as int);
        lemma_concat_first(before);
        if count == 1 {
            assert(before.skip(1) =~= Seq::<Seq<B::Item>>::empty());
        }
        assert(before[0].len() > n);
        assert(rest =~= without_first(before[0], n as int) + concat(before.skip(1)));
        assert forall|i: int| 0 <= i < count implies #[trigger] before[i].len() <= cap by {}
        assert(all_full_but_last(cap as nat, kept)) by {
            assert forall|i: int| 0 <= i < kept.len() - 1 implies (#[trigger] kept[i]).len()
                == cap by {
                assert(kept[i] == shifted_block(before, n as int, i));
                assert(before[i].len() == cap);
                assert(before[i + 1].len() == cap || i + 1 == count - 1);
            }
        }
        assert(kept.last().len() < cap) by {
            let j = kept.len() - 1;
            assert(kept[j] == shifted_block(before, n as int, j));
            if j + 1 < count {
                assert(before[j].len() == cap);
                assert(before[j + 1] == before.last());
            } else {
                assert(before[j] == before.last());
            }
        }
        assert(concat(kept) =~= rest) by {
            if !(last >= n || count == 1) {
                assert(wanted.last() == shifted_block(before, n as int, count - 1));
                assert(wanted.last() =~= Seq::<B::Item>::empty());
                assert(concat(wanted) =~= concat(kept));
            }
        }
        lemma_full_is_chunks(kept, cap as nat);
        lemma_full_len(kept, cap as nat);
    }
    let mut placeholder: B = B::with_capacity(0);
    let mut index: usize = 0;
    while index < blocks.len()
        invariant
            all_valid(blocks@),
            placeholder.valid(),
            0 < n < cap,
            before.len() == blocks@.len(),
            count == before.len(),
            all_full_but_last(cap as nat, before),
            0 <= index <= count,
            wanted == shifted(before, n as int),
            last == before.last().len(),
            kept == if last >= n || count == 1 {
                wanted
            } else {
                wanted.drop_last()
            },
            all_fit::<B>(kept),
            before[0].len() > n,
            forall|i: int| 0 <= i < index ==> (#[trigger] items_of(blocks@)[i]) == wanted[i],
            forall|i: int| index <= i < count ==> (#[trigger] items_of(blocks@)[i]) == before[i],
        decreases count - index,
    {
        let ghost now = items_of(blocks@);
        let block_len: usize = blocks[index].len();
        assert(now[index as int] == before[index as int]);
        if block_len <= n {
            // Only the last block can be this short: all it held went to the block before it.
            deque_at_mut(blocks, index).truncate(0);
        } else {
            deque_at_mut(blocks, index).shift_down(n, block_len - n);
        }
        let ghost cut = without_first(before[index as int], n as int);
        proof {
            assert(before[index as int].take(0) =~= Seq::<B::Item>::empty());
            assert(blocks@[index as int].items() =~= cut);
            assert(items_of(blocks@) =~= now.update(index as int, cut));
        }
        let next_index: usize = index + 1;
        if next_index < blocks.len() {
            let ghost mid = items_of(blocks@);
            let ghost next = blocks@[next_index as int];
            assert(now[next_index as int] == before[next_index as int]);
            core::mem::swap(deque_at_mut(blocks, next_index), &mut placeholder);
            let to_copy: usize = if placeholder.len() <= n {
                placeholder.len()
            } else {
                n
            };
            let ghost part = at_most_first(before[next_index as int], n as int);
            proof {
                assert(placeholder.items() == before[next_index as int]);
                assert(placeholder.items().subrange(0, to_copy as int) =~= part);
                assert(kept[index as int] == wanted[index as int]);
                assert(wanted[index as int] == cut + part);
                assert(blocks@[index as int].items() == cut);
            }
            deque_at_mut(blocks, index).append_range(&placeholder, 0..to_copy);
            core::mem::swap(deque_at_mut(blocks, next_index), &mut placeholder);
            proof {
                assert(items_of(blocks@) =~= mid.update(index as int, cut + part));
            }
        } else {
            assert(cut + Seq::<B::Item>::empty() =~= cut);
        }
        assert(items_of(blocks@) =~= now.update(index as int, wanted[index as int]));
        index += 1;
    }
    // The last block may be empty, as it is right after a block has been filled.
    let new_blocks_count: usize = (len - n) / cap + 1;
    proof {
        assert(items_of(blocks@) =~= wanted);
        lemma_fundamental_div_mod_converse(
            len - n,
            cap as int,
            kept.len() - 1,
            kept.last().len() as int,
        );
    }
    while blocks.len() > new_blocks_count
        invariant
            all_valid(blocks@),
            items_of(blocks@) == wanted.take(blocks@.len() as int),
            kept == wanted.take(kept.len() as int),
            new_blocks_count == kept.len(),
            kept.len() <= blocks@.len() <= wanted.len(),
        decreases blocks@.len(),
    {
        let ghost now = blocks@;
        let _ = blocks.pop_back();
        assert(items_of(blocks@) =~= wanted.take(blocks@.len() as int)) by {
            assert forall|i: int| 0 <= i < blocks@.len() implies items_of(blocks@)[i]
                == wanted[i] by {
                assert(items_of(now)[i] == wanted.take(now.len() as int)[i]);
            }
        }
    }
}

/// Where a builder stands after its blocks were rearranged.
pub struct BlocksLayout {
    pub len: usize,
    pub current_block_index: usize,
}

/// Takes the first `n` values, which lie in the first block, and gives the others the
/// block sizes in `sizes`.
pub(crate) fn take_n_from_blocks<B: BlockBuilder>(
    blocks: &mut VecDeque<B>,
    len: usize,
    n: usize,
    sizes: &[usize],
) -> (result: (B::Output, BlocksLayout))
    requires
        all_valid(old(blocks)@),
        old(blocks)@.len() > 0,
        len == concat(items_of(old(blocks)@)).len(),
        n <= old(blocks)@[0].items().len(),
        valid_sizes(items_of(old(blocks)@), n as nat, sizes@),
        all_fit::<B>(after_take_n(items_of(old(blocks)@), n as nat, sizes@)),
        B::fits(items_of(old(blocks)@)[0].take(n as int)),
    ensures
        all_valid(final(blocks)@),
        B::is_output(result.0, items_of(old(blocks)@)[0].take(n as int)),
        items_of(final(blocks)@) == after_take_n(items_of(old(blocks)@), n as nat, sizes@),
        final(blocks)@.len() > 0,
        concat(items_of(final(blocks)@)) == concat(items_of(old(blocks)@)).skip(n as int),
        result.1.len == len - n,
        result.1.current_block_index == final(blocks)@.len() - 1,
{
    let ghost before = items_of(blocks@);
    let ghost rest = concat(before).skip(n as int);
    proof {
        lemma_concat_first(before);
        if n == before[0].len() {
            lemma_split_by_own_sizes(before.skip(1), sizes@);
            assert(rest =~= concat(before.skip(1)));
            assert(before[0].take(n as int) =~= before[0]);
            if before.len() == 1 {
                assert(before.skip(1) =~= Seq::<Seq<B::Item>>::empty());
                lemma_concat_one(Seq::<B::Item>::empty());
            }
        } else if n == 0 {
            lemma_split_by_own_sizes(before, sizes@);
            assert(rest =~= concat(before));
        } else {
            lemma_split_by(rest, sizes@);
        }
    }
    let first_block_items: usize = blocks[0].len();
    let taken: B = if n == first_block_items {
        let first = blocks.pop_front();
        if blocks.len() == 0 {
            blocks.push_back(B::with_capacity(0));
            proof {
                assert(items_of(blocks@) =~= seq![Seq::<B::Item>::empty()]);
            }
        } else {
            proof {
                assert(items_of(blocks@) =~= before.skip(1));
            }
        }
        match first {
            Some(block) => block,
            None => B::with_capacity(0),
        }
    } else if n == 0 {
        assert(before[0].take(0) =~= Seq::<B::Item>::empty());
        B::with_capacity(0)
    } else {
        let mut taken: B = B::with_capacity(n);
        proof {
            assert(Seq::<B::Item>::empty() + before[0].subrange(0, n as int) =~= before[0].take(
                n as int,
            ));
        }
        taken.append_range(&blocks[0], 0..n);
        redistribute_blocks(blocks, n, sizes);
        taken
    };
    let layout = BlocksLayout { len: len - n, current_block_index: blocks.len() - 1 };
    (taken.finish(), layout)
}

} // verus!
