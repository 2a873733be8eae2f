//! Where the items are in the blocks, by their numbers.

use crate::blocked_helpers::laws::lemma_item_at;
use crate::blocked_helpers::layout::{
    all_full_but_last, appended, appended_until_full, blocks_needed, chunks, concat, lemma_appended,
    lemma_chunks,
    lemma_concat_add, lemma_concat_first, lemma_concat_one, lemma_split_by, split_by, sum,
    total_count, valid_blocks,
};
use crate::blocked_helpers::offset_size::{lemma_total_add, total};
use crate::blocked_helpers::take_n_helpers::{
    after_take_n, lemma_after_take_n, lemma_full_len, lemma_split_by_own_sizes, valid_sizes,
};
use vstd::arithmetic::div_mod::{
    lemma_fundamental_div_mod, lemma_fundamental_div_mod_converse, lemma_mod_bound,
};
use vstd::prelude::*;

verus! {

/// The items of blocks are those of the first blocks and then those of the others, wherever the
/// blocks are parted; those of one block are the block; without blocks there are none.
pub proof fn law_items_of_blocks<T>(a: Seq<Seq<T>>, block: Seq<T>, b: Seq<Seq<T>>)
    ensures
        concat(Seq::<Seq<T>>::empty()) == Seq::<T>::empty(),
        concat(seq![block]) == block,
        concat(a + b) == concat(a) + concat(b),
{
    lemma_concat_one(block);
    lemma_concat_add(a, b);
}

/// Sums of sizes: of none, of one, and of two stretches.
pub proof fn law_sum_of_sizes(a: Seq<usize>, size: usize, b: Seq<usize>)
    ensures
        sum(Seq::<usize>::empty()) == 0,
        sum(seq![size]) == size,
        sum(a + b) == sum(a) + sum(b),
    decreases b.len(),
{
    assert(seq![size].drop_last() =~= Seq::<usize>::empty());
    reveal_with_fuel(sum, 2);
    if b.len() == 0 {
        assert(a + b =~= a);
    } else {
        assert((a + b).drop_last() =~= a + b.drop_last());
        law_sum_of_sizes(a, size, b.drop_last());
    }
}

/// Sums of counts: of none, of one, and of two stretches.
pub proof fn law_sum_of_counts(a: Seq<nat>, count: nat, b: Seq<nat>)
    ensures
        total_count(Seq::<nat>::empty()) == 0,
        total_count(seq![count]) == count,
        total_count(a + b) == total_count(a) + total_count(b),
    decreases b.len(),
{
    assert(seq![count].drop_last() =~= Seq::<nat>::empty());
    reveal_with_fuel(total_count, 2);
    if b.len() == 0 {
        assert(a + b =~= a);
    } else {
        assert((a + b).drop_last() =~= a + b.drop_last());
        law_sum_of_counts(a, count, b.drop_last());
    }
}

/// Sums of lengths: of none, of one, and of two stretches.
pub proof fn law_sum_of_lengths(a: Seq<int>, length: int, b: Seq<int>)
    ensures
        total(Seq::<int>::empty()) == 0,
        total(seq![length]) == length,
        total(a + b) == total(a) + total(b),
{
    assert(seq![length].drop_last() =~= Seq::<int>::empty());
    reveal_with_fuel(total, 2);
    lemma_total_add(a, b);
}

/// The item is there, with this number.
pub open spec fn is_at<T>(items: Seq<T>, number: int, item: T) -> bool {
    0 <= number < items.len() && items[number] == item
}

/// The item is there, at this place of the block with this number.
pub open spec fn is_in_block<T>(blocks: Seq<Seq<T>>, b: int, j: int, item: T) -> bool {
    0 <= b < blocks.len() && is_at(blocks[b], j, item)
}

/// Items that are cut into blocks of `cap` are at the position that is their number divided by
/// `cap`, and the remainder.
pub proof fn law_cut_items_by_number<T>(items: Seq<T>, cap: nat)
    requires
        cap > 0,
    ensures
        chunks(items, cap).len() == items.len() / cap + 1,
        chunks(items, cap).last().len() == items.len() % cap,
        forall|b: int|
            0 <= b < chunks(items, cap).len() - 1 ==> (#[trigger] chunks(items, cap)[b]).len()
                == cap,
        forall|b: int, j: int|
            0 <= b < chunks(items, cap).len() && 0 <= j < chunks(items, cap)[b].len() ==> is_at(
                items,
                b * cap + j,
                #[trigger] chunks(items, cap)[b][j],
            ),
{
    let blocks = chunks(items, cap);
    lemma_chunks(items, cap);
    lemma_full_len(blocks, cap);
    lemma_fundamental_div_mod_converse(
        items.len() as int,
        cap as int,
        blocks.len() - 1,
        blocks.last().len() as int,
    );
    assert forall|b: int, j: int| 0 <= b < blocks.len() && 0 <= j < blocks[b].len() implies is_at(
        items,
        b * cap + j,
        #[trigger] blocks[b][j],
    ) by {
        lemma_item_at(cap, blocks, b, j);
    }
}

/// In blocks of a fixed size, added items go to the free places of the last block and then to new
/// blocks: the `k`-th of them to the place that is `k` places behind the last item. Everything else
/// stays where it is, and a block that is full is followed by another.
pub proof fn law_places_of_added_items<T>(cap: nat, blocks: Seq<Seq<T>>, items: Seq<T>)
    requires
        blocks.len() > 0,
        cap > 0,
        blocks.last().len() < cap,
    ensures
        ({
            let after = appended(true, cap, blocks, items);
            let first = blocks.len() - 1;
            let used = blocks.last().len();
            &&& after.len() == blocks.len() + (used + items.len()) / cap
            &&& after.last().len() == (used + items.len()) % cap
            &&& forall|b: int| 0 <= b < first ==> (#[trigger] after[b]) == blocks[b]
            &&& forall|b: int| first <= b < after.len() - 1 ==> (#[trigger] after[b]).len() == cap
            &&& forall|j: int| 0 <= j < used ==> (#[trigger] after[first][j]) == blocks.last()[j]
            &&& forall|k: int|
                0 <= k < items.len() ==> is_in_block(
                    after,
                    first + (used + k) / (cap as int),
                    (used + k) % (cap as int),
                    #[trigger] items[k],
                )
        }),
{
    let after = appended(true, cap, blocks, items);
    let first = blocks.len() - 1;
    let used = blocks.last().len() as int;
    let all = blocks.last() + items;
    let cut = chunks(all, cap);
    law_cut_items_by_number(all, cap);
    lemma_fundamental_div_mod(all.len() as int, cap as int);
    assert(after.last() == cut.last());
    assert forall|b: int| first <= b < after.len() - 1 implies (#[trigger] after[b]).len()
        == cap by {
        assert(after[b] == cut[b - first]);
    }
    assert(after[first] == cut[0]);
    assert forall|j: int| 0 <= j < used implies (#[trigger] after[first][j])
        == blocks.last()[j] by {
        lemma_fundamental_div_mod_converse(j, cap as int, 0, j);
        lemma_cut_at(all, cap, j);
    }
    assert forall|k: int| 0 <= k < items.len() implies is_in_block(
        after,
        first + (used + k) / (cap as int),
        (used + k) % (cap as int),
        #[trigger] items[k],
    ) by {
        lemma_cut_at(all, cap, used + k);
        assert(all[used + k] == items[k]);
        let b = (used + k) / (cap as int);
        assert(after[first + b] == cut[b]);
    }
}

/// The item with a number is where the number says.
pub proof fn lemma_cut_at<T>(items: Seq<T>, cap: nat, k: int)
    requires
        cap > 0,
        0 <= k < items.len(),
    ensures
        is_in_block(chunks(items, cap), k / (cap as int), k % (cap as int), items[k]),
{
    let d = cap as int;
    let n = items.len() as int;
    let cut = chunks(items, cap);
    let b = k / d;
    let j = k % d;
    law_cut_items_by_number(items, cap);
    lemma_fundamental_div_mod(k, d);
    lemma_fundamental_div_mod(n, d);
    lemma_mod_bound(k, d);
    lemma_mod_bound(n, d);
    assert(d * b == b * d) by (nonlinear_arith);
    assert(d * (n / d) == (n / d) * d) by (nonlinear_arith);
    assert(0 <= b <= n / d) by (nonlinear_arith)
        requires
            0 <= b * d + j < (n / d) * d + n % d,
            0 <= j < d,
            0 <= n % d < d,
            d > 0,
    ;
    if b == n / d {
        assert(b * d == (n / d) * d);
        assert(cut[b] == cut.last());
    } else {
        assert(cut[b].len() == cap);
    }
    assert(cut[b][j] == items[b * cap + j]);
}

/// Without a fixed size, added items go behind those of the last block.
pub proof fn law_places_in_one_block<T>(cap: nat, blocks: Seq<Seq<T>>, items: Seq<T>)
    requires
        blocks.len() > 0,
    ensures
        ({
            let after = appended(false, cap, blocks, items);
            let first = blocks.len() - 1;
            let used = blocks.last().len();
            &&& after.len() == blocks.len()
            &&& after.last().len() == used + items.len()
            &&& forall|b: int| 0 <= b < first ==> (#[trigger] after[b]) == blocks[b]
            &&& forall|j: int| 0 <= j < used ==> (#[trigger] after[first][j]) == blocks.last()[j]
            &&& forall|k: int|
                0 <= k < items.len() ==> after[first][used + k] == #[trigger] items[k]
        }),
{
}

/// Between `blocks` and `after`, items were added: everything is where it was, the `k`-th item is
/// `k` places behind the last one, in blocks of `cap` items if they have a fixed size, and there is
/// nothing else.
pub open spec fn are_added<T>(
    fixed: bool,
    cap: nat,
    blocks: Seq<Seq<T>>,
    items: Seq<T>,
    after: Seq<Seq<T>>,
) -> bool {
    let used = blocks.last().len();
    &&& after.len() == blocks.len() + if fixed {
        (used + items.len()) / cap
    } else {
        0
    }
    &&& concat(after).len() == concat(blocks).len() + items.len()
    &&& forall|b: int| 0 <= b < blocks.len() - 1 ==> (#[trigger] after[b]) == blocks[b]
    &&& forall|j: int|
        0 <= j < used ==> is_in_block(
            after,
            blocks.len() - 1,
            j,
            #[trigger] blocks[blocks.len() - 1][j],
        )
    &&& forall|k: int|
        0 <= k < items.len() ==> if fixed {
            is_in_block(
                after,
                blocks.len() - 1 + (used + k) / (cap as int),
                (used + k) % (cap as int),
                #[trigger] items[k],
            )
        } else {
            is_in_block(after, blocks.len() - 1, used + k, items[k])
        }
}

/// Items that are added are there, and nothing else changes.
pub proof fn law_added_items_are_there<T>(
    fixed: bool,
    cap: nat,
    blocks: Seq<Seq<T>>,
    items: Seq<T>,
)
    requires
        valid_blocks(fixed, cap, blocks),
    ensures
        are_added(fixed, cap, blocks, items, appended(fixed, cap, blocks, items)),
{
    let after = appended(fixed, cap, blocks, items);
    lemma_appended(fixed, cap, blocks, items);
    let n = blocks.len() - 1;
    if fixed {
        law_places_of_added_items(cap, blocks, items);
        assert(after.len() > n);
        assert(after[n].len() >= blocks.last().len()) by {
            law_cut_items_by_number(blocks.last() + items, cap);
            let all = (blocks.last() + items).len();
            if after.len() - 1 == n {
                lemma_fundamental_div_mod(all as int, cap as int);
                assert(cap * 0 == 0);
                assert(after[n] == after.last());
            }
        }
    } else {
        law_places_in_one_block(cap, blocks, items);
        assert forall|k: int| 0 <= k < items.len() implies is_in_block(
            after,
            n,
            blocks.last().len() + k,
            #[trigger] items[k],
        ) by {}
    }
}

/// An item that is added until its block is full goes to the next free place of the last block.
/// Everything else stays where it is. A new, empty block follows only if the block is full now.
pub proof fn law_place_until_full<T>(cap: nat, blocks: Seq<Seq<T>>, item: T)
    requires
        blocks.len() > 0,
    ensures
        ({
            let after = appended_until_full(cap, blocks, item);
            let first = blocks.len() - 1;
            let used = blocks.last().len();
            &&& after.len() == blocks.len() + if used + 1 == cap {
                1int
            } else {
                0
            }
            &&& used + 1 == cap ==> after.last().len() == 0
            &&& forall|b: int| 0 <= b < first ==> (#[trigger] after[b]) == blocks[b]
            &&& after[first].len() == used + 1
            &&& forall|j: int| 0 <= j < used ==> (#[trigger] after[first][j]) == blocks.last()[j]
            &&& after[first][used as int] == item
        }),
{
}

/// So many blocks are needed that what the current block does not hold fits into them, and no
/// fewer would do.
pub proof fn law_blocks_needed(n: int, remaining: int, cap: int)
    requires
        0 <= n,
        0 <= remaining,
        0 < cap,
    ensures
        n <= remaining ==> blocks_needed(n, remaining, cap) == 0,
        n <= remaining + blocks_needed(n, remaining, cap) * cap,
        n > remaining ==> n > remaining + (blocks_needed(n, remaining, cap) - 1) * cap,
{
    if n > remaining {
        let left = n - remaining + cap - 1;
        let blocks = left / cap;
        lemma_fundamental_div_mod(left, cap);
        lemma_mod_bound(left, cap);
        assert(cap * blocks == blocks * cap) by (nonlinear_arith);
        assert((blocks - 1) * cap == blocks * cap - cap) by (nonlinear_arith);
    } else {
        assert(0 * cap == 0);
    }
}

/// Items that are cut into blocks of given sizes are in blocks of these sizes, in order.
pub proof fn law_blocks_of_given_sizes<T>(items: Seq<T>, sizes: Seq<usize>)
    requires
        sum(sizes) == items.len(),
    ensures
        split_by(items, sizes).len() == sizes.len(),
        forall|b: int|
            0 <= b < sizes.len() ==> (#[trigger] split_by(items, sizes)[b]).len() == sizes[b],
        forall|b: int, j: int|
            0 <= b < sizes.len() && 0 <= j < sizes[b] ==> is_at(
                items,
                sum(sizes.take(b)) + j,
                #[trigger] split_by(items, sizes)[b][j],
            ),
    decreases sizes.len(),
{
    lemma_split_by(items, sizes);
    if sizes.len() > 0 {
        let rest = items.skip(sizes[0] as int);
        let others = sizes.skip(1);
        let all = split_by(items, sizes);
        law_sum_of_sizes(seq![sizes[0]], sizes[0], others);
        assert(sizes =~= seq![sizes[0]] + others);
        law_blocks_of_given_sizes(rest, others);
        assert forall|b: int, j: int| 0 <= b < sizes.len() && 0 <= j < sizes[b] implies is_at(
            items,
            sum(sizes.take(b)) + j,
            #[trigger] all[b][j],
        ) by {
            if b == 0 {
                assert(sizes.take(0) =~= Seq::<usize>::empty());
            } else {
                assert(all[b] == split_by(rest, others)[b - 1]);
                assert(split_by(rest, others)[b - 1][j] == rest[sum(others.take(b - 1)) + j]);
                assert(sizes.take(b) =~= seq![sizes[0]] + others.take(b - 1));
                law_sum_of_sizes(seq![sizes[0]], sizes[0], others.take(b - 1));
            }
        }
    }
}

/// Once the first `n` items are taken, the others are in blocks of the sizes that were asked for:
/// each is as many places behind the first one as it was behind the last one taken.
pub proof fn law_places_after_taking<T>(blocks: Seq<Seq<T>>, n: nat, sizes: Seq<usize>)
    requires
        blocks.len() > 0,
        n <= blocks[0].len(),
        blocks.len() > 1 || n < blocks[0].len(),
        valid_sizes(blocks, n, sizes),
    ensures
        ({
            let after = after_take_n(blocks, n, sizes);
            &&& sum(sizes) + n == concat(blocks).len()
            &&& after.len() == sizes.len()
            &&& forall|b: int| 0 <= b < sizes.len() ==> (#[trigger] after[b]).len() == sizes[b]
            &&& forall|b: int, j: int|
                0 <= b < sizes.len() && 0 <= j < sizes[b] ==> is_at(
                    concat(blocks),
                    n + sum(sizes.take(b)) + j,
                    #[trigger] after[b][j],
                )
        }),
{
    lemma_after_take_n(blocks, n, sizes);
    lemma_concat_first(blocks);
    if n == blocks[0].len() {
        lemma_split_by_own_sizes(blocks.skip(1), sizes);
    } else if n == 0 {
        lemma_split_by_own_sizes(blocks, sizes);
    }
    let left = concat(blocks).skip(n as int);
    let after = after_take_n(blocks, n, sizes);
    law_blocks_of_given_sizes(left, sizes);
    assert forall|b: int, j: int| 0 <= b < sizes.len() && 0 <= j < sizes[b] implies is_at(
        concat(blocks),
        n + sum(sizes.take(b)) + j,
        #[trigger] after[b][j],
    ) by {
        assert(is_at(left, sum(sizes.take(b)) + j, split_by(left, sizes)[b][j]));
    }
}

/// Once all the items of the only block are taken, there is an empty block.
pub proof fn law_taking_everything<T>(blocks: Seq<Seq<T>>, sizes: Seq<usize>)
    requires
        blocks.len() == 1,
    ensures
        after_take_n(blocks, blocks[0].len(), sizes).len() == 1,
        after_take_n(blocks, blocks[0].len(), sizes)[0].len() == 0,
{
}

/// The sizes that may be asked for add up to the items that stay. They are those that the blocks
/// have, where the first block goes as a whole, or where nothing goes.
pub proof fn law_sizes_that_may_be_asked_for<T>(blocks: Seq<Seq<T>>, n: nat, sizes: Seq<usize>)
    requires
        blocks.len() > 0,
        n <= blocks[0].len(),
    ensures
        0 < n < blocks[0].len() ==> (valid_sizes(blocks, n, sizes) <==> sum(sizes) + n == concat(
            blocks,
        ).len() && sizes.last() > 0),
        n == blocks[0].len() ==> (valid_sizes(blocks, n, sizes) <==> sizes.len() == blocks.len() - 1
            && forall|b: int|
            0 <= b < sizes.len() ==> (#[trigger] sizes[b]) == blocks[b + 1].len()),
        n == 0 < blocks[0].len() ==> (valid_sizes(blocks, n, sizes) <==> sizes.len()
            == blocks.len() && forall|b: int|
            0 <= b < sizes.len() ==> (#[trigger] sizes[b]) == blocks[b].len()),
{
}

/// Blocks are what the builders keep them to be: with a fixed size, the last block has room and no
/// block is too long; there is always one.
pub proof fn law_valid_blocks<T>(fixed: bool, cap: nat, blocks: Seq<Seq<T>>)
    ensures
        valid_blocks(fixed, cap, blocks) ==> blocks.len() > 0,
        valid_blocks(true, cap, blocks) ==> cap > 0 && blocks.last().len() < cap,
        forall|b: int|
            valid_blocks(true, cap, blocks) && 0 <= b < blocks.len() ==> (
            #[trigger] blocks[b]).len() <= cap,
        all_full_but_last(cap, blocks) ==> forall|b: int|
            0 <= b < blocks.len() - 1 ==> (#[trigger] blocks[b]).len() == cap,
{
}

} // verus!
