//! What holds of all the builders that keep their items in blocks.

use crate::blocked_helpers::layout::{
    all_full_but_last, appended, concat, lemma_appended, lemma_appended_twice,
    lemma_appended_within, lemma_concat_first, valid_blocks,
};
use crate::blocked_helpers::take_n_helpers::{
    after_take_n, lemma_after_take_n, lemma_full_len, valid_sizes,
};
use crate::groups_accumulator::BlocksIndex;
use vstd::arithmetic::div_mod::{
    lemma_div_is_ordered_by_denominator, lemma_div_pos_is_pos, lemma_fundamental_div_mod,
    lemma_fundamental_div_mod_converse,
};
use vstd::prelude::*;

verus! {

/// However items are split up when they are added, the blocks are the same.
pub proof fn law_items_can_be_added_in_parts<T>(
    fixed: bool,
    cap: nat,
    blocks: Seq<Seq<T>>,
    first: Seq<T>,
    second: Seq<T>,
)
    requires
        valid_blocks(fixed, cap, blocks),
    ensures
        appended(fixed, cap, appended(fixed, cap, blocks, first), second) == appended(
            fixed,
            cap,
            blocks,
            first + second,
        ),
{
    lemma_appended_twice(fixed, cap, blocks, first, second);
}

/// Added items come behind the others, and nothing else changes.
pub proof fn law_added_items_come_last<T>(
    fixed: bool,
    cap: nat,
    blocks: Seq<Seq<T>>,
    items: Seq<T>,
)
    requires
        valid_blocks(fixed, cap, blocks),
    ensures
        concat(appended(fixed, cap, blocks, items)) == concat(blocks) + items,
        valid_blocks(fixed, cap, appended(fixed, cap, blocks, items)),
{
    lemma_appended(fixed, cap, blocks, items);
}

/// In blocks of a fixed size only a full block is followed by another, whatever is added.
pub proof fn law_only_full_blocks_are_followed<T>(cap: nat, blocks: Seq<Seq<T>>, items: Seq<T>)
    requires
        valid_blocks(true, cap, blocks),
        all_full_but_last(cap, blocks),
    ensures
        all_full_but_last(cap, appended(true, cap, blocks, items)),
        appended(true, cap, blocks, items).last().len() < cap,
{
    lemma_appended(true, cap, blocks, items);
}

/// An item that was added is found at the position behind the last one.
pub proof fn law_added_item_is_found<T>(fixed: bool, cap: nat, blocks: Seq<Seq<T>>, item: T)
    requires
        valid_blocks(fixed, cap, blocks),
    ensures
        appended(fixed, cap, blocks, seq![item])[blocks.len() - 1][blocks.last().len() as int]
            == item,
        forall|b: int, j: int|
            0 <= b < blocks.len() && 0 <= j < blocks[b].len() ==> (#[trigger] appended(
                fixed,
                cap,
                blocks,
                seq![item],
            )[b][j]) == blocks[b][j],
{
    lemma_appended_within(fixed, cap, blocks, seq![item]);
}

/// Items that fill `n` blocks are in `n` full blocks, in order, with an empty block behind them.
pub proof fn law_full_blocks<T>(cap: nat, items: Seq<T>, n: nat)
    requires
        cap > 0,
        items.len() == n * cap,
    ensures
        ({
            let blocks = appended(true, cap, seq![Seq::<T>::empty()], items);
            &&& blocks.len() == n + 1
            &&& blocks.last() == Seq::<T>::empty()
            &&& forall|i: int|
                0 <= i < n ==> (#[trigger] blocks[i]) == items.subrange(i * cap, i * cap + cap)
        }),
{
    let none = seq![Seq::<T>::empty()];
    let blocks = appended(true, cap, none, items);
    assert(concat(none.drop_last()) =~= Seq::<T>::empty());
    lemma_appended(true, cap, none, items);
    assert(concat(blocks) =~= items);
    lemma_full_len(blocks, cap);
    let full = blocks.len() - 1;
    let last = blocks.last().len() as int;
    assert(full == n && last == 0) by {
        lemma_fundamental_div_mod_converse((n * cap) as int, cap as int, full, last);
        assert(cap * full == full * cap) by (nonlinear_arith);
        assert(n * cap == cap * n + 0) by (nonlinear_arith);
        lemma_fundamental_div_mod_converse((n * cap) as int, cap as int, n as int, 0);
    }
    assert(blocks.last() =~= Seq::<T>::empty());
    assert forall|i: int| 0 <= i < n implies (#[trigger] blocks[i]) == items.subrange(
        i * cap,
        i * cap + cap,
    ) by {
        assert(i * cap + cap <= n * cap) by (nonlinear_arith)
            requires
                i + 1 <= n,
        ;
        assert forall|j: int| 0 <= j < cap implies blocks[i][j] == items[i * cap + j] by {
            lemma_item_at(cap, blocks, i, j);
        }
        assert(blocks[i] =~= items.subrange(i * cap, i * cap + cap));
    }
}

/// In blocks that are full but for the last one, the item in a block has all items of the blocks
/// before it, and those before it in its own block, before it.
pub proof fn lemma_item_at<T>(cap: nat, blocks: Seq<Seq<T>>, b: int, j: int)
    requires
        all_full_but_last(cap, blocks),
        0 <= b < blocks.len(),
        0 <= j < blocks[b].len(),
    ensures
        0 <= b * cap + j < concat(blocks).len(),
        concat(blocks)[b * cap + j] == blocks[b][j],
    decreases b,
{
    lemma_concat_first(blocks);
    if b == 0 {
        assert(0 * cap == 0) by (nonlinear_arith);
    } else {
        let rest = blocks.skip(1);
        assert forall|i: int| 0 <= i < rest.len() - 1 implies (#[trigger] rest[i]).len() == cap by {
            assert(rest[i] == blocks[i + 1]);
        }
        lemma_item_at(cap, rest, b - 1, j);
        assert(blocks[0].len() == cap);
        assert(b * cap == (b - 1) * cap + cap) by (nonlinear_arith);
    }
}

/// In blocks of a fixed size, an item is found by its number.
pub proof fn law_item_is_found_by_its_number<T>(cap: nat, blocks: Seq<Seq<T>>, i: int)
    requires
        cap > 0,
        all_full_but_last(cap, blocks),
        blocks.last().len() < cap,
        0 <= i < concat(blocks).len() <= usize::MAX,
        cap <= usize::MAX,
    ensures
        ({
            let position = BlocksIndex::at(i, cap as int);
            &&& position.block_index < blocks.len()
            &&& position.index_in_block < blocks[position.block_index as int].len()
            &&& blocks[position.block_index as int][position.index_in_block as int] == concat(
                blocks,
            )[i]
        }),
{
    let b = i / cap as int;
    let j = i % cap as int;
    lemma_fundamental_div_mod(i, cap as int);
    assert(cap * b == b * cap) by (nonlinear_arith);
    assert(0 <= b <= i) by {
        lemma_div_pos_is_pos(i, cap as int);
        lemma_div_is_ordered_by_denominator(i, 1, cap as int);
    }
    lemma_full_len(blocks, cap);
    let full = blocks.len() - 1;
    if b > full {
        assert(b * cap >= full * cap + cap) by (nonlinear_arith)
            requires
                b >= full + 1,
        ;
    }
    if b == full {
        assert(b * cap == full * cap);
    }
    assert(b <= full);
    lemma_item_at(cap, blocks, b, j);
}

/// What is taken and what is left are together what there was.
pub proof fn law_taking_loses_nothing<T>(blocks: Seq<Seq<T>>, n: nat, sizes: Seq<usize>)
    requires
        blocks.len() > 0,
        n <= blocks[0].len(),
        valid_sizes(blocks, n, sizes),
    ensures
        blocks[0].take(n as int) + concat(after_take_n(blocks, n, sizes)) == concat(blocks),
{
    lemma_after_take_n(blocks, n, sizes);
    lemma_concat_first(blocks);
    assert(blocks[0].take(n as int) + concat(blocks).skip(n as int) =~= concat(blocks));
}

/// Blocks that are taken one after the other give all items, in order.
pub proof fn law_blocks_give_all_items<T>(blocks: Seq<Seq<T>>)
    requires
        blocks.len() > 0,
    ensures
        blocks[0] + concat(blocks.skip(1)) == concat(blocks),
{
    lemma_concat_first(blocks);
}

} // verus!
