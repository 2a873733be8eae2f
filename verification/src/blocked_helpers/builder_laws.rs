//! What holds of several calls of a builder.

use crate::blocked_helpers::blocked_byte_array_builder::{BlockedByteArrayBuilder, ByteColumn};
use crate::blocked_helpers::blocked_custom_input_builder::{
    stored, stored_clones, stores_clone, Block, BlockProvider, BlockProviderFinish,
    BlockWithSlice, BlockedCustomInputBuilder,
};
use crate::blocked_helpers::blocked_offset_buffer_builder::BlockedOffsetBufferBuilder;
use crate::blocked_helpers::laws::law_full_blocks;
use crate::blocked_helpers::layout::{
    all_full_but_last, concat, lemma_appended, lemma_appended_nothing, lemma_appended_twice,
    lemma_appended_within, lemma_concat_first, lemma_concat_one, lemma_concat_push, total_count,
};
use crate::blocked_helpers::offset_size::{
    is_offsets_of, law_lengths_determine_offsets, lengths_of, OffsetSize,
};
use vstd::prelude::*;

verus! {

/// The `i`-th builder becomes the next one when these lengths are added.
pub open spec fn adds_part<const FIXED_BLOCK_SIZING: bool, O: OffsetSize>(
    builders: Seq<BlockedOffsetBufferBuilder<FIXED_BLOCK_SIZING, O>>,
    parts: Seq<Seq<int>>,
    i: int,
) -> bool {
    builders[i].lengthened(parts[i], &builders[i + 1])
}

/// From the first builder to the last one, the lengths are added part by part, in any of the ways
/// to add lengths. No part is empty.
pub open spec fn adds_parts<const FIXED_BLOCK_SIZING: bool, O: OffsetSize>(
    builders: Seq<BlockedOffsetBufferBuilder<FIXED_BLOCK_SIZING, O>>,
    parts: Seq<Seq<int>>,
) -> bool {
    &&& builders.len() == parts.len() + 1
    &&& builders[0].wf()
    &&& forall|i: int| 0 <= i < parts.len() ==> (#[trigger] parts[i]).len() > 0
    &&& forall|i: int| 0 <= i < parts.len() ==> #[trigger] adds_part(builders, parts, i)
}

proof fn lemma_parts<const FIXED_BLOCK_SIZING: bool, O: OffsetSize>(
    builders: Seq<BlockedOffsetBufferBuilder<FIXED_BLOCK_SIZING, O>>,
    parts: Seq<Seq<int>>,
    k: int,
)
    requires
        adds_parts(builders, parts),
        0 <= k <= parts.len(),
    ensures
        builders[0].lengthened(concat(parts.take(k)), &builders[k]),
        k > 0 ==> concat(parts.take(k)).len() > 0,
        k == 0 ==> concat(parts.take(k)).len() == 0,
    decreases k,
{
    let first = builders[0];
    first.lemma_wf();
    if k == 0 {
        lemma_appended_nothing(FIXED_BLOCK_SIZING, first.cap(), first.lengths());
        assert(parts.take(0) =~= Seq::empty());
    } else {
        lemma_parts(builders, parts, k - 1);
        assert(adds_part(builders, parts, k - 1));
        let done = parts.take(k - 1);
        let part = parts[k - 1];
        lemma_concat_push(done, part);
        assert(done.push(part) =~= parts.take(k));
        lemma_appended_twice(
            FIXED_BLOCK_SIZING,
            first.cap(),
            first.lengths(),
            concat(done),
            part,
        );
    }
}

/// In whichever ways lengths are added part by part, it is the same as adding all of them.
pub proof fn law_lengths_can_be_added_in_any_parts<const FIXED_BLOCK_SIZING: bool, O: OffsetSize>(
    builders: Seq<BlockedOffsetBufferBuilder<FIXED_BLOCK_SIZING, O>>,
    parts: Seq<Seq<int>>,
)
    requires
        adds_parts(builders, parts),
    ensures
        builders[0].lengthened(concat(parts), &builders.last()),
{
    lemma_parts(builders, parts, parts.len() as int);
    assert(parts.take(parts.len() as int) =~= parts);
}

/// The lengths of items, each a part of its own.
pub open spec fn one_by_one(lengths: Seq<int>) -> Seq<Seq<int>> {
    Seq::new(lengths.len(), |i: int| seq![lengths[i]])
}

proof fn lemma_one_by_one(lengths: Seq<int>)
    ensures
        concat(one_by_one(lengths)) == lengths,
    decreases lengths.len(),
{
    if lengths.len() > 0 {
        lemma_one_by_one(lengths.drop_last());
        assert(one_by_one(lengths).drop_last() =~= one_by_one(lengths.drop_last()));
        assert(concat(one_by_one(lengths)) =~= lengths);
    } else {
        assert(concat(one_by_one(lengths)) =~= lengths);
    }
}

/// Two builders of offsets have the same blocks and make the same of what is added to them. So
/// they have as many items and the same last offset.
pub open spec fn same_offsets<const FIXED_BLOCK_SIZING: bool, O: OffsetSize>(
    a: BlockedOffsetBufferBuilder<FIXED_BLOCK_SIZING, O>,
    b: BlockedOffsetBufferBuilder<FIXED_BLOCK_SIZING, O>,
) -> bool {
    &&& a.lengths() == b.lengths()
    &&& a.cap() == b.cap()
    &&& a.pending() == b.pending()
}

/// Adding the lengths between offsets at once gives the blocks that pushing the length of each item
/// gives. It is the same in all other respects too, except that the empty block of a builder without
/// a fixed block size, all of whose blocks were taken, counts once nothing is added to it.
pub proof fn law_offsets_are_pushed_one_by_one<const FIXED_BLOCK_SIZING: bool, O: OffsetSize>(
    builders: Seq<BlockedOffsetBufferBuilder<FIXED_BLOCK_SIZING, O>>,
    offsets: Seq<O>,
    extended: BlockedOffsetBufferBuilder<FIXED_BLOCK_SIZING, O>,
)
    requires
        offsets.len() > 0,
        adds_parts(builders, one_by_one(lengths_of(offsets))),
        builders[0].extended_by_offsets(offsets, &extended),
    ensures
        extended.lengths() == builders.last().lengths(),
        extended.cap() == builders.last().cap(),
        FIXED_BLOCK_SIZING || offsets.len() > 1 || !builders[0].pending() ==> same_offsets(
            extended,
            builders.last(),
        ),
{
    law_lengths_can_be_added_in_any_parts(builders, one_by_one(lengths_of(offsets)));
    lemma_one_by_one(lengths_of(offsets));
    if offsets.len() == 1 {
        assert(builders.last() == builders[0]);
    }
}

/// Only the lengths between offsets count: adding a constant to all of them changes nothing.
pub proof fn law_offsets_can_start_anywhere<const FIXED_BLOCK_SIZING: bool, O: OffsetSize>(
    before: BlockedOffsetBufferBuilder<FIXED_BLOCK_SIZING, O>,
    offsets: Seq<O>,
    after: BlockedOffsetBufferBuilder<FIXED_BLOCK_SIZING, O>,
    moved: Seq<O>,
    by: int,
    after_moved: BlockedOffsetBufferBuilder<FIXED_BLOCK_SIZING, O>,
)
    requires
        moved.len() == offsets.len() > 0,
        forall|i: int|
            0 <= i < offsets.len() ==> (#[trigger] moved[i]).val() == offsets[i].val() + by,
        before.extended_by_offsets(offsets, &after),
        before.extended_by_offsets(moved, &after_moved),
    ensures
        same_offsets(after, after_moved),
{
    assert(lengths_of(moved) =~= lengths_of(offsets));
}

/// The `i`-th builder becomes the next one when a block is taken, with this result.
pub open spec fn takes_block<const FIXED_BLOCK_SIZING: bool, O: OffsetSize>(
    builders: Seq<BlockedOffsetBufferBuilder<FIXED_BLOCK_SIZING, O>>,
    results: Seq<Option<Seq<O>>>,
    i: int,
) -> bool {
    builders[i].took_block(results[i], &builders[i + 1])
}

/// From the first builder to the last one, blocks are taken until there is none, with these results.
pub open spec fn drains<const FIXED_BLOCK_SIZING: bool, O: OffsetSize>(
    builders: Seq<BlockedOffsetBufferBuilder<FIXED_BLOCK_SIZING, O>>,
    results: Seq<Option<Seq<O>>>,
) -> bool {
    &&& results.len() > 0
    &&& builders.len() == results.len() + 1
    &&& builders[0].wf()
    &&& results.last() is None
    &&& forall|i: int| 0 <= i < results.len() - 1 ==> (#[trigger] results[i]) is Some
    &&& forall|i: int| 0 <= i < results.len() ==> #[trigger] takes_block(builders, results, i)
}

proof fn lemma_taken<const FIXED_BLOCK_SIZING: bool, O: OffsetSize>(
    builders: Seq<BlockedOffsetBufferBuilder<FIXED_BLOCK_SIZING, O>>,
    results: Seq<Option<Seq<O>>>,
    i: int,
)
    requires
        drains(builders, results),
        0 <= i < results.len(),
    ensures
        i <= builders[0].lengths().len(),
        builders[i].wf(),
        builders[i].cap() == builders[0].cap(),
        builders[i].lengths() == if i < builders[0].lengths().len() {
            builders[0].lengths().skip(i)
        } else {
            seq![Seq::<int>::empty()]
        },
        builders[i].pending() == (builders[0].pending() || i == builders[0].lengths().len()),
    decreases i,
{
    let all = builders[0].lengths();
    builders[0].lemma_wf();
    if i == 0 {
        assert(all.skip(0) =~= all);
    } else {
        lemma_taken(builders, results, i - 1);
        assert(takes_block(builders, results, i - 1));
        assert(results[i - 1] is Some);
        if i < all.len() {
            assert(all.skip(i - 1).skip(1) =~= all.skip(i));
        }
    }
}

/// Blocks are taken in order, each once, until there is none left to take. Then the builder is
/// empty.
pub proof fn law_blocks_are_taken_in_order<const FIXED_BLOCK_SIZING: bool, O: OffsetSize>(
    builders: Seq<BlockedOffsetBufferBuilder<FIXED_BLOCK_SIZING, O>>,
    results: Seq<Option<Seq<O>>>,
)
    requires
        drains(builders, results),
    ensures
        results.len() == builders[0].lengths().len() + if builders[0].pending() {
            0int
        } else {
            1
        },
        forall|i: int|
            0 <= i < results.len() - 1 ==> is_offsets_of(
                (#[trigger] results[i])->0,
                builders[0].lengths()[i],
            ),
        builders.last().wf(),
        builders.last().cap() == builders[0].cap(),
        builders.last().lengths() == seq![Seq::<int>::empty()],
{
    let all = builders[0].lengths();
    let n = results.len() - 1;
    builders[0].lemma_wf();
    assert forall|i: int| 0 <= i < n implies is_offsets_of(
        (#[trigger] results[i])->0,
        all[i],
    ) by {
        lemma_taken(builders, results, i);
        assert(takes_block(builders, results, i));
    }
    lemma_taken(builders, results, n);
    assert(takes_block(builders, results, n));
    if n > 0 {
        lemma_taken(builders, results, n - 1);
        assert(takes_block(builders, results, n - 1));
        assert(results[n - 1] is Some);
    }
    if builders[0].pending() {
        assert(all.last() =~= Seq::<int>::empty());
        assert(all.skip(all.len() - 1) =~= seq![Seq::<int>::empty()]);
    }
}

/// A builder whose blocks were all taken starts over: whichever way the same lengths are added to
/// it again, the results of taking blocks, up to the first `None`, are the same as the first time.
/// Lengths that fill `n` blocks of a fixed size are taken as these `n` blocks, each with offsets
/// from zero on.
pub proof fn law_drained_builder_starts_over<const FIXED_BLOCK_SIZING: bool, O: OffsetSize>(
    items: Seq<int>,
    first_filled: Seq<BlockedOffsetBufferBuilder<FIXED_BLOCK_SIZING, O>>,
    first_parts: Seq<Seq<int>>,
    first_drained: Seq<BlockedOffsetBufferBuilder<FIXED_BLOCK_SIZING, O>>,
    first_results: Seq<Option<Seq<O>>>,
    second_filled: Seq<BlockedOffsetBufferBuilder<FIXED_BLOCK_SIZING, O>>,
    second_parts: Seq<Seq<int>>,
    second_drained: Seq<BlockedOffsetBufferBuilder<FIXED_BLOCK_SIZING, O>>,
    second_results: Seq<Option<Seq<O>>>,
    n: nat,
)
    requires
        items.len() > 0,
        first_filled[0].lengths() == seq![Seq::<int>::empty()],
        adds_parts(first_filled, first_parts),
        concat(first_parts) == items,
        first_drained[0] == first_filled.last(),
        drains(first_drained, first_results),
        second_filled[0] == first_drained.last(),
        adds_parts(second_filled, second_parts),
        concat(second_parts) == items,
        second_drained[0] == second_filled.last(),
        drains(second_drained, second_results),
    ensures
        second_results == first_results,
        FIXED_BLOCK_SIZING && items.len() == n * first_filled[0].cap() ==> {
            let cap = first_filled[0].cap();
            &&& first_results.len() == n + 1
            &&& first_results[n as int] is None
            &&& forall|i: int|
                0 <= i < n ==> {
                    &&& (#[trigger] first_results[i]) is Some
                    &&& is_offsets_of(
                        first_results[i]->0,
                        items.subrange(i * cap, i * cap + cap),
                    )
                    &&& first_results[i]->0[0].val() == 0
                }
        },
{
    law_lengths_can_be_added_in_any_parts(first_filled, first_parts);
    law_lengths_can_be_added_in_any_parts(second_filled, second_parts);
    law_blocks_are_taken_in_order(first_drained, first_results);
    law_blocks_are_taken_in_order(second_drained, second_results);
    let blocks = first_drained[0].lengths();
    assert(second_drained[0].lengths() == blocks);
    assert forall|i: int| 0 <= i < first_results.len() implies first_results[i]
        == second_results[i] by {
        if i < first_results.len() - 1 {
            assert(first_results[i] is Some);
            assert(second_results[i] is Some);
            law_lengths_determine_offsets(
                first_results[i]->0,
                second_results[i]->0,
                blocks[i],
            );
        }
    }
    assert(first_results =~= second_results);
    first_filled[0].lemma_wf();
    if FIXED_BLOCK_SIZING && items.len() == n * first_filled[0].cap() {
        law_full_blocks(first_filled[0].cap(), items, n);
    }
}

/// The `i`-th builder becomes the next one when an item is pushed.
pub open spec fn pushes_item<const FIXED_BLOCK_SIZING: bool, P: BlockProvider>(
    builders: Seq<BlockedCustomInputBuilder<FIXED_BLOCK_SIZING, P>>,
    items: Seq<<P::Block as Block>::Item>,
    i: int,
) -> bool {
    builders[i].pushed(items[i], &builders[i + 1])
}

/// From the first builder to the last one, the items are pushed one after the other.
pub open spec fn pushes<const FIXED_BLOCK_SIZING: bool, P: BlockProvider>(
    builders: Seq<BlockedCustomInputBuilder<FIXED_BLOCK_SIZING, P>>,
    items: Seq<<P::Block as Block>::Item>,
) -> bool {
    &&& builders.len() == items.len() + 1
    &&& builders[0].wf()
    &&& forall|i: int| 0 <= i < items.len() ==> #[trigger] pushes_item(builders, items, i)
}

/// Two builders have the same blocks and make the same of what is added to them.
pub open spec fn same_builder<const FIXED_BLOCK_SIZING: bool, P: BlockProvider>(
    a: BlockedCustomInputBuilder<FIXED_BLOCK_SIZING, P>,
    b: BlockedCustomInputBuilder<FIXED_BLOCK_SIZING, P>,
) -> bool {
    &&& same_blocks(a, b)
    &&& a.pending() == b.pending()
}

/// Two builders have the same blocks, item for item, and so as many items, and the same block size
/// and provider.
pub open spec fn same_blocks<const FIXED_BLOCK_SIZING: bool, P: BlockProvider>(
    a: BlockedCustomInputBuilder<FIXED_BLOCK_SIZING, P>,
    b: BlockedCustomInputBuilder<FIXED_BLOCK_SIZING, P>,
) -> bool {
    &&& a.blocks() == b.blocks()
    &&& a.cap() == b.cap()
    &&& a.provider() == b.provider()
}

proof fn lemma_pushes<const FIXED_BLOCK_SIZING: bool, P: BlockProvider>(
    builders: Seq<BlockedCustomInputBuilder<FIXED_BLOCK_SIZING, P>>,
    items: Seq<<P::Block as Block>::Item>,
    k: int,
)
    requires
        pushes(builders, items),
        0 <= k <= items.len(),
    ensures
        builders[0].added(items.take(k), &builders[k]),
        builders[k].pending() == if k == 0 {
            builders[0].pending()
        } else {
            FIXED_BLOCK_SIZING && builders[k].blocks().last().len() == 0
        },
    decreases k,
{
    let first = builders[0];
    first.lemma_wf();
    if k == 0 {
        lemma_appended_nothing(FIXED_BLOCK_SIZING, first.cap(), first.blocks());
        assert(items.take(0) =~= Seq::empty());
    } else {
        lemma_pushes(builders, items, k - 1);
        assert(pushes_item(builders, items, k - 1));
        let done = items.take(k - 1);
        let item = seq![items[k - 1]];
        lemma_appended_twice(FIXED_BLOCK_SIZING, first.cap(), first.blocks(), done, item);
        assert(done + item =~= items.take(k));
        let before = builders[k - 1];
        before.lemma_wf();
        lemma_appended_within(FIXED_BLOCK_SIZING, before.cap(), before.blocks(), item);
    }
}

/// `after` is what pushing the items one after the other makes of a builder.
pub open spec fn is_pushed<const FIXED_BLOCK_SIZING: bool, P: BlockProvider>(
    before: BlockedCustomInputBuilder<FIXED_BLOCK_SIZING, P>,
    items: Seq<<P::Block as Block>::Item>,
    after: BlockedCustomInputBuilder<FIXED_BLOCK_SIZING, P>,
) -> bool {
    forall|builders: Seq<BlockedCustomInputBuilder<FIXED_BLOCK_SIZING, P>>| #[trigger]
        pushes(builders, items) && builders[0] == before ==> same_builder(after, builders.last())
}

/// `after` has the blocks that pushing the items one after the other makes of a builder.
pub open spec fn has_pushed_blocks<const FIXED_BLOCK_SIZING: bool, P: BlockProvider>(
    before: BlockedCustomInputBuilder<FIXED_BLOCK_SIZING, P>,
    items: Seq<<P::Block as Block>::Item>,
    after: BlockedCustomInputBuilder<FIXED_BLOCK_SIZING, P>,
) -> bool {
    forall|builders: Seq<BlockedCustomInputBuilder<FIXED_BLOCK_SIZING, P>>| #[trigger]
        pushes(builders, items) && builders[0] == before ==> same_blocks(after, builders.last())
}

proof fn lemma_pushed_blocks<const FIXED_BLOCK_SIZING: bool, P: BlockProvider>(
    before: BlockedCustomInputBuilder<FIXED_BLOCK_SIZING, P>,
    items: Seq<<P::Block as Block>::Item>,
    after: BlockedCustomInputBuilder<FIXED_BLOCK_SIZING, P>,
)
    requires
        before.added(items, &after),
    ensures
        has_pushed_blocks(before, items, after),
{
    assert forall|builders: Seq<BlockedCustomInputBuilder<FIXED_BLOCK_SIZING, P>>| #[trigger]
        pushes(builders, items) && builders[0] == before implies same_blocks(
        after,
        builders.last(),
    ) by {
        lemma_pushes(builders, items, items.len() as int);
        assert(items.take(items.len() as int) =~= items);
    }
}

proof fn lemma_is_pushed<const FIXED_BLOCK_SIZING: bool, P: BlockProvider>(
    before: BlockedCustomInputBuilder<FIXED_BLOCK_SIZING, P>,
    items: Seq<<P::Block as Block>::Item>,
    after: BlockedCustomInputBuilder<FIXED_BLOCK_SIZING, P>,
)
    requires
        before.added(items, &after),
        after.pending() == if items.len() == 0 {
            before.pending()
        } else {
            FIXED_BLOCK_SIZING && after.blocks().last().len() == 0
        },
    ensures
        is_pushed(before, items, after),
{
    assert forall|builders: Seq<BlockedCustomInputBuilder<FIXED_BLOCK_SIZING, P>>| #[trigger]
        pushes(builders, items) && builders[0] == before implies same_builder(
        after,
        builders.last(),
    ) by {
        lemma_pushes(builders, items, items.len() as int);
        assert(items.take(items.len() as int) =~= items);
    }
}

/// Adding a slice is pushing what the blocks store of its items one by one. Where they store just
/// the items, it is pushing the items. An empty slice changes nothing. With a fixed block size no
/// block has more items than that, and only a full one is followed by another.
pub proof fn law_slice_is_pushed_item_by_item<const FIXED_BLOCK_SIZING: bool, P: BlockProvider>(
    before: BlockedCustomInputBuilder<FIXED_BLOCK_SIZING, P>,
    slice: Seq<<P::Block as Block>::Item>,
    after: BlockedCustomInputBuilder<FIXED_BLOCK_SIZING, P>,
) where P::Block: BlockWithSlice
    requires
        before.wf(),
        before.added_slice(slice, &after),
    ensures
        slice.len() == 0 ==> same_builder(after, before),
        FIXED_BLOCK_SIZING ==> forall|b: int|
            0 <= b < after.blocks().len() ==> (#[trigger] after.blocks()[b]).len() <= after.cap(),
        FIXED_BLOCK_SIZING && all_full_but_last(before.cap(), before.blocks())
            ==> all_full_but_last(after.cap(), after.blocks()),
        exists|items: Seq<<P::Block as Block>::Item>| #[trigger]
            stored::<P::Block>(slice, items) && is_pushed(before, items, after),
        (forall|given: <P::Block as Block>::Item, kept: <P::Block as Block>::Item| #[trigger]
            <P::Block as BlockWithSlice>::stores(given, kept) ==> kept == given) ==> is_pushed(
            before,
            slice,
            after,
        ),
{
    let items = choose|items: Seq<<P::Block as Block>::Item>| #[trigger]
        stored::<P::Block>(slice, items) && before.added(items, &after);
    lemma_is_pushed(before, items, after);
    before.lemma_wf();
    after.lemma_wf();
    lemma_appended(FIXED_BLOCK_SIZING, before.cap(), before.blocks(), items);
    if slice.len() == 0 {
        assert(items =~= Seq::empty());
        lemma_appended_nothing(FIXED_BLOCK_SIZING, before.cap(), before.blocks());
    }
    if forall|given: <P::Block as Block>::Item, kept: <P::Block as Block>::Item| #[trigger]
        <P::Block as BlockWithSlice>::stores(given, kept) ==> kept == given {
        assert forall|i: int| 0 <= i < slice.len() implies items[i] == slice[i] by {
            assert(<P::Block as BlockWithSlice>::stores(slice[i], items[i]));
        }
        assert(items =~= slice);
    }
}

/// A value is cloned and stored as just that value.
pub open spec fn is_kept_as_it_is<B: BlockWithSlice>(value: B::Item) -> bool where
    B::Item: Clone
 {
    forall|kept: B::Item| #[trigger] stores_clone::<B>(value, kept) ==> kept == value
}

/// The clones that were added, all of them the value itself if it is kept as it is.
proof fn lemma_value_n<const FIXED_BLOCK_SIZING: bool, P: BlockProvider>(
    before: BlockedCustomInputBuilder<FIXED_BLOCK_SIZING, P>,
    value: <P::Block as Block>::Item,
    n: nat,
    after: BlockedCustomInputBuilder<FIXED_BLOCK_SIZING, P>,
) -> (items: Seq<<P::Block as Block>::Item>) where
    P::Block: BlockWithSlice,
    <P::Block as Block>::Item: Clone,

    requires
        before.added_n(value, n, &after),
    ensures
        items.len() == n,
        stored_clones::<P::Block>(value, items),
        before.added(items, &after),
        is_kept_as_it_is::<P::Block>(value) ==> items == Seq::new(n, |i: int| value),
{
    let items = choose|items: Seq<<P::Block as Block>::Item>|
        {
            &&& items.len() == n
            &&& #[trigger] stored_clones::<P::Block>(value, items)
            &&& before.added(items, &after)
        };
    if is_kept_as_it_is::<P::Block>(value) {
        assert forall|i: int| 0 <= i < n implies items[i] == value by {
            assert(stores_clone::<P::Block>(value, items[i]));
        }
        assert(items =~= Seq::new(n, |i: int| value));
    }
    items
}

/// Adding a value `n` times gives the blocks that pushing `n` clones of it one by one gives; where
/// it is kept as it is, those of pushing the value `n` times. It is the same in all other respects
/// too, except that the empty block of a builder without a fixed block size, all of whose blocks
/// were taken, counts once nothing is added to it.
pub proof fn law_value_is_pushed_n_times<const FIXED_BLOCK_SIZING: bool, P: BlockProvider>(
    before: BlockedCustomInputBuilder<FIXED_BLOCK_SIZING, P>,
    value: <P::Block as Block>::Item,
    n: nat,
    after: BlockedCustomInputBuilder<FIXED_BLOCK_SIZING, P>,
) where P::Block: BlockWithSlice, <P::Block as Block>::Item: Clone
    requires
        before.added_n(value, n, &after),
    ensures
        exists|items: Seq<<P::Block as Block>::Item>|
            {
                &&& items.len() == n
                &&& #[trigger] stored_clones::<P::Block>(value, items)
                &&& has_pushed_blocks(before, items, after)
                &&& n > 0 || FIXED_BLOCK_SIZING || !before.pending() ==> is_pushed(
                    before,
                    items,
                    after,
                )
            },
        is_kept_as_it_is::<P::Block>(value) ==> {
            let items = Seq::new(n, |i: int| value);
            &&& has_pushed_blocks(before, items, after)
            &&& n > 0 || FIXED_BLOCK_SIZING || !before.pending() ==> is_pushed(
                before,
                items,
                after,
            )
        },
{
    let items = lemma_value_n(before, value, n, after);
    lemma_pushed_blocks(before, items, after);
    if n > 0 || FIXED_BLOCK_SIZING || !before.pending() {
        lemma_is_pushed(before, items, after);
    }
}

/// Adding a value `i` times and then `j` times is adding it `i + j` times. Where it is kept as it
/// is, there is only one way to do that.
pub proof fn law_repetitions_add_up<const FIXED_BLOCK_SIZING: bool, P: BlockProvider>(
    before: BlockedCustomInputBuilder<FIXED_BLOCK_SIZING, P>,
    value: <P::Block as Block>::Item,
    i: nat,
    between: BlockedCustomInputBuilder<FIXED_BLOCK_SIZING, P>,
    j: nat,
    after: BlockedCustomInputBuilder<FIXED_BLOCK_SIZING, P>,
    at_once: BlockedCustomInputBuilder<FIXED_BLOCK_SIZING, P>,
) where P::Block: BlockWithSlice, <P::Block as Block>::Item: Clone
    requires
        before.wf(),
        before.added_n(value, i, &between),
        between.added_n(value, j, &after),
        before.added_n(value, i + j, &at_once),
    ensures
        before.added_n(value, i + j, &after),
        is_kept_as_it_is::<P::Block>(value) ==> same_builder(after, at_once),
{
    let first = lemma_value_n(before, value, i, between);
    let second = lemma_value_n(between, value, j, after);
    let all = lemma_value_n(before, value, i + j, at_once);
    before.lemma_wf();
    lemma_appended_twice(FIXED_BLOCK_SIZING, before.cap(), before.blocks(), first, second);
    assert forall|k: int| 0 <= k < i + j implies stores_clone::<P::Block>(
        value,
        #[trigger] (first + second)[k],
    ) by {
        if k < i {
            assert((first + second)[k] == first[k]);
        } else {
            assert((first + second)[k] == second[k - i]);
        }
    }
    assert(stored_clones::<P::Block>(value, first + second));
    if j == 0 {
        between.lemma_wf();
        lemma_appended_nothing(FIXED_BLOCK_SIZING, between.cap(), between.blocks());
        assert(second =~= Seq::empty());
    }
    if is_kept_as_it_is::<P::Block>(value) {
        assert(first + second =~= all);
    }
}

/// Adding a value no times leaves all blocks as they are. It changes nothing, except that the empty
/// block of a builder without a fixed block size, all of whose blocks were taken, counts from then
/// on.
pub proof fn law_no_repetition_adds_nothing<const FIXED_BLOCK_SIZING: bool, P: BlockProvider>(
    before: BlockedCustomInputBuilder<FIXED_BLOCK_SIZING, P>,
    value: <P::Block as Block>::Item,
    after: BlockedCustomInputBuilder<FIXED_BLOCK_SIZING, P>,
) where P::Block: BlockWithSlice, <P::Block as Block>::Item: Clone
    requires
        before.wf(),
        before.added_n(value, 0, &after),
    ensures
        same_blocks(after, before),
        FIXED_BLOCK_SIZING || !before.pending() ==> same_builder(after, before),
{
    let items = lemma_value_n(before, value, 0, after);
    before.lemma_wf();
    assert(items =~= Seq::empty());
    lemma_appended_nothing(FIXED_BLOCK_SIZING, before.cap(), before.blocks());
}

/// The `i`-th builder becomes the next one when so many items are added, or when a block with so
/// many items is taken.
pub open spec fn adds_or_takes<const FIXED_BLOCK_SIZING: bool, P: BlockProvider>(
    builders: Seq<BlockedCustomInputBuilder<FIXED_BLOCK_SIZING, P>>,
    added: Seq<nat>,
    taken: Seq<nat>,
    i: int,
) -> bool {
    ||| {
        &&& taken[i] == 0
        &&& exists|items: Seq<<P::Block as Block>::Item>|
            items.len() == added[i] && #[trigger] builders[i].added(items, &builders[i + 1])
    }
    ||| {
        &&& added[i] == 0
        &&& exists|block: Option<P::Block>|
            {
                &&& #[trigger] builders[i].took_block(block, &builders[i + 1])
                &&& taken[i] == match block {
                    Some(block) => block.items().len(),
                    None => 0,
                }
            }
    }
}

/// The number of items is that of the items that were added, less those of the blocks that were
/// taken, and there is no item exactly if they are as many.
pub proof fn law_len_is_added_less_taken<const FIXED_BLOCK_SIZING: bool, P: BlockProvider>(
    builders: Seq<BlockedCustomInputBuilder<FIXED_BLOCK_SIZING, P>>,
    added: Seq<nat>,
    taken: Seq<nat>,
)
    requires
        builders.len() == added.len() + 1,
        taken.len() == added.len(),
        builders[0].wf(),
        builders[0].items().len() == 0,
        forall|i: int|
            0 <= i < added.len() ==> #[trigger] adds_or_takes(builders, added, taken, i),
    ensures
        builders.last().wf(),
        builders.last().items().len() == total_count(added) - total_count(taken),
        builders.last().items().len() == 0 <==> total_count(added) == total_count(taken),
    decreases added.len(),
{
    if added.len() > 0 {
        let k = added.len() - 1;
        let earlier = builders.drop_last();
        assert forall|i: int| 0 <= i < k implies #[trigger] adds_or_takes(
            earlier,
            added.drop_last(),
            taken.drop_last(),
            i,
        ) by {
            assert(adds_or_takes(builders, added, taken, i));
            assert(earlier[i] == builders[i] && earlier[i + 1] == builders[i + 1]);
            assert(added.drop_last()[i] == added[i] && taken.drop_last()[i] == taken[i]);
        }
        law_len_is_added_less_taken(earlier, added.drop_last(), taken.drop_last());
        assert(adds_or_takes(builders, added, taken, k));
        let before = builders[k];
        let after = builders[k + 1];
        assert(earlier.last() == before);
        before.lemma_wf();
        if taken[k] == 0 && exists|items: Seq<<P::Block as Block>::Item>|
            items.len() == added[k] && #[trigger] before.added(items, &after) {
            let items = choose|items: Seq<<P::Block as Block>::Item>|
                items.len() == added[k] && #[trigger] before.added(items, &after);
            lemma_appended(FIXED_BLOCK_SIZING, before.cap(), before.blocks(), items);
        } else {
            let block = choose|block: Option<P::Block>|
                {
                    &&& #[trigger] before.took_block(block, &after)
                    &&& taken[k] == match block {
                        Some(block) => block.items().len(),
                        None => 0,
                    }
                };
            if block is Some {
                lemma_concat_first(before.blocks());
                if before.blocks().len() == 1 {
                    lemma_concat_one(Seq::<<P::Block as Block>::Item>::empty());
                    assert(before.blocks().skip(1) =~= Seq::empty());
                }
            }
        }
    }
}

/// Taking a block in its final form leaves the builder as taking the block does. It gives what the
/// provider makes of that block, or `None` if there is none.
pub proof fn law_finished_block_is_the_taken_one<
    const FIXED_BLOCK_SIZING: bool,
    P: BlockProviderFinish,
>(
    before: BlockedCustomInputBuilder<FIXED_BLOCK_SIZING, P>,
    taken: Option<P::Block>,
    after_taken: BlockedCustomInputBuilder<FIXED_BLOCK_SIZING, P>,
    finished: Option<P::FinishedBlock>,
    after_finished: BlockedCustomInputBuilder<FIXED_BLOCK_SIZING, P>,
)
    requires
        before.took_block(taken, &after_taken),
        before.took_block_finished(finished, &after_finished),
    ensures
        same_builder(after_finished, after_taken),
        finished is None <==> taken is None,
        finished is Some ==> {
            &&& P::is_finished(finished->0, taken->0.items())
            &&& exists|block: P::Block|
                block.items() == taken->0.items() && #[trigger] call_ensures(
                    P::finish,
                    (&before.provider(), block),
                    finished->0,
                )
        },
{
}

/// The `i`-th builder becomes the next one when an item is pushed, a null if it is not valid.
pub open spec fn pushes_row<const FIXED_BLOCK_SIZING: bool, O: OffsetSize>(
    builders: Seq<BlockedByteArrayBuilder<FIXED_BLOCK_SIZING, O>>,
    values: Seq<Seq<u8>>,
    valid: Seq<bool>,
    i: int,
) -> bool {
    builders[i].pushed(values[i], valid[i], &builders[i + 1])
}

proof fn lemma_pushed_rows<const FIXED_BLOCK_SIZING: bool, O: OffsetSize>(
    builders: Seq<BlockedByteArrayBuilder<FIXED_BLOCK_SIZING, O>>,
    values: Seq<Seq<u8>>,
    valid: Seq<bool>,
    k: int,
)
    requires
        builders.len() == values.len() + 1,
        valid.len() == values.len(),
        builders[0].wf(),
        forall|i: int|
            0 <= i < values.len() ==> #[trigger] pushes_row(builders, values, valid, i),
        0 <= k <= values.len(),
    ensures
        builders[0].added_values(values.take(k), &builders[k]),
        builders[k].valid() == builders[0].valid_with(valid.take(k)),
    decreases k,
{
    let first = builders[0];
    first.lemma_wf();
    if k == 0 {
        lemma_appended_nothing(FIXED_BLOCK_SIZING, first.cap(), first.values());
        lemma_appended_nothing(FIXED_BLOCK_SIZING, first.cap(), first.valid());
        assert(values.take(0) =~= Seq::empty());
        assert(valid.take(0) =~= Seq::empty());
    } else {
        lemma_pushed_rows(builders, values, valid, k - 1);
        assert(pushes_row(builders, values, valid, k - 1));
        let done = values.take(k - 1);
        let done_valid = valid.take(k - 1);
        let item = seq![values[k - 1]];
        let item_valid = seq![valid[k - 1]];
        lemma_appended_twice(FIXED_BLOCK_SIZING, first.cap(), first.values(), done, item);
        lemma_appended_twice(FIXED_BLOCK_SIZING, first.cap(), first.valid(), done_valid, item_valid);
        assert(done + item =~= values.take(k));
        assert(done_valid + item_valid =~= valid.take(k));
    }
}

/// Adding the rows of a column at once is pushing them one by one.
pub proof fn law_column_is_pushed_row_by_row<const FIXED_BLOCK_SIZING: bool, O: OffsetSize>(
    builders: Seq<BlockedByteArrayBuilder<FIXED_BLOCK_SIZING, O>>,
    column: ByteColumn<'_, O>,
    extended: BlockedByteArrayBuilder<FIXED_BLOCK_SIZING, O>,
)
    requires
        column.wf(),
        builders[0].wf(),
        builders.len() == column.len() + 1,
        forall|i: int|
            0 <= i < column.len() ==> #[trigger] pushes_row(
                builders,
                column.values(),
                column.valid(),
                i,
            ),
        builders[0].extended(&column, &extended),
    ensures
        extended.values() == builders.last().values(),
        extended.valid() == builders.last().valid(),
        extended.cap() == builders.last().cap(),
        extended.pending() == builders.last().pending(),
{
    let n = column.len() as int;
    lemma_pushed_rows(builders, column.values(), column.valid(), n);
    assert(column.values().take(n) =~= column.values());
    assert(column.valid().take(n) =~= column.valid());
}

} // verus!
