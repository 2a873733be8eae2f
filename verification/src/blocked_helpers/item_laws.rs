//! What each builder does with the items that it is given, item by item.

use crate::arrow_buffers::{
    bit_len, built_bits, count_nulls, packed_bytes, same_bits, validity,
};
use crate::blocked_helpers::bits::{bit_at, bits_in, byte_bit};
use crate::blocked_helpers::blocked_boolean_builder::BlockedBooleanBuilder;
use crate::blocked_helpers::blocked_bytes_buffer_builder::{
    bytes_at, slices, BlockedBytesBufferBuilder,
};
use crate::blocked_helpers::blocked_custom_input_builder::{
    bytes_in_blocks, stored, stored_clones, stores_clone, Block, BlockProvider,
    BlockProviderFinish, BlockWithSlice, BlockedCustomInputBuilder,
};
use crate::blocked_helpers::blocked_nulls_builder::{
    is_null_buffer_of, validity_at, BlockedNullsBuilder,
};
use crate::blocked_helpers::blocked_offset_buffer_builder::{
    as_ints, lengths_at, repeated, BlockedOffsetBufferBuilder,
};
use crate::blocked_helpers::blocked_vec_builder::VecBlockProvider;
use crate::blocked_helpers::layout::concat;
use crate::blocked_helpers::layout_laws::{
    are_added, is_in_block, law_added_items_are_there, law_cut_items_by_number,
    law_places_after_taking, law_places_of_added_items, lemma_cut_at,
};
use crate::blocked_helpers::offset_size::{
    is_offsets_of, lemma_valid_offsets, lengths_of, total, valid_offsets, OffsetSize,
};
use crate::blocked_helpers::offset_block::OffsetBlock;
use crate::blocked_helpers::take_n_helpers::{lemma_after_take_n, used_bytes};
use crate::groups_accumulator::BlocksIndex;
use arrow::array::BooleanBufferBuilder;
use arrow::buffer::NullBuffer;
use vstd::layout::size_of;
use vstd::prelude::*;

verus! {

/// The first block is gone, and the others have moved up. If it was the only one, there is an empty
/// block.
pub open spec fn lacks_first_block<T>(blocks: Seq<Seq<T>>, after: Seq<Seq<T>>) -> bool {
    &&& after.len() == if blocks.len() == 1 {
        1
    } else {
        blocks.len() - 1
    }
    &&& blocks.len() == 1 ==> after[0].len() == 0
    &&& forall|b: int| 0 <= b < blocks.len() - 1 ==> (#[trigger] after[b]) == blocks[b + 1]
}

/// Offsets are the numbers that they look like, up to the largest of their type.
pub proof fn law_offsets_are_numbers(a: i32, b: i64)
    ensures
        a.val() == a,
        b.val() == b,
        <i32 as OffsetSize>::max_offset() == 0x7fff_ffff,
        <i64 as OffsetSize>::max_offset() == 0x7fff_ffff_ffff_ffff,
{
}

/// Offsets of items of given lengths: the first is zero, and each lies as far behind the one before
/// it as its item is long. The last one is the sum of the lengths.
pub proof fn law_offsets_of_lengths<O: OffsetSize>(offsets: Seq<O>, lengths: Seq<int>)
    requires
        is_offsets_of(offsets, lengths),
    ensures
        offsets.len() == lengths.len() + 1,
        offsets[0].val() == 0,
        forall|i: int|
            0 <= i < lengths.len() ==> offsets[i + 1].val() - offsets[i].val()
                == #[trigger] lengths[i],
        forall|i: int| 0 <= i < lengths.len() ==> 0 <= #[trigger] lengths[i],
        offsets.last().val() == total(lengths),
{
    lemma_valid_offsets(offsets);
    assert(lengths_of(offsets).len() == lengths.len());
}

/// Numbers are offsets of the lengths between them if they start at zero and never decrease.
pub proof fn law_lengths_of_offsets<O: OffsetSize>(offsets: Seq<O>)
    requires
        offsets.len() > 0,
    ensures
        lengths_of(offsets).len() == offsets.len() - 1,
        forall|i: int|
            0 <= i < offsets.len() - 1 ==> (#[trigger] lengths_of(offsets)[i]) == offsets[i
                + 1].val() - offsets[i].val(),
        valid_offsets(offsets) <==> offsets[0].val() == 0 && forall|i: int, j: int|
            0 <= i <= j < offsets.len() ==> (#[trigger] offsets[i]).val() <= (
            #[trigger] offsets[j]).val(),
        valid_offsets(offsets) ==> is_offsets_of(offsets, lengths_of(offsets)),
{
}

/// The lengths that are added to a builder of offsets are there.
pub proof fn law_lengths_are_added<const FIXED_BLOCK_SIZING: bool, O: OffsetSize>(
    before: BlockedOffsetBufferBuilder<FIXED_BLOCK_SIZING, O>,
    lengths: Seq<int>,
    after: BlockedOffsetBufferBuilder<FIXED_BLOCK_SIZING, O>,
)
    requires
        before.wf(),
        before.lengthened(lengths, &after),
    ensures
        after.cap() == before.cap(),
        are_added(FIXED_BLOCK_SIZING, before.cap(), before.lengths(), lengths, after.lengths()),
        lengths.len() > 0 ==> after.pending() == (FIXED_BLOCK_SIZING && (
        before.lengths().last().len() + lengths.len()) % before.cap() == 0),
{
    before.lemma_wf();
    law_added_items_are_there(FIXED_BLOCK_SIZING, before.cap(), before.lengths(), lengths);
    if FIXED_BLOCK_SIZING {
        law_places_of_added_items(
            before.cap(),
            before.lengths(),
            lengths,
        );
    }
}

/// The lengths between offsets that are added to a builder are there.
pub proof fn law_lengths_between_offsets_are_added<
    const FIXED_BLOCK_SIZING: bool,
    O: OffsetSize,
>(
    before: BlockedOffsetBufferBuilder<FIXED_BLOCK_SIZING, O>,
    offsets: Seq<O>,
    after: BlockedOffsetBufferBuilder<FIXED_BLOCK_SIZING, O>,
)
    requires
        before.wf(),
        offsets.len() > 0,
        before.extended_by_offsets(offsets, &after),
    ensures
        after.cap() == before.cap(),
        are_added(
            FIXED_BLOCK_SIZING,
            before.cap(),
            before.lengths(),
            Seq::new(
                (offsets.len() - 1) as nat,
                |i: int| offsets[i + 1].val() - offsets[i].val(),
            ),
            after.lengths(),
        ),
        after.pending() <==> FIXED_BLOCK_SIZING && if offsets.len() == 1 {
            before.pending()
        } else {
            (before.lengths().last().len() + offsets.len() - 1) % before.cap() as int == 0
        },
{
    law_lengths_are_added(before, lengths_of(offsets), after);
    assert(lengths_of(offsets) =~= Seq::new(
        (offsets.len() - 1) as nat,
        |i: int| offsets[i + 1].val() - offsets[i].val(),
    ));
}

/// Lengths that are picked out, repeated, or given as they are.
pub proof fn law_given_lengths<O: OffsetSize>(
    offsets: Seq<O>,
    indexes: Seq<usize>,
    length: int,
    n: nat,
    i: int,
)
    ensures
        lengths_at(offsets, indexes).len() == indexes.len(),
        0 <= i < indexes.len() ==> lengths_at(offsets, indexes)[i] == offsets[indexes[i] + 1].val()
            - offsets[indexes[i] as int].val(),
        repeated(length, n).len() == n,
        0 <= i < n ==> repeated(length, n)[i] == length,
        as_ints(indexes).len() == indexes.len(),
        0 <= i < indexes.len() ==> as_ints(indexes)[i] == indexes[i],
{
}

/// Taking a block of offsets gives those of the items of the first block, which is then gone. There
/// is none to take if the only block is empty and pending.
pub proof fn law_offsets_are_taken<const FIXED_BLOCK_SIZING: bool, O: OffsetSize>(
    before: BlockedOffsetBufferBuilder<FIXED_BLOCK_SIZING, O>,
    taken: Option<Seq<O>>,
    after: BlockedOffsetBufferBuilder<FIXED_BLOCK_SIZING, O>,
)
    requires
        before.wf(),
        before.took_block(taken, &after),
    ensures
        taken is None <==> before.pending() && before.lengths().len() == 1,
        taken is None ==> after == before,
        taken is Some ==> {
            &&& lacks_first_block(before.lengths(), after.lengths())
            &&& after.cap() == before.cap()
            &&& after.pending() == (before.pending() || before.lengths().len() == 1)
            &&& taken->0.len() == before.lengths()[0].len() + 1
            &&& taken->0[0].val() == 0
            &&& forall|i: int|
                0 <= i < before.lengths()[0].len() ==> taken->0[i + 1].val() - taken->0[i].val()
                    == #[trigger] before.lengths()[0][i]
        },
{
    before.lemma_wf();
    if taken is Some {
        law_offsets_of_lengths(taken->0, before.lengths()[0]);
    }
}

/// Once the first `n` lengths are taken from blocks of a fixed size, each of the others is `n` places
/// further to the front.
pub proof fn law_lengths_move_up<const FIXED_BLOCK_SIZING: bool, O: OffsetSize>(
    before: BlockedOffsetBufferBuilder<FIXED_BLOCK_SIZING, O>,
    n: nat,
    after: BlockedOffsetBufferBuilder<FIXED_BLOCK_SIZING, O>,
)
    requires
        before.cap() > 0,
        n <= before.items().len(),
        before.taken_n_fixed(n, &after),
    ensures
        after.cap() == before.cap(),
        after.lengths().len() == (before.items().len() - n) / before.cap() as int + 1,
        forall|k: int|
            n <= k < before.items().len() ==> is_in_block(
                after.lengths(),
                (k - n) / before.cap() as int,
                (k - n) % before.cap() as int,
                #[trigger] before.items()[k],
            ),
        0 < n < before.items().len() && n != before.cap() ==> after.pending() == ((
        before.items().len() - n) % before.cap() as int == 0),
        n == 0 < before.items().len() ==> after.pending() == before.pending(),
        n == before.items().len() || n == before.cap() ==> after.pending() == (before.pending()
            || before.lengths().len() == 1),
{
    let left = before.items().skip(n as int);
    law_cut_items_by_number(left, before.cap());
    assert forall|k: int| n <= k < before.items().len() implies is_in_block(
        after.lengths(),
        (k - n) / before.cap() as int,
        (k - n) % before.cap() as int,
        #[trigger] before.items()[k],
    ) by {
        lemma_cut_at(left, before.cap(), k - n);
        assert(left[k - n] == before.items()[k]);
    }
}

/// Once the first `n` lengths are taken from blocks without a fixed size, the others are in blocks of
/// the sizes that were asked for, in order.
pub proof fn law_lengths_are_split_anew<const FIXED_BLOCK_SIZING: bool, O: OffsetSize>(
    before: BlockedOffsetBufferBuilder<FIXED_BLOCK_SIZING, O>,
    n: nat,
    sizes: Seq<usize>,
    after: BlockedOffsetBufferBuilder<FIXED_BLOCK_SIZING, O>,
)
    requires
        before.wf(),
        before.can_take_n_dynamic(n, sizes),
        before.lengths().len() > 1 || n < before.lengths()[0].len(),
        before.taken_n_dynamic(n, sizes, &after),
    ensures
        after.cap() == before.cap(),
        after.lengths().len() == sizes.len(),
        forall|b: int| 0 <= b < sizes.len() ==> (#[trigger] after.lengths()[b]).len() == sizes[b],
        concat(after.lengths()) == concat(before.lengths()).skip(n as int),
        after.pending() <==> before.pending() && (n == 0 || n == before.lengths()[0].len()),
{
    before.lemma_wf();
    law_places_after_taking(before.lengths(), n, sizes);
    lemma_after_take_n(before.lengths(), n, sizes);
}

/// The bytes that are added are behind those of the last block.
pub proof fn law_bytes_are_added(
    before: BlockedBytesBufferBuilder,
    bytes: Seq<u8>,
    after: BlockedBytesBufferBuilder,
)
    requires
        before.wf(),
        before.added(bytes, &after),
    ensures
        are_added(false, 0, before.blocks(), bytes, after.blocks()),
        after.bytes().len() == before.bytes().len() + bytes.len(),
{
    before.lemma_wf();
    law_added_items_are_there(false, 0, before.blocks(), bytes);
}

/// The bytes of picked items: of none, of one, and of two stretches.
pub proof fn law_bytes_of_picked_items<O: OffsetSize>(
    bytes: Seq<u8>,
    offsets: Seq<O>,
    a: Seq<usize>,
    index: usize,
    b: Seq<usize>,
)
    ensures
        bytes_at(bytes, offsets, Seq::<usize>::empty()) == Seq::<u8>::empty(),
        bytes_at(bytes, offsets, seq![index]) == bytes.subrange(
            offsets[index as int].val(),
            offsets[index + 1].val(),
        ),
        bytes_at(bytes, offsets, a + b) == bytes_at(bytes, offsets, a) + bytes_at(
            bytes,
            offsets,
            b,
        ),
    decreases b.len(),
{
    let one = seq![index];
    assert(one.drop_last() =~= Seq::<usize>::empty());
    assert(bytes_at(bytes, offsets, one.drop_last()) == Seq::<u8>::empty());
    assert(bytes_at(bytes, offsets, one) =~= bytes.subrange(
        offsets[index as int].val(),
        offsets[index + 1].val(),
    ));
    if b.len() == 0 {
        assert(a + b =~= a);
        assert(bytes_at(bytes, offsets, a) + bytes_at(bytes, offsets, b) =~= bytes_at(
            bytes,
            offsets,
            a,
        ));
    } else {
        assert((a + b).drop_last() =~= a + b.drop_last());
        law_bytes_of_picked_items(bytes, offsets, a, index, b.drop_last());
        assert(bytes_at(bytes, offsets, a + b) =~= bytes_at(bytes, offsets, a) + bytes_at(
            bytes,
            offsets,
            b,
        ));
    }
}

/// The bytes of slices, each as it is.
pub proof fn law_bytes_of_slices(parts: Seq<&[u8]>, i: int)
    requires
        0 <= i < parts.len(),
    ensures
        slices(parts).len() == parts.len(),
        slices(parts)[i] == parts[i]@,
{
}

/// The first block of bytes is gone once it is taken.
pub proof fn law_bytes_are_taken(
    before: BlockedBytesBufferBuilder,
    after: BlockedBytesBufferBuilder,
)
    requires
        before.wf(),
        before.without_first_block(&after),
    ensures
        lacks_first_block(before.blocks(), after.blocks()),
{
    before.lemma_wf();
}

/// The values that are added to a builder of booleans are there.
pub proof fn law_booleans_are_added<const FIXED_BLOCK_SIZING: bool>(
    before: BlockedBooleanBuilder<FIXED_BLOCK_SIZING>,
    values: Seq<bool>,
    after: BlockedBooleanBuilder<FIXED_BLOCK_SIZING>,
)
    requires
        before.wf(),
        before.added(values, &after),
    ensures
        after.cap() == before.cap(),
        are_added(FIXED_BLOCK_SIZING, before.cap(), before.blocks(), values, after.blocks()),
{
    before.lemma_wf();
    law_added_items_are_there(FIXED_BLOCK_SIZING, before.cap(), before.blocks(), values);
}

/// The first block of booleans is gone once it is taken.
pub proof fn law_booleans_are_taken<const FIXED_BLOCK_SIZING: bool>(
    before: BlockedBooleanBuilder<FIXED_BLOCK_SIZING>,
    after: BlockedBooleanBuilder<FIXED_BLOCK_SIZING>,
)
    requires
        before.wf(),
        before.without_first_block(&after),
    ensures
        after.cap() == before.cap(),
        lacks_first_block(before.blocks(), after.blocks()),
{
    before.lemma_wf();
}

/// The items that are added to a builder of nulls are there, and are counted.
pub proof fn law_nulls_are_added<const FIXED_BLOCK_SIZING: bool>(
    before: BlockedNullsBuilder<FIXED_BLOCK_SIZING>,
    items: Seq<bool>,
    after: BlockedNullsBuilder<FIXED_BLOCK_SIZING>,
)
    requires
        before.wf(),
        before.added(items, &after),
    ensures
        after.cap() == before.cap(),
        are_added(FIXED_BLOCK_SIZING, before.cap(), before.blocks(), items, after.blocks()),
        before.counted() + items.len() <= usize::MAX ==> after.counted() == before.counted()
            + items.len(),
        before.counted() + items.len() > usize::MAX ==> after.counted() == usize::MAX,
{
    before.lemma_wf();
    law_added_items_are_there(FIXED_BLOCK_SIZING, before.cap(), before.blocks(), items);
}

/// The first block of nulls is gone once it is taken.
pub proof fn law_nulls_are_taken<const FIXED_BLOCK_SIZING: bool>(
    before: BlockedNullsBuilder<FIXED_BLOCK_SIZING>,
    after: BlockedNullsBuilder<FIXED_BLOCK_SIZING>,
)
    requires
        before.wf(),
        before.without_first_block(&after),
    ensures
        after.cap() == before.cap(),
        lacks_first_block(before.blocks(), after.blocks()),
{
    before.lemma_wf();
}

/// The validity of picked items, and of items that are all alike.
pub proof fn law_given_validity(items: Seq<bool>, indexes: Seq<usize>, bit: bool, n: nat, i: int)
    ensures
        validity_at(items, indexes).len() == indexes.len(),
        0 <= i < indexes.len() ==> validity_at(items, indexes)[i] == items[indexes[i] as int],
        same_bits(bit, n).len() == n,
        0 <= i < n ==> same_bits(bit, n)[i] == bit,
{
}

/// How many items are null: of none, of one, and of two stretches.
pub proof fn law_number_of_nulls(a: Seq<bool>, is_valid: bool, b: Seq<bool>)
    ensures
        count_nulls(Seq::<bool>::empty()) == 0,
        count_nulls(seq![is_valid]) == if is_valid {
            0nat
        } else {
            1
        },
        count_nulls(a + b) == count_nulls(a) + count_nulls(b),
    decreases b.len(),
{
    assert(seq![is_valid].drop_last() =~= Seq::<bool>::empty());
    reveal_with_fuel(count_nulls, 2);
    if b.len() == 0 {
        assert(a + b =~= a);
    } else {
        assert((a + b).drop_last() =~= a + b.drop_last());
        law_number_of_nulls(a, is_valid, b.drop_last());
    }
}

/// There is a null buffer exactly if an item is null, and it says which.
pub proof fn law_null_buffer(buffer: Option<NullBuffer>, valid: Seq<bool>)
    requires
        is_null_buffer_of(buffer, valid),
    ensures
        buffer is None <==> forall|i: int| 0 <= i < valid.len() ==> #[trigger] valid[i],
        buffer is Some ==> validity(buffer->0) == valid,
{
    lemma_some_null(valid);
}

/// There is no null exactly if all items are valid.
proof fn lemma_some_null(valid: Seq<bool>)
    ensures
        count_nulls(valid) == 0 <==> forall|i: int| 0 <= i < valid.len() ==> #[trigger] valid[i],
    decreases valid.len(),
{
    if valid.len() > 0 {
        let init = valid.drop_last();
        lemma_some_null(init);
        if count_nulls(valid) == 0 {
            assert forall|i: int| 0 <= i < valid.len() implies #[trigger] valid[i] by {
                if i < init.len() {
                    assert(init[i]);
                }
            }
        }
        if forall|i: int| 0 <= i < valid.len() ==> #[trigger] valid[i] {
            assert forall|i: int| 0 <= i < init.len() implies #[trigger] init[i] by {
                assert(valid[i]);
            }
            assert(valid[valid.len() - 1]);
        }
    }
}

/// The items that are added to a builder are there.
pub proof fn law_items_are_added<const FIXED_BLOCK_SIZING: bool, P: BlockProvider>(
    before: BlockedCustomInputBuilder<FIXED_BLOCK_SIZING, P>,
    items: Seq<<P::Block as Block>::Item>,
    after: BlockedCustomInputBuilder<FIXED_BLOCK_SIZING, P>,
)
    requires
        before.wf(),
        before.added(items, &after),
    ensures
        after.cap() == before.cap(),
        after.provider() == before.provider(),
        are_added(FIXED_BLOCK_SIZING, before.cap(), before.blocks(), items, after.blocks()),
        FIXED_BLOCK_SIZING ==> after.blocks().last().len() == (before.blocks().last().len()
            + items.len()) % before.cap(),
{
    before.lemma_wf();
    law_added_items_are_there(FIXED_BLOCK_SIZING, before.cap(), before.blocks(), items);
    if FIXED_BLOCK_SIZING {
        law_places_of_added_items(before.cap(), before.blocks(), items);
    }
}

/// The item that is pushed is there, and the last block is pending exactly if the item filled the
/// one before.
pub proof fn law_item_is_pushed<const FIXED_BLOCK_SIZING: bool, P: BlockProvider>(
    before: BlockedCustomInputBuilder<FIXED_BLOCK_SIZING, P>,
    item: <P::Block as Block>::Item,
    after: BlockedCustomInputBuilder<FIXED_BLOCK_SIZING, P>,
)
    requires
        before.wf(),
        before.pushed(item, &after),
    ensures
        after.cap() == before.cap(),
        are_added(FIXED_BLOCK_SIZING, before.cap(), before.blocks(), seq![item], after.blocks()),
        after.pending() <==> FIXED_BLOCK_SIZING && before.blocks().last().len() == before.cap() - 1,
{
    law_items_are_added(before, seq![item], after);
}

/// The items of a slice that are added are there, as many and in order, each as the blocks store it.
pub proof fn law_slice_is_added<const FIXED_BLOCK_SIZING: bool, P: BlockProvider>(
    before: BlockedCustomInputBuilder<FIXED_BLOCK_SIZING, P>,
    slice: Seq<<P::Block as Block>::Item>,
    after: BlockedCustomInputBuilder<FIXED_BLOCK_SIZING, P>,
) -> (items: Seq<<P::Block as Block>::Item>) where P::Block: BlockWithSlice
    requires
        before.wf(),
        before.added_slice(slice, &after),
    ensures
        items.len() == slice.len(),
        forall|i: int|
            0 <= i < slice.len() ==> <P::Block as BlockWithSlice>::stores(
                #[trigger] slice[i],
                items[i],
            ),
        after.cap() == before.cap(),
        are_added(FIXED_BLOCK_SIZING, before.cap(), before.blocks(), items, after.blocks()),
        after.pending() <==> if slice.len() == 0 {
            before.pending()
        } else {
            FIXED_BLOCK_SIZING && (before.blocks().last().len() + slice.len()) % before.cap() == 0
        },
{
    let items = choose|items: Seq<<P::Block as Block>::Item>| #[trigger]
        stored::<P::Block>(slice, items) && before.added(items, &after);
    law_items_are_added(before, items, after);
    items
}

/// A value that is added `n` times is there `n` times, each time as the blocks store the value or a
/// clone of it.
pub proof fn law_value_is_added_n_times<const FIXED_BLOCK_SIZING: bool, P: BlockProvider>(
    before: BlockedCustomInputBuilder<FIXED_BLOCK_SIZING, P>,
    value: <P::Block as Block>::Item,
    n: nat,
    after: BlockedCustomInputBuilder<FIXED_BLOCK_SIZING, P>,
) -> (items: Seq<<P::Block as Block>::Item>) where
    P::Block: BlockWithSlice,
    <P::Block as Block>::Item: Clone,

    requires
        before.wf(),
        before.added_n(value, n, &after),
    ensures
        items.len() == n,
        forall|i: int|
            0 <= i < n ==> stores_clone::<P::Block>(value, #[trigger] items[i]),
        after.cap() == before.cap(),
        are_added(FIXED_BLOCK_SIZING, before.cap(), before.blocks(), items, after.blocks()),
        after.pending() <==> FIXED_BLOCK_SIZING && if n == 0 {
            before.pending()
        } else {
            (before.blocks().last().len() + n) % before.cap() == 0
        },
{
    let items = choose|items: Seq<<P::Block as Block>::Item>|
        {
            &&& items.len() == n
            &&& #[trigger] stored_clones::<P::Block>(value, items)
            &&& before.added(items, &after)
        };
    law_items_are_added(before, items, after);
    items
}

/// What is stored of a value is what is stored of a clone of it.
pub proof fn law_clones_are_stored<B: BlockWithSlice>(value: B::Item, kept: B::Item) where
    B::Item: Clone,

    ensures
        stores_clone::<B>(value, kept) <==> exists|copy: B::Item| #[trigger]
            cloned(value, copy) && B::stores(copy, kept),
{
}

/// A vector as a block has its items, and stores clones of the items of slices.
pub proof fn law_vector_is_a_block<T: Clone>(block: Vec<T>, given: T, kept: T)
    ensures
        <Vec<T> as Block>::items(&block) == block@,
        <Vec<T> as BlockWithSlice>::stores(given, kept) <==> cloned(given, kept),
{
}

/// Taking a block gives the items of the first one, which is then gone. There is none to take if the
/// only block is empty and pending.
pub proof fn law_block_is_taken<const FIXED_BLOCK_SIZING: bool, P: BlockProvider>(
    before: BlockedCustomInputBuilder<FIXED_BLOCK_SIZING, P>,
    taken: Option<P::Block>,
    after: BlockedCustomInputBuilder<FIXED_BLOCK_SIZING, P>,
)
    requires
        before.wf(),
        before.took_block(taken, &after),
    ensures
        taken is None <==> before.pending() && before.blocks().len() == 1,
        taken is None ==> after == before,
        taken is Some ==> {
            &&& taken->0.items() == before.blocks()[0]
            &&& lacks_first_block(before.blocks(), after.blocks())
            &&& after.cap() == before.cap()
            &&& after.provider() == before.provider()
            &&& after.pending() == (before.pending() || before.blocks().len() == 1)
        },
{
    before.lemma_wf();
}

/// A vector that is finished has the items that it had.
pub proof fn law_vector_is_finished<T>(finished: Vec<T>, items: Seq<T>)
    ensures
        <VecBlockProvider<T> as BlockProviderFinish>::is_finished(finished, items) <==> finished@
            == items,
{
}

/// There is an item at a position of the blocks.
pub open spec fn is_position<T>(blocks: Seq<Seq<T>>, index: BlocksIndex) -> bool {
    index.block_index < blocks.len() && index.index_in_block
        < blocks[index.block_index as int].len()
}

/// The items of builders are those of their blocks, and they have a position exactly if there is an
/// item in a block.
pub proof fn law_items_of_builders<const FIXED_BLOCK_SIZING: bool, O: OffsetSize, P: BlockProvider>(
    offsets: BlockedOffsetBufferBuilder<FIXED_BLOCK_SIZING, O>,
    bytes: BlockedBytesBufferBuilder,
    booleans: BlockedBooleanBuilder<FIXED_BLOCK_SIZING>,
    nulls: BlockedNullsBuilder<FIXED_BLOCK_SIZING>,
    items: BlockedCustomInputBuilder<FIXED_BLOCK_SIZING, P>,
    index: BlocksIndex,
)
    ensures
        offsets.items() == concat(offsets.lengths()),
        bytes.bytes() == concat(bytes.blocks()),
        booleans.values() == concat(booleans.blocks()),
        nulls.items() == concat(nulls.blocks()),
        items.items() == concat(items.blocks()),
        booleans.has(index) <==> is_position(booleans.blocks(), index),
        nulls.has(index) <==> is_position(nulls.blocks(), index),
        items.has(index) <==> is_position(items.blocks(), index),
        offsets.has_block() <==> !offsets.pending() || offsets.lengths().len() > 1,
        items.has_block() <==> !items.pending() || items.blocks().len() > 1,
{
}

/// The bytes that the items of each block take: the size of the type for each offset, of which there
/// is one more than there are items; one for each byte; one bit for each boolean, in whole bytes; the
/// size of the type for each item of a vector.
pub proof fn law_bytes_in_blocks<O: OffsetSize, T>(
    lengths: Seq<Seq<int>>,
    bytes: Seq<Seq<u8>>,
    booleans: Seq<Seq<bool>>,
    items: Seq<Seq<T>>,
    b: int,
)
    ensures
        used_bytes::<OffsetBlock<O>>(lengths).len() == lengths.len(),
        0 <= b < lengths.len() ==> used_bytes::<OffsetBlock<O>>(lengths)[b] == size_of::<O>() * (
        lengths[b].len() + 1),
        used_bytes::<Vec<u8>>(bytes).len() == bytes.len(),
        0 <= b < bytes.len() ==> used_bytes::<Vec<u8>>(bytes)[b] == bytes[b].len(),
        used_bytes::<BooleanBufferBuilder>(booleans).len() == booleans.len(),
        0 <= b < booleans.len() ==> booleans[b].len() <= used_bytes::<BooleanBufferBuilder>(
            booleans,
        )[b] * 8 < booleans[b].len() + 8,
        bytes_in_blocks::<Vec<T>>(items).len() == items.len(),
        0 <= b < items.len() ==> bytes_in_blocks::<Vec<T>>(items)[b] == size_of::<T>()
            * items[b].len(),
{
}

/// The bits of a byte are its digits to the base of two, the lowest first, and the bits of bytes are
/// those of the first byte, then those of the next one, and so on.
pub proof fn law_bits_of_bytes(bytes: Seq<u8>, byte: u8, from: int, to: int, i: int)
    requires
        0 <= from <= to,
        0 <= i < to - from,
    ensures
        byte_bit(byte, 0) <==> byte % 2 == 1,
        byte_bit(byte, 1) <==> (byte / 2) % 2 == 1,
        byte_bit(byte, 2) <==> (byte / 4) % 2 == 1,
        byte_bit(byte, 3) <==> (byte / 8) % 2 == 1,
        byte_bit(byte, 4) <==> (byte / 16) % 2 == 1,
        byte_bit(byte, 5) <==> (byte / 32) % 2 == 1,
        byte_bit(byte, 6) <==> (byte / 64) % 2 == 1,
        byte_bit(byte, 7) <==> byte / 128 == 1,
        bits_in(bytes, from, to).len() == to - from,
        bits_in(bytes, from, to)[i] == bit_at(bytes, from + i),
        bit_at(bytes, from + i) == byte_bit(bytes[(from + i) / 8], (from + i) % 8),
{
    assert((byte >> 0u8) & 1 == byte % 2 && (byte >> 1u8) & 1 == (byte / 2) % 2 && (byte >> 2u8)
        & 1 == (byte / 4) % 2 && (byte >> 3u8) & 1 == (byte / 8) % 2 && (byte >> 4u8) & 1 == (
    byte / 16) % 2 && (byte >> 5u8) & 1 == (byte / 32) % 2 && (byte >> 6u8) & 1 == (byte / 64) % 2
        && (byte >> 7u8) & 1 == byte / 128) by (bit_vector);
}

/// The bits in a builder are the first ones of its bytes.
pub proof fn law_built_bits(builder: BooleanBufferBuilder, i: int)
    requires
        0 <= i < built_bits(builder).len(),
    ensures
        built_bits(builder).len() == bit_len(builder),
        built_bits(builder)[i] == bit_at(packed_bytes(builder), i),
{
}

} // verus!
