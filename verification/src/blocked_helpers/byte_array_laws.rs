//! What the builder of byte strings does with the strings that it is given, string by string.

use crate::arrow_buffers::{buffer_bytes, count_nulls, same_bits, validity};
use crate::blocked_helpers::blocked_byte_array_builder::{
    bytes_of_blocks, bytes_of_item, bytes_of_items, cut, lemma_cut_again, lens, no_bytes,
    offsets_bytes, validity_of_items, BlockedByteArrayBuilder, ByteBlock, ByteColumn,
};
use crate::blocked_helpers::blocked_nulls_builder::bitmaps_bytes;
use crate::blocked_helpers::item_laws::{
    is_position, lacks_first_block, law_null_buffer, law_offsets_of_lengths,
};
use crate::blocked_helpers::layout::concat;
use crate::blocked_helpers::layout_laws::{
    are_added, is_in_block, law_added_items_are_there, law_places_of_added_items,
};
use crate::blocked_helpers::offset_size::{
    lemma_offset_is_total, lemma_valid_offsets, valid_offsets, OffsetSize,
};
use crate::groups_accumulator::BlocksIndex;
use vstd::arithmetic::div_mod::lemma_fundamental_div_mod_converse;
use vstd::prelude::*;

verus! {

/// Between `before` and `after`, strings were added, each with all its bytes, and whether each is
/// valid. Everything else is where it was.
pub open spec fn has_strings_added<const FIXED_BLOCK_SIZING: bool, O: OffsetSize>(
    before: BlockedByteArrayBuilder<FIXED_BLOCK_SIZING, O>,
    strings: Seq<Seq<u8>>,
    valid: Seq<bool>,
    after: BlockedByteArrayBuilder<FIXED_BLOCK_SIZING, O>,
) -> bool {
    &&& after.cap() == before.cap()
    &&& are_added(FIXED_BLOCK_SIZING, before.cap(), before.values(), strings, after.values())
    &&& are_added(FIXED_BLOCK_SIZING, before.cap(), before.valid(), valid, after.valid())
    &&& strings.len() > 0 ==> (after.pending() <==> FIXED_BLOCK_SIZING && (
    before.values().last().len() + strings.len()) % before.cap() == 0)
}

proof fn lemma_strings_added<const FIXED_BLOCK_SIZING: bool, O: OffsetSize>(
    before: BlockedByteArrayBuilder<FIXED_BLOCK_SIZING, O>,
    strings: Seq<Seq<u8>>,
    valid: Seq<bool>,
    after: BlockedByteArrayBuilder<FIXED_BLOCK_SIZING, O>,
)
    requires
        before.wf(),
        before.added_values(strings, &after),
        after.valid() == before.valid_with(valid),
    ensures
        has_strings_added(before, strings, valid, after),
{
    before.lemma_wf();
    law_added_items_are_there(FIXED_BLOCK_SIZING, before.cap(), before.values(), strings);
    law_added_items_are_there(FIXED_BLOCK_SIZING, before.cap(), before.valid(), valid);
    if FIXED_BLOCK_SIZING {
        law_places_of_added_items(before.cap(), before.values(), strings);
    }
}

/// A string that is pushed is behind the last item, valid, with all its bytes. A null is there
/// without bytes, and not valid.
pub proof fn law_pushed_string_is_there<const FIXED_BLOCK_SIZING: bool, O: OffsetSize>(
    before: BlockedByteArrayBuilder<FIXED_BLOCK_SIZING, O>,
    item: Option<&[u8]>,
    after: BlockedByteArrayBuilder<FIXED_BLOCK_SIZING, O>,
)
    requires
        before.wf(),
        before.pushed(bytes_of_item(item), item is Some, &after),
    ensures
        item matches Some(bytes) ==> {
            &&& has_strings_added(before, seq![bytes@], seq![true], after)
            &&& is_in_block(
                after.values(),
                before.values().len() - 1,
                before.values().last().len() as int,
                bytes@,
            )
            &&& is_in_block(
                after.valid(),
                before.valid().len() - 1,
                before.valid().last().len() as int,
                true,
            )
        },
        item is None ==> has_strings_added(before, seq![Seq::<u8>::empty()], seq![false], after),
{
    before.lemma_wf();
    let bytes = bytes_of_item(item);
    lemma_strings_added(before, seq![bytes], seq![item is Some], after);
    assert(seq![bytes][0] == bytes);
    assert(seq![item is Some][0] == (item is Some));
    let used = before.values().last().len() as int;
    let used_valid = before.valid().last().len() as int;
    if FIXED_BLOCK_SIZING {
        let cap = before.cap() as int;
        lemma_fundamental_div_mod_converse(used, cap, 0, used);
        lemma_fundamental_div_mod_converse(
            used_valid,
            cap,
            0,
            used_valid,
        );
    }
}

/// A null that is pushed is there without bytes, and not valid.
pub proof fn law_pushed_null_is_there<const FIXED_BLOCK_SIZING: bool, O: OffsetSize>(
    before: BlockedByteArrayBuilder<FIXED_BLOCK_SIZING, O>,
    after: BlockedByteArrayBuilder<FIXED_BLOCK_SIZING, O>,
)
    requires
        before.wf(),
        before.pushed(Seq::<u8>::empty(), false, &after),
    ensures
        has_strings_added(before, seq![Seq::<u8>::empty()], seq![false], after),
{
    lemma_strings_added(before, seq![Seq::<u8>::empty()], seq![false], after);
}

/// Strings and nulls that are added to a block are there, each string with all its bytes.
pub proof fn law_strings_are_added<const FIXED_BLOCK_SIZING: bool, O: OffsetSize>(
    before: BlockedByteArrayBuilder<FIXED_BLOCK_SIZING, O>,
    items: Seq<Option<&[u8]>>,
    after: BlockedByteArrayBuilder<FIXED_BLOCK_SIZING, O>,
)
    requires
        before.wf(),
        before.added_values(bytes_of_items(items), &after),
        after.valid() == before.valid_with(validity_of_items(items)),
    ensures
        has_strings_added(
            before,
            Seq::new(
                items.len(),
                |k: int|
                    if items[k] is Some {
                        items[k]->0@
                    } else {
                        Seq::<u8>::empty()
                    },
            ),
            Seq::new(items.len(), |k: int| items[k] is Some),
            after,
        ),
{
    let strings = Seq::new(
        items.len(),
        |k: int|
            if items[k] is Some {
                items[k]->0@
            } else {
                Seq::<u8>::empty()
            },
    );
    assert(bytes_of_items(items) =~= strings);
    assert(validity_of_items(items) =~= Seq::new(items.len(), |k: int| items[k] is Some));
    lemma_strings_added(before, bytes_of_items(items), validity_of_items(items), after);
}

/// The rows of a column that are added are there: those that are valid with all bytes between their
/// offsets, nulls without bytes.
pub proof fn law_column_is_added<const FIXED_BLOCK_SIZING: bool, O: OffsetSize>(
    before: BlockedByteArrayBuilder<FIXED_BLOCK_SIZING, O>,
    column: ByteColumn<'_, O>,
    after: BlockedByteArrayBuilder<FIXED_BLOCK_SIZING, O>,
)
    requires
        before.wf(),
        column.wf(),
        before.extended(&column, &after),
    ensures
        has_strings_added(
            before,
            Seq::new(
                (column.offsets@.len() - 1) as nat,
                |i: int|
                    if column.nulls is None || validity(*column.nulls->0)[i] {
                        column.bytes@.subrange(
                            column.offsets@[i].val(),
                            column.offsets@[i + 1].val(),
                        )
                    } else {
                        Seq::<u8>::empty()
                    },
            ),
            Seq::new(
                (column.offsets@.len() - 1) as nat,
                |i: int| column.nulls is None || validity(*column.nulls->0)[i],
            ),
            after,
        ),
{
    let strings = Seq::new(
        (column.offsets@.len() - 1) as nat,
        |i: int|
            if column.nulls is None || validity(*column.nulls->0)[i] {
                column.bytes@.subrange(column.offsets@[i].val(), column.offsets@[i + 1].val())
            } else {
                Seq::<u8>::empty()
            },
    );
    let valid = Seq::new(
        (column.offsets@.len() - 1) as nat,
        |i: int| column.nulls is None || validity(*column.nulls->0)[i],
    );
    assert(column.valid() =~= valid);
    assert(column.values() =~= strings);
    lemma_strings_added(before, column.values(), column.valid(), after);
}

/// The bytes between the offsets of a row of a column, whether or not it is null.
pub proof fn law_bytes_of_a_row<O: OffsetSize>(column: ByteColumn<'_, O>, i: int)
    requires
        0 <= i < column.offsets@.len() - 1,
    ensures
        column.len() == column.offsets@.len() - 1,
        column.ranges().len() == column.offsets@.len() - 1,
        column.ranges()[i] == column.bytes@.subrange(
            column.offsets@[i].val(),
            column.offsets@[i + 1].val(),
        ),
{
}

/// Nulls that are added are there: `n` of them, without bytes, and not valid.
pub proof fn law_nulls_without_bytes<const FIXED_BLOCK_SIZING: bool, O: OffsetSize>(
    before: BlockedByteArrayBuilder<FIXED_BLOCK_SIZING, O>,
    n: nat,
    after: BlockedByteArrayBuilder<FIXED_BLOCK_SIZING, O>,
)
    requires
        before.wf(),
        before.added_values(no_bytes(n), &after),
        after.valid() == before.valid_with(same_bits(false, n)),
    ensures
        has_strings_added(
            before,
            Seq::new(n, |k: int| Seq::<u8>::empty()),
            Seq::new(n, |k: int| false),
            after,
        ),
{
    assert(no_bytes(n) =~= Seq::new(n, |k: int| Seq::<u8>::empty()));
    assert(same_bits(false, n) =~= Seq::new(n, |k: int| false));
    lemma_strings_added(before, no_bytes(n), same_bits(false, n), after);
}

/// A block that holds strings has the bytes of each between its offsets, which lie one behind the
/// other from the first byte up to the last, and says which of them are null. It has no null buffer
/// exactly if none is.
pub proof fn law_block_has_its_strings<O: OffsetSize>(
    block: ByteBlock<O>,
    strings: Seq<Seq<u8>>,
    valid: Seq<bool>,
)
    requires
        block.holds(strings, valid),
    ensures
        block.offsets@.len() == strings.len() + 1,
        block.offsets@[0].val() == 0,
        block.offsets@.last().val() == buffer_bytes(block.bytes).len(),
        forall|k: int|
            0 <= k < strings.len() ==> is_between(
                block.offsets@,
                buffer_bytes(block.bytes),
                k,
                #[trigger] strings[k],
            ),
        block.nulls is None <==> forall|k: int| 0 <= k < valid.len() ==> #[trigger] valid[k],
        block.nulls is Some ==> validity(block.nulls->0) == valid,
{
    let bytes = buffer_bytes(block.bytes);
    law_offsets_of_lengths(block.offsets@, lens(strings));
    law_null_buffer(block.nulls, valid);
    lemma_valid_offsets(block.offsets@);
    lemma_cut_again(strings);
    assert forall|k: int| 0 <= k < strings.len() implies is_between(
        block.offsets@,
        bytes,
        k,
        #[trigger] strings[k],
    ) by {
        lemma_offset_is_total(block.offsets@, k);
        lemma_offset_is_total(block.offsets@, k + 1);
        assert(cut(bytes, lens(strings))[k] == strings[k]);
        assert(block.offsets@[0].val() <= block.offsets@[k].val());
        assert(block.offsets@[k].val() <= block.offsets@[k + 1].val());
        assert(block.offsets@[k + 1].val() <= block.offsets@[strings.len() as int].val());
    }
}

/// The bytes between an offset and the next one are the string.
pub open spec fn is_between<O: OffsetSize>(
    offsets: Seq<O>,
    bytes: Seq<u8>,
    k: int,
    string: Seq<u8>,
) -> bool {
    &&& 0 <= offsets[k].val() <= offsets[k + 1].val() <= bytes.len()
    &&& bytes.subrange(offsets[k].val(), offsets[k + 1].val()) == string
}

/// The strings of a block are the bytes between its offsets.
pub proof fn law_strings_of_a_block<O: OffsetSize>(block: ByteBlock<O>, k: int)
    requires
        valid_offsets(block.offsets@),
        block.offsets@.last().val() <= buffer_bytes(block.bytes).len(),
        0 <= k < block.offsets@.len() - 1,
    ensures
        block.items().len() == block.offsets@.len() - 1,
        is_between(block.offsets@, buffer_bytes(block.bytes), k, block.items()[k]),
{
    lemma_valid_offsets(block.offsets@);
    lemma_offset_is_total(block.offsets@, k);
    lemma_offset_is_total(block.offsets@, k + 1);
    assert(block.offsets@[k].val() <= block.offsets@[k + 1].val());
    assert(block.offsets@[k + 1].val() <= block.offsets@[block.offsets@.len() - 1].val());
}

/// The first block is gone once it is taken.
pub proof fn law_strings_are_taken<const FIXED_BLOCK_SIZING: bool, O: OffsetSize>(
    before: BlockedByteArrayBuilder<FIXED_BLOCK_SIZING, O>,
    after: BlockedByteArrayBuilder<FIXED_BLOCK_SIZING, O>,
)
    requires
        before.wf(),
        before.in_sync(),
        before.without_first_block(&after),
    ensures
        after.cap() == before.cap(),
        lacks_first_block(before.values(), after.values()),
        lacks_first_block(before.valid(), after.valid()),
        after.pending() == (before.pending() || before.values().len() == 1),
{
    before.lemma_wf();
}

/// The bytes that a block takes: for its offsets, one more than there are strings; for its strings,
/// all their bytes; for its nulls, a bit for each string, in whole bytes, if there is a null.
pub proof fn law_bytes_of_a_block(
    offset_size: nat,
    strings: Seq<Seq<Seq<u8>>>,
    valid: Seq<Seq<bool>>,
    b: int,
)
    ensures
        offsets_bytes(offset_size, strings).len() == strings.len(),
        0 <= b < strings.len() ==> offsets_bytes(offset_size, strings)[b] == offset_size * (
        strings[b].len() + 1),
        bytes_of_blocks(strings).len() == strings.len(),
        0 <= b < strings.len() ==> bytes_of_blocks(strings)[b] == concat(strings[b]),
        bitmaps_bytes(valid).len() == valid.len(),
        0 <= b < valid.len() && count_nulls(valid[b]) == 0 ==> bitmaps_bytes(valid)[b] == 0,
        0 <= b < valid.len() && count_nulls(valid[b]) > 0 ==> bitmaps_bytes(valid)[b] * 8
            >= valid[b].len() > bitmaps_bytes(valid)[b] * 8 - 8,
{
    if 0 <= b < valid.len() && count_nulls(valid[b]) > 0 && valid[b].len() == 0 {
        assert(count_nulls(valid[b]) == 0);
    }
}

/// There is a block to take unless the only one is empty and pending. The builder has a position
/// where there is a string, or where it is known whether it is valid; it is in sync if these are the
/// same in every block.
pub proof fn law_what_there_is<const FIXED_BLOCK_SIZING: bool, O: OffsetSize>(
    builder: BlockedByteArrayBuilder<FIXED_BLOCK_SIZING, O>,
    index: BlocksIndex,
)
    requires
        builder.wf(),
    ensures
        builder.has_block() <==> !(builder.pending() && builder.values().len() == 1),
        builder.has(index) <==> is_position(builder.values(), index),
        builder.has_validity(index) <==> is_position(builder.valid(), index),
        builder.in_sync() <==> builder.values().len() == builder.valid().len() && forall|b: int|
            0 <= b < builder.values().len() ==> (#[trigger] builder.values()[b]).len()
                == builder.valid()[b].len(),
{
    builder.lemma_wf();
}

} // verus!
