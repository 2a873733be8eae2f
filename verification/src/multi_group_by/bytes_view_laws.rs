//! What the builder of byte strings behind views stores and compares, string by string.

use crate::arrow_buffers::{buffer_bytes, built_bits, validity};
use crate::blocked_helpers::item_laws::{is_position, law_null_buffer};
use crate::blocked_helpers::layout::{
    concat, lemma_appended_twice, lemma_appended_within, lemma_concat_push,
};
use crate::blocked_helpers::layout_laws::{are_added, law_added_items_are_there};
use crate::groups_accumulator::BlocksIndex;
use crate::multi_group_by::bytes_view::{
    buffered_len, buffered_total, bytes_of_buffers, has_buffered, lemma_buffered_add, with_row,
    with_rows, ByteViewBlock, ByteViewColumn, ByteViewGroupValueBuilder,
};
use crate::multi_group_by::view::{
    is_view_of, lemma_parts_of, lemma_string_of, lemma_view, little_endian, parts_of, string_of,
};
use arrow::array::BooleanBufferBuilder;
use vstd::prelude::*;

verus! {

/// The number that bytes stand for: each byte counts for 256 times as much as the one before.
pub proof fn law_number_of_bytes(byte: u8, bytes: Seq<u8>)
    ensures
        little_endian(Seq::empty()) == 0,
        little_endian(seq![byte] + bytes) == byte + 256 * little_endian(bytes),
{
    assert((seq![byte] + bytes).skip(1) =~= bytes);
}

/// The lowest 32 bits of a view are the length of its string. If that is at most 12, the others are
/// the string. Else they are its first four bytes, the index of a buffer, and the offset in it from
/// which on the string is there.
pub proof fn law_view_stands_for_its_string(
    view: u128,
    string: Seq<u8>,
    buffers: Seq<Seq<u8>>,
)
    requires
        is_view_of(view, string, buffers),
    ensures
        view % 0x1_0000_0000 == string.len(),
        string.len() <= 12 ==> view / 0x1_0000_0000 == little_endian(string),
        string.len() > 12 ==> {
            let index = view / 0x1_0000_0000 / 0x1_0000_0000 % 0x1_0000_0000;
            let offset = view / 0x1_0000_0000 / 0x1_0000_0000 / 0x1_0000_0000;
            &&& view / 0x1_0000_0000 % 0x1_0000_0000 == little_endian(string.take(4))
            &&& index < buffers.len()
            &&& offset + string.len() <= buffers[index as int].len()
            &&& buffers[index as int].subrange(offset as int, offset + string.len()) == string
        },
        string_of(view, buffers) == string,
{
    lemma_parts_of(view);
    lemma_view(view, string, buffers, parts_of(view));
    lemma_string_of(view, string, buffers);
}

/// A string of at most 12 bytes has the view that holds it, whatever the buffers are.
pub proof fn law_short_string_has_a_view(view: u128, string: Seq<u8>, buffers: Seq<Seq<u8>>)
    requires
        string.len() <= 12,
        view == string.len() + 0x1_0000_0000 * little_endian(string),
    ensures
        is_view_of(view, string, buffers),
{
}

/// The bytes of buffers, each as it is.
pub proof fn law_bytes_of_buffers(buffers: Seq<arrow::buffer::Buffer>, i: int)
    requires
        0 <= i < buffers.len(),
    ensures
        bytes_of_buffers(buffers).len() == buffers.len(),
        bytes_of_buffers(buffers)[i] == buffer_bytes(buffers[i]),
{
}

/// What a row of a column is: nothing where it is null, else the string that its view stands for.
pub open spec fn is_row_of(column: ByteViewColumn<'_>, row: int, value: Option<Seq<u8>>) -> bool {
    if column.nulls is Some && !validity(*column.nulls->0)[row] {
        value is None
    } else {
        value is Some && is_view_of(
            column.views@[row],
            value->0,
            Seq::new(column.buffers@.len(), |i: int| buffer_bytes(column.buffers@[i])),
        )
    }
}

/// A row of a column is nothing where it is null, else the string that its view stands for, and
/// nothing else.
pub proof fn law_row_of_views(column: ByteViewColumn<'_>, row: int, value: Option<Seq<u8>>)
    requires
        column.wf(),
        0 <= row < column.views@.len(),
    ensures
        is_row_of(column, row, value) <==> column.row(row) == value,
{
    let buffers = bytes_of_buffers(column.buffers@);
    assert(buffers =~= Seq::new(
        column.buffers@.len(),
        |i: int| buffer_bytes(column.buffers@[i]),
    ));
    let view = column.views@[row];
    if !column.is_null_at(row) {
        assert(is_view_of(view, string_of(view, buffers), buffers));
        if value is Some && is_view_of(view, value->0, buffers) {
            lemma_string_of(view, value->0, buffers);
        }
    }
}

/// The string at a position is the same as that of a row exactly if both are null, or if neither is
/// and they have the same bytes.
pub proof fn law_equal_strings<const FIXED_BLOCK_SIZING: bool>(
    builder: ByteViewGroupValueBuilder<FIXED_BLOCK_SIZING>,
    lhs_row: BlocksIndex,
    column: ByteViewColumn<'_>,
    rhs_row: int,
    equal: bool,
)
    requires
        column.wf(),
        0 <= rhs_row < column.views@.len(),
        equal == (builder.at(lhs_row) == column.row(rhs_row)),
    ensures
        equal <==> is_row_of(
            column,
            rhs_row,
            builder.rows()[lhs_row.block_index as int][lhs_row.index_in_block as int],
        ),
{
    law_row_of_views(column, rhs_row, builder.at(lhs_row));
}

/// When many positions and rows are compared, the bit of each pair stays set exactly if both are
/// null, or if neither is and they have the same bytes. The bits behind them stay as they are.
pub proof fn law_bits_of_equal_strings<const FIXED_BLOCK_SIZING: bool>(
    builder: ByteViewGroupValueBuilder<FIXED_BLOCK_SIZING>,
    lhs_rows: Seq<BlocksIndex>,
    column: ByteViewColumn<'_>,
    rhs_rows: Seq<usize>,
    before: BooleanBufferBuilder,
    after: BooleanBufferBuilder,
    i: int,
)
    requires
        column.wf(),
        builder.compared(lhs_rows, &column, rhs_rows, before, after),
        lhs_rows.len() == rhs_rows.len(),
        0 <= i < built_bits(before).len(),
        i < rhs_rows.len() ==> rhs_rows[i] < column.views@.len(),
    ensures
        built_bits(after).len() == built_bits(before).len(),
        i >= lhs_rows.len() ==> built_bits(after)[i] == built_bits(before)[i],
        i < lhs_rows.len() ==> (built_bits(after)[i] <==> built_bits(before)[i] && is_row_of(
            column,
            rhs_rows[i] as int,
            builder.rows()[lhs_rows[i].block_index as int][lhs_rows[i].index_in_block as int],
        )),
{
    if i < lhs_rows.len() {
        law_row_of_views(column, rhs_rows[i] as int, builder.at(lhs_rows[i]));
    }
}

/// The rows of a column that are added are there, each as it is in the column.
pub proof fn law_strings_are_stored<const FIXED_BLOCK_SIZING: bool>(
    before: ByteViewGroupValueBuilder<FIXED_BLOCK_SIZING>,
    column: ByteViewColumn<'_>,
    rows: Seq<usize>,
    after: ByteViewGroupValueBuilder<FIXED_BLOCK_SIZING>,
) -> (values: Seq<Option<Seq<u8>>>)
    requires
        before.wf(),
        column.wf(),
        forall|k: int| 0 <= k < rows.len() ==> (#[trigger] rows[k]) < column.views@.len(),
        before.added(column.rows(rows), &after),
    ensures
        values.len() == rows.len(),
        forall|k: int|
            0 <= k < rows.len() ==> is_row_of(column, rows[k] as int, #[trigger] values[k]),
        after.cap() == before.cap(),
        after.max_size() == before.max_size(),
        are_added(FIXED_BLOCK_SIZING, before.cap(), before.rows(), values, after.rows()),
        after.data_len() == before.data_len() + buffered_total(values),
{
    let values = column.rows(rows);
    assert forall|k: int| 0 <= k < rows.len() implies is_row_of(
        column,
        rows[k] as int,
        #[trigger] values[k],
    ) by {
        assert(rows[k] < column.views@.len());
        law_row_of_views(column, rows[k] as int, values[k]);
    }
    before.lemma_wf();
    law_added_items_are_there(FIXED_BLOCK_SIZING, before.cap(), before.rows(), values);
    values
}

/// The row that is added is there, alone.
pub proof fn law_string_is_stored<const FIXED_BLOCK_SIZING: bool>(
    before: ByteViewGroupValueBuilder<FIXED_BLOCK_SIZING>,
    column: ByteViewColumn<'_>,
    row: usize,
    after: ByteViewGroupValueBuilder<FIXED_BLOCK_SIZING>,
)
    requires
        before.added(seq![column.row(row as int)], &after),
    ensures
        before.added(column.rows(seq![row]), &after),
{
    assert(column.rows(seq![row]) =~= seq![column.row(row as int)]);
}

/// A row is written to the buffers of the block that it goes to: a string of more than 12 bytes
/// behind what is in the last buffer, or into a new one if that would grow too large; nothing else.
/// The buffers of the other blocks stay as they are. A block that is opened has one empty buffer.
pub proof fn law_row_goes_to_a_buffer<const FIXED_BLOCK_SIZING: bool>(
    before: ByteViewGroupValueBuilder<FIXED_BLOCK_SIZING>,
    row: Option<Seq<u8>>,
    after: ByteViewGroupValueBuilder<FIXED_BLOCK_SIZING>,
)
    requires
        before.wf(),
        before.added(seq![row], &after),
    ensures
        ({
            let n = before.rows().len() - 1;
            let old_buffers = before.data(n);
            let buffers = after.data(n);
            &&& forall|b: int| 0 <= b < n ==> #[trigger] after.data(b) == before.data(b)
            &&& (row is None || row->0.len() <= 12) ==> buffers == old_buffers
            &&& (row is Some && row->0.len() > 12) ==> if old_buffers.last().len() + row->0.len()
                <= before.max_size() {
                &&& buffers.len() == old_buffers.len()
                &&& buffers.drop_last() == old_buffers.drop_last()
                &&& buffers.last() == old_buffers.last() + row->0
            } else {
                &&& buffers.len() == old_buffers.len() + 1
                &&& buffers.drop_last() == old_buffers
                &&& buffers.last() == row->0
            }
            &&& after.rows().len() == n + 2 ==> {
                &&& after.data(n + 1).len() == 1
                &&& after.data(n + 1)[0].len() == 0
            }
        }),
{
    before.lemma_wf();
    let n = before.rows().len() - 1;
    let one = seq![row];
    assert(one.drop_last() =~= Seq::<Option<Seq<u8>>>::empty());
    assert(before.data_with(one.drop_last()) == before.data_of_blocks());
    lemma_appended_within(FIXED_BLOCK_SIZING, before.cap(), before.rows(), one);
    let data = before.data_of_blocks();
    let written = data.drop_last().push(with_row(data.last(), row, before.max_size()));
    assert(after.data_of_blocks()[n] == after.data(n));
    assert(data.last() == before.data(n));
    assert(before.data_with(one)[n] == written[n]);
    assert forall|b: int| 0 <= b < n implies #[trigger] after.data(b) == before.data(b) by {
        assert(after.data_of_blocks()[b] == after.data(b));
        assert(before.data_with(one)[b] == data[b]);
    }
    if after.rows().len() == n + 2 {
        assert(after.data_of_blocks()[n + 1] == after.data(n + 1));
    }
}

/// Adding rows and then one more is adding all of them.
pub proof fn law_rows_are_stored_one_by_one<const FIXED_BLOCK_SIZING: bool>(
    before: ByteViewGroupValueBuilder<FIXED_BLOCK_SIZING>,
    rows: Seq<Option<Seq<u8>>>,
    between: ByteViewGroupValueBuilder<FIXED_BLOCK_SIZING>,
    row: Option<Seq<u8>>,
    after: ByteViewGroupValueBuilder<FIXED_BLOCK_SIZING>,
)
    requires
        before.wf(),
        before.added(rows, &between),
        between.added(seq![row], &after),
    ensures
        before.added(rows.push(row), &after),
{
    before.lemma_wf();
    let one = seq![row];
    let all = rows.push(row);
    lemma_appended_twice(FIXED_BLOCK_SIZING, before.cap(), before.rows(), rows, one);
    assert(rows + one =~= all);
    assert(all.drop_last() =~= rows);
    assert(one.drop_last() =~= Seq::<Option<Seq<u8>>>::empty());
    law_bytes_in_buffers(rows, row, one);
    assert(between.data_with(one.drop_last()) == between.data_of_blocks());
}

/// The builder has a position exactly if there is a row in a block, and has the buffers of each
/// block.
pub proof fn law_positions_of_strings<const FIXED_BLOCK_SIZING: bool>(
    builder: ByteViewGroupValueBuilder<FIXED_BLOCK_SIZING>,
    index: BlocksIndex,
    b: int,
)
    ensures
        builder.has(index) <==> is_position(builder.rows(), index),
        builder.data_of_blocks().len() == builder.rows().len(),
        0 <= b < builder.rows().len() ==> builder.data_of_blocks()[b] == builder.data(b),
        builder.buffers() == concat(builder.data_of_blocks()),
{
}

/// The bytes that rows have in buffers: all those of a string of more than 12 bytes, none of other
/// rows.
pub proof fn law_bytes_in_buffers(
    a: Seq<Option<Seq<u8>>>,
    row: Option<Seq<u8>>,
    b: Seq<Option<Seq<u8>>>,
)
    ensures
        buffered_total(Seq::empty()) == 0,
        buffered_total(seq![row]) == if row is Some && row->0.len() > 12 {
            row->0.len()
        } else {
            0
        },
        buffered_total(a + b) == buffered_total(a) + buffered_total(b),
        buffered_len(row) == buffered_total(seq![row]),
{
    assert(seq![row].drop_last() =~= Seq::<Option<Seq<u8>>>::empty());
    reveal_with_fuel(buffered_total, 2);
    lemma_buffered_add(a, b);
}

/// Some row has bytes in a buffer exactly if it is a string of more than 12 bytes.
pub proof fn law_some_row_is_in_a_buffer(rows: Seq<Option<Seq<u8>>>)
    ensures
        has_buffered(rows) <==> exists|i: int|
            0 <= i < rows.len() && (#[trigger] rows[i]) is Some && rows[i]->0.len() > 12,
{
    if has_buffered(rows) {
        let i = choose|i: int| 0 <= i < rows.len() && buffered_len(#[trigger] rows[i]) > 0;
        assert(rows[i] is Some && rows[i]->0.len() > 12);
    }
    if exists|i: int|
        0 <= i < rows.len() && (#[trigger] rows[i]) is Some && rows[i]->0.len() > 12 {
        let i = choose|i: int|
            0 <= i < rows.len() && (#[trigger] rows[i]) is Some && rows[i]->0.len() > 12;
        assert(buffered_len(rows[i]) > 0);
    }
}

/// Strings are written to buffers one behind the other: all bytes of the rows that go there, in
/// order, row by row.
pub proof fn law_rows_in_buffers(
    buffers: Seq<Seq<u8>>,
    rows: Seq<Option<Seq<u8>>>,
    row: Option<Seq<u8>>,
    max: nat,
)
    requires
        buffers.len() > 0,
    ensures
        with_rows(buffers, Seq::empty(), max) == buffers,
        with_rows(buffers, rows, max).len() > 0,
        concat(with_rows(buffers, rows, max)).len() == concat(buffers).len() + buffered_total(rows),
        ({
            let now = with_rows(buffers, rows, max);
            let next = with_rows(buffers, rows.push(row), max);
            if row is Some && row->0.len() > 12 {
                &&& concat(next) == concat(now) + row->0
                &&& next.len() == now.len() + if now.last().len() + row->0.len() > max {
                    1int
                } else {
                    0
                }
                &&& forall|i: int| 0 <= i < now.len() - 1 ==> (#[trigger] next[i]) == now[i]
            } else {
                next == now
            }
        }),
    decreases rows.len(),
{
    if rows.len() > 0 {
        law_rows_in_buffers(buffers, rows.drop_last(), rows.last(), max);
        assert(rows.drop_last().push(rows.last()) =~= rows);
    }
    let now = with_rows(buffers, rows, max);
    assert(rows.push(row).drop_last() =~= rows);
    if row is Some && row->0.len() > 12 {
        let string = row->0;
        if now.last().len() + string.len() > max {
            lemma_concat_push(now, string);
        } else {
            lemma_concat_push(now.drop_last(), now.last() + string);
            assert(concat(now.drop_last()) + (now.last() + string) =~= concat(now) + string);
        }
    }
}

/// A block that holds rows has a view for each: that of a string stands for it, that of a null is
/// zero. It says which rows are null, and has no null buffer exactly if none is.
pub proof fn law_block_has_its_views(block: ByteViewBlock, rows: Seq<Option<Seq<u8>>>)
    requires
        block.holds(rows),
    ensures
        block.views@.len() == rows.len(),
        forall|i: int|
            0 <= i < rows.len() ==> if rows[i] is Some {
                is_view_of(
                    #[trigger] block.views@[i],
                    rows[i]->0,
                    Seq::new(block.buffers@.len(), |b: int| buffer_bytes(block.buffers@[b])),
                )
            } else {
                block.views@[i] == 0
            },
        block.nulls is None <==> forall|i: int| 0 <= i < rows.len() ==> (#[trigger] rows[i]) is Some,
        block.nulls is Some ==> {
            &&& validity(block.nulls->0).len() == rows.len()
            &&& forall|i: int|
                0 <= i < rows.len() ==> (#[trigger] validity(block.nulls->0)[i]) == (
                rows[i] is Some)
        },
{
    assert(bytes_of_buffers(block.buffers@) =~= Seq::new(
        block.buffers@.len(),
        |b: int| buffer_bytes(block.buffers@[b]),
    ));
    let valid = Seq::new(rows.len(), |i: int| rows[i] is Some);
    law_null_buffer(block.nulls, valid);
    if forall|i: int| 0 <= i < rows.len() ==> (#[trigger] rows[i]) is Some {
        assert forall|i: int| 0 <= i < valid.len() implies #[trigger] valid[i] by {
            assert(rows[i] is Some);
        }
    }
    if block.nulls is None {
        assert forall|i: int| 0 <= i < rows.len() implies (#[trigger] rows[i]) is Some by {
            assert(valid[i]);
        }
    }
}

} // verus!
