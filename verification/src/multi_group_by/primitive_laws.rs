//! What the builder of primitive values stores and compares, value by value.

use crate::arrow_buffers::{built_bits, validity};
use crate::blocked_helpers::item_laws::{is_position, law_null_buffer};
use crate::blocked_helpers::layout_laws::{are_added, law_added_items_are_there};
use crate::groups_accumulator::BlocksIndex;
use crate::multi_group_by::primitive::{
    canonical_row, same_row, NativeValue, PrimitiveBlock, PrimitiveColumn,
    PrimitiveGroupValueBuilder,
};
use crate::multi_group_by::{optional, optional_blocks, validity_in_blocks};
use arrow::array::BooleanBufferBuilder;
use vstd::prelude::*;

verus! {

/// Two values of the type are the same exactly if they are equal, and each stands for itself only.
pub open spec fn is_told_apart<N: NativeValue>() -> bool {
    &&& forall|a: N, b: N| #[trigger] a.same(b) <==> a == b
    &&& forall|a: N| (#[trigger] a.canonical()) == a
}

/// Integers are the same exactly if they are equal, each stands for itself only, and a zero stands
/// where there is a null.
pub proof fn law_integers_are_told_apart()
    ensures
        is_told_apart::<i8>(),
        is_told_apart::<i16>(),
        is_told_apart::<i32>(),
        is_told_apart::<i64>(),
        is_told_apart::<i128>(),
        is_told_apart::<u8>(),
        is_told_apart::<u16>(),
        is_told_apart::<u32>(),
        is_told_apart::<u64>(),
        <i8 as NativeValue>::zero() == 0,
        <i16 as NativeValue>::zero() == 0,
        <i32 as NativeValue>::zero() == 0,
        <i64 as NativeValue>::zero() == 0,
        <i128 as NativeValue>::zero() == 0,
        <u8 as NativeValue>::zero() == 0,
        <u16 as NativeValue>::zero() == 0,
        <u32 as NativeValue>::zero() == 0,
        <u64 as NativeValue>::zero() == 0,
{
}

/// The value at a position is the same as that of a row exactly if both are null, where nulls count,
/// or if neither is and they are equal.
pub proof fn law_equal_to<const FIXED_BLOCK_SIZING: bool, N: NativeValue, const NULLABLE: bool>(
    builder: PrimitiveGroupValueBuilder<FIXED_BLOCK_SIZING, N, NULLABLE>,
    lhs_row: BlocksIndex,
    column: PrimitiveColumn<'_, N>,
    rhs_row: int,
    equal: bool,
)
    requires
        is_told_apart::<N>(),
        equal == same_row(builder.at(lhs_row), canonical_row(column.row(NULLABLE, rhs_row))),
    ensures
        ({
            let here =
                builder.rows()[lhs_row.block_index as int][lhs_row.index_in_block as int];
            let is_null = NULLABLE && column.nulls is Some && !validity(*column.nulls->0)[rhs_row];
            equal <==> match here {
                Some(value) => !is_null && value == column.values@[rhs_row],
                None => is_null,
            }
        }),
{
}

/// When many positions and rows are compared, the bit of each pair stays set exactly if both are
/// null, where nulls count, or if neither is and they are equal. The bits behind them stay as they
/// are.
pub proof fn law_bits_of_equal_pairs<
    const FIXED_BLOCK_SIZING: bool,
    N: NativeValue,
    const NULLABLE: bool,
>(
    builder: PrimitiveGroupValueBuilder<FIXED_BLOCK_SIZING, N, NULLABLE>,
    lhs_rows: Seq<BlocksIndex>,
    column: PrimitiveColumn<'_, N>,
    rhs_rows: Seq<usize>,
    before: BooleanBufferBuilder,
    after: BooleanBufferBuilder,
    i: int,
)
    requires
        is_told_apart::<N>(),
        builder.compared(lhs_rows, &column, rhs_rows, before, after),
        lhs_rows.len() == rhs_rows.len(),
        0 <= i < built_bits(before).len(),
    ensures
        built_bits(after).len() == built_bits(before).len(),
        i >= lhs_rows.len() ==> built_bits(after)[i] == built_bits(before)[i],
        i < lhs_rows.len() ==> {
            let position = lhs_rows[i];
            let row = rhs_rows[i] as int;
            let here =
                builder.rows()[position.block_index as int][position.index_in_block as int];
            let is_null = NULLABLE && column.nulls is Some && !validity(*column.nulls->0)[row];
            built_bits(after)[i] <==> built_bits(before)[i] && match here {
                Some(value) => !is_null && value == column.values@[row],
                None => is_null,
            }
        },
{
}

/// Whatever two values count as the same: two nulls do, a null and a value do not, and of two values
/// the type decides.
pub proof fn law_same_rows<N: NativeValue>(a: N, b: N)
    ensures
        same_row(Some(a), Some(b)) <==> a.same(b),
        same_row::<N>(None, None),
        !same_row(Some(a), None),
        !same_row(None, Some(b)),
        canonical_row(Some(a)) == Some(a.canonical()),
        canonical_row::<N>(None) is None,
{
}

/// The rows of a column that are added are there: each as a null where it is null and nulls count,
/// else as the value that stands for it.
pub proof fn law_rows_are_added<
    const FIXED_BLOCK_SIZING: bool,
    N: NativeValue,
    const NULLABLE: bool,
>(
    before: PrimitiveGroupValueBuilder<FIXED_BLOCK_SIZING, N, NULLABLE>,
    column: PrimitiveColumn<'_, N>,
    rows: Seq<usize>,
    after: PrimitiveGroupValueBuilder<FIXED_BLOCK_SIZING, N, NULLABLE>,
)
    requires
        before.wf(),
        before.added(column.stored(NULLABLE, rows), &after),
    ensures
        after.cap() == before.cap(),
        are_added(
            FIXED_BLOCK_SIZING,
            before.cap(),
            before.rows(),
            Seq::new(
                rows.len(),
                |k: int|
                    if NULLABLE && column.nulls is Some && !validity(
                        *column.nulls->0,
                    )[rows[k] as int] {
                        None
                    } else {
                        Some(column.values@[rows[k] as int].canonical())
                    },
            ),
            after.rows(),
        ),
{
    let stored = column.stored(NULLABLE, rows);
    let expected = Seq::new(
        rows.len(),
        |k: int|
            if NULLABLE && column.nulls is Some && !validity(*column.nulls->0)[rows[k] as int] {
                None
            } else {
                Some(column.values@[rows[k] as int].canonical())
            },
    );
    assert(stored =~= expected);
    before.lemma_wf();
    law_added_items_are_there(FIXED_BLOCK_SIZING, before.cap(), before.rows(), stored);
}

/// The row that is added is there, alone.
pub proof fn law_row_is_added<
    const FIXED_BLOCK_SIZING: bool,
    N: NativeValue,
    const NULLABLE: bool,
>(
    before: PrimitiveGroupValueBuilder<FIXED_BLOCK_SIZING, N, NULLABLE>,
    column: PrimitiveColumn<'_, N>,
    row: usize,
    after: PrimitiveGroupValueBuilder<FIXED_BLOCK_SIZING, N, NULLABLE>,
)
    requires
        before.added(seq![canonical_row(column.row(NULLABLE, row as int))], &after),
    ensures
        before.added(column.stored(NULLABLE, seq![row]), &after),
{
    assert(column.stored(NULLABLE, seq![row]) =~= seq![
        canonical_row(column.row(NULLABLE, row as int)),
    ]);
}

/// A block that holds rows has the value of each, a zero where the row is null, and says which rows
/// are null. It has no null buffer exactly if no row is null.
pub proof fn law_block_has_its_rows<N: NativeValue>(block: PrimitiveBlock<N>, rows: Seq<Option<N>>)
    requires
        block.holds(rows),
    ensures
        block.values@.len() == rows.len(),
        forall|i: int|
            0 <= i < rows.len() ==> (#[trigger] block.values@[i]) == if rows[i] is Some {
                rows[i]->0
            } else {
                N::zero()
            },
        block.nulls is None <==> forall|i: int| 0 <= i < rows.len() ==> (#[trigger] rows[i]) is Some,
        block.nulls is Some ==> {
            &&& validity(block.nulls->0).len() == rows.len()
            &&& forall|i: int|
                0 <= i < rows.len() ==> (#[trigger] validity(block.nulls->0)[i]) == (
                rows[i] is Some)
        },
{
    let valid = Seq::new(rows.len(), |i: int| rows[i] is Some);
    law_null_buffer(block.nulls, valid);
    if forall|i: int| 0 <= i < rows.len() ==> (#[trigger] rows[i]) is Some {
        assert forall|i: int| 0 <= i < valid.len() implies #[trigger] valid[i] by {
            assert(rows[i] is Some);
        }
    }
    if block.nulls is None {
        assert forall|i: int| 0 <= i < rows.len() implies (#[trigger] rows[i]) is Some by {
            assert(valid[i]);
        }
    }
}

/// The builder has a position exactly if there is a row in a block. It stores for nulls whether each
/// row is one, but nothing where no null can come in.
pub proof fn law_positions_of_rows<
    const FIXED_BLOCK_SIZING: bool,
    N: NativeValue,
    const NULLABLE: bool,
>(
    builder: PrimitiveGroupValueBuilder<FIXED_BLOCK_SIZING, N, NULLABLE>,
    index: BlocksIndex,
)
    ensures
        builder.has(index) <==> is_position(builder.rows(), index),
        NULLABLE ==> builder.stored_validity() == validity_in_blocks(builder.rows()),
        !NULLABLE ==> builder.stored_validity().len() == 1 && builder.stored_validity()[0].len()
            == 0,
{
}

/// Values and their validity make rows: a null where nulls count and the value is not valid, else
/// the value.
pub proof fn law_rows_of_values<T>(
    nullable: bool,
    values: Seq<Seq<T>>,
    valid: Seq<Seq<bool>>,
    b: int,
    j: int,
)
    requires
        0 <= b < values.len(),
        0 <= j < values[b].len(),
    ensures
        optional_blocks(nullable, values, valid).len() == values.len(),
        optional_blocks(nullable, values, valid)[b].len() == values[b].len(),
        optional_blocks(nullable, values, valid)[b][j] is None <==> nullable && !valid[b][j],
        optional_blocks(nullable, values, valid)[b][j] is Some
            ==> optional_blocks(nullable, values, valid)[b][j]->0 == values[b][j],
        optional(nullable, values[b], valid[b]) == optional_blocks(nullable, values, valid)[b],
{
}

/// What is stored for nulls says of each row whether it is one.
pub proof fn law_validity_of_rows<T>(rows: Seq<Seq<Option<T>>>, b: int, j: int)
    requires
        0 <= b < rows.len(),
        0 <= j < rows[b].len(),
    ensures
        validity_in_blocks(rows).len() == rows.len(),
        validity_in_blocks(rows)[b].len() == rows[b].len(),
        validity_in_blocks(rows)[b][j] <==> rows[b][j] is Some,
{
}

} // verus!
