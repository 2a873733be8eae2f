//! A column of primitive values.

use crate::arrow_buffers::{
    and_packed, bit_len, built_bits, count_nulls, get_bit, is_clean, is_valid_at, lemma_no_nulls, null_count,
    packed_bytes, packed_slice_mut, same_bits, set_bit, slice_nulls, validity,
};
use crate::blocked_helpers::bits::{bit_at, lemma_zero_bits, set_packed_bit};
use crate::blocked_helpers::blocked_custom_input_builder::bytes_in_blocks;
use crate::blocked_helpers::blocked_nulls_builder::{
    bitmaps_bytes, is_null_buffer_of, BlockedNullsBuilder,
};
use crate::blocked_helpers::blocked_vec_builder::BlockedVecBuilder;
use crate::blocked_helpers::layout::{
    appended, chunks, concat, lemma_appended, lemma_appended_nothing, lemma_appended_twice,
    lemma_appended_within, lemma_concat_first, lemma_concat_one, lemma_concat_push, valid_blocks,
};
use crate::groups_accumulator::BlocksIndex;
use crate::memory::{is_queue_size, items_bytes, saturated};
use crate::multi_group_by::{
    lemma_optional_appended, lemma_same_len, nulls_equal_to, optional, optional_blocks,
    validity_in_blocks, Nulls,
};
use arrow::array::{BooleanBufferBuilder, NullBufferBuilder};
use arrow::buffer::NullBuffer;
use vstd::layout::size_of;
use vstd::prelude::*;

verus! {

/// A primitive value.
pub trait NativeValue: Copy {
    /// The value that stands where there is a null.
    spec fn zero() -> Self;

    /// Two values are the same for grouping.
    spec fn same(self, other: Self) -> bool;

    /// The value that stands for all that are to be in one group with it.
    spec fn canonical(self) -> Self;

    fn default_value() -> (value: Self)
        ensures
            value == Self::zero(),
    ;

    fn is_eq(self, other: Self) -> (equal: bool)
        ensures
            equal == self.same(other),
    ;

    fn canonicalize(self) -> (value: Self)
        ensures
            value == self.canonical(),
    ;
}

impl NativeValue for i8 {
    open spec fn zero() -> Self {
        0
    }

    fn default_value() -> (value: Self) {
        0
    }

    open spec fn same(self, other: Self) -> bool {
        self == other
    }

    open spec fn canonical(self) -> Self {
        self
    }

    fn is_eq(self, other: Self) -> (equal: bool) {
        self == other
    }

    fn canonicalize(self) -> (value: Self) {
        self
    }
}

impl NativeValue for i16 {
    open spec fn zero() -> Self {
        0
    }

    fn default_value() -> (value: Self) {
        0
    }

    open spec fn same(self, other: Self) -> bool {
        self == other
    }

    open spec fn canonical(self) -> Self {
        self
    }

    fn is_eq(self, other: Self) -> (equal: bool) {
        self == other
    }

    fn canonicalize(self) -> (value: Self) {
        self
    }
}

impl NativeValue for i32 {
    open spec fn zero() -> Self {
        0
    }

    fn default_value() -> (value: Self) {
        0
    }

    open spec fn same(self, other: Self) -> bool {
        self == other
    }

    open spec fn canonical(self) -> Self {
        self
    }

    fn is_eq(self, other: Self) -> (equal: bool) {
        self == other
    }

    fn canonicalize(self) -> (value: Self) {
        self
    }
}

impl NativeValue for i64 {
    open spec fn zero() -> Self {
        0
    }

    fn default_value() -> (value: Self) {
        0
    }

    open spec fn same(self, other: Self) -> bool {
        self == other
    }

    open spec fn canonical(self) -> Self {
        self
    }

    fn is_eq(self, other: Self) -> (equal: bool) {
        self == other
    }

    fn canonicalize(self) -> (value: Self) {
        self
    }
}

impl NativeValue for i128 {
    open spec fn zero() -> Self {
        0
    }

    fn default_value() -> (value: Self) {
        0
    }

    open spec fn same(self, other: Self) -> bool {
        self == other
    }

    open spec fn canonical(self) -> Self {
        self
    }

    fn is_eq(self, other: Self) -> (equal: bool) {
        self == other
    }

    fn canonicalize(self) -> (value: Self) {
        self
    }
}

impl NativeValue for u8 {
    open spec fn zero() -> Self {
        0
    }

    fn default_value() -> (value: Self) {
        0
    }

    open spec fn same(self, other: Self) -> bool {
        self == other
    }

    open spec fn canonical(self) -> Self {
        self
    }

    fn is_eq(self, other: Self) -> (equal: bool) {
        self == other
    }

    fn canonicalize(self) -> (value: Self) {
        self
    }
}

impl NativeValue for u16 {
    open spec fn zero() -> Self {
        0
    }

    fn default_value() -> (value: Self) {
        0
    }

    open spec fn same(self, other: Self) -> bool {
        self == other
    }

    open spec fn canonical(self) -> Self {
        self
    }

    fn is_eq(self, other: Self) -> (equal: bool) {
        self == other
    }

    fn canonicalize(self) -> (value: Self) {
        self
    }
}

impl NativeValue for u32 {
    open spec fn zero() -> Self {
        0
    }

    fn default_value() -> (value: Self) {
        0
    }

    open spec fn same(self, other: Self) -> bool {
        self == other
    }

    open spec fn canonical(self) -> Self {
        self
    }

    fn is_eq(self, other: Self) -> (equal: bool) {
        self == other
    }

    fn canonicalize(self) -> (value: Self) {
        self
    }
}

impl NativeValue for u64 {
    open spec fn zero() -> Self {
        0
    }

    fn default_value() -> (value: Self) {
        0
    }

    open spec fn same(self, other: Self) -> bool {
        self == other
    }

    open spec fn canonical(self) -> Self {
        self
    }

    fn is_eq(self, other: Self) -> (equal: bool) {
        self == other
    }

    fn canonicalize(self) -> (value: Self) {
        self
    }
}

/// A column of primitive values that comes in.
pub struct PrimitiveColumn<'a, N> {
    pub values: &'a [N],
    pub nulls: Option<&'a NullBuffer>,
}

impl<'a, N: NativeValue> PrimitiveColumn<'a, N> {
    pub open spec fn wf(&self) -> bool {
        self.nulls matches Some(nulls) ==> validity(*nulls).len() == self.values@.len()
    }

    /// The value of a row, or nothing if it is null and nulls count.
    pub open spec fn row(&self, nullable: bool, row: int) -> Option<N> {
        if nullable && self.is_null_at(row) {
            None
        } else {
            Some(self.values@[row])
        }
    }

    pub open spec fn is_null_at(&self, row: int) -> bool {
        match self.nulls {
            Some(nulls) => !validity(*nulls)[row],
            None => false,
        }
    }

    /// The values of some rows as they are stored.
    pub open spec fn stored(&self, nullable: bool, rows: Seq<usize>) -> Seq<Option<N>> {
        Seq::new(rows.len(), |k: int| canonical_row(self.row(nullable, rows[k] as int)))
    }

    fn is_null(&self, row: usize) -> (is_null: bool)
        requires
            self.wf(),
            row < self.values@.len(),
        ensures
            is_null == self.is_null_at(row as int),
    {
        match self.nulls {
            Some(nulls) => !is_valid_at(nulls, row),
            None => false,
        }
    }

    /// Whether each row is valid.
    pub open spec fn valid(&self) -> Seq<bool> {
        match self.nulls {
            Some(nulls) => validity(*nulls),
            None => same_bits(true, self.values@.len()),
        }
    }

    /// The number of nulls.
    fn null_count(&self) -> (count: usize)
        requires
            self.wf(),
        ensures
            count == count_nulls(self.valid()),
            count == 0 ==> forall|row: int|
                0 <= row < self.values@.len() ==> !#[trigger] self.is_null_at(row),
            count == self.values@.len() ==> forall|row: int|
                0 <= row < self.values@.len() ==> #[trigger] self.is_null_at(row),
    {
        proof {
            let n = self.values@.len();
            lemma_no_nulls(self.valid());
            lemma_all_nulls(self.valid());
            assert forall|row: int| 0 <= row < n implies same_bits(true, n)[row] && !(
            #[trigger] same_bits(false, n)[row]) by {}
        }
        match self.nulls {
            Some(nulls) => null_count(nulls),
            None => 0,
        }
    }
}

/// The values of some rows as they are stored, whether or not they are null.
pub open spec fn canonical_values<N: NativeValue>(
    column: &PrimitiveColumn<'_, N>,
    rows: Seq<usize>,
) -> Seq<N> {
    Seq::new(rows.len(), |k: int| column.values@[rows[k] as int].canonical())
}

/// If there are as many nulls as items, every item is null.
proof fn lemma_all_nulls(valid: Seq<bool>)
    ensures
        count_nulls(valid) == valid.len() ==> valid == same_bits(
            false,
            valid.len(),
        ),
    decreases valid.len(),
{
    if valid.len() > 0 {
        lemma_all_nulls(valid.drop_last());
        lemma_no_nulls(valid.drop_last());
        if count_nulls(valid) == valid.len() {
            assert(valid =~= valid.drop_last().push(false));
            assert(valid =~= same_bits(false, valid.len()));
        }
    } else {
        assert(valid =~= same_bits(false, 0));
    }
}

/// The value as it is stored.
pub open spec fn canonical_row<N: NativeValue>(row: Option<N>) -> Option<N> {
    match row {
        Some(value) => Some(value.canonical()),
        None => None,
    }
}

/// Two values, or nulls, are the same: two nulls are, a null and a value are not.
pub open spec fn same_row<N: NativeValue>(a: Option<N>, b: Option<N>) -> bool {
    match (a, b) {
        (Some(a), Some(b)) => a.same(b),
        (None, None) => true,
        _ => false,
    }
}

/// `n` zeros.
pub open spec fn zeros<N: NativeValue>(n: nat) -> Seq<N> {
    Seq::new(n, |i: int| N::zero())
}

/// Where there is a null, the value is zero.
pub open spec fn zero_at_nulls<N: NativeValue>(values: Seq<N>, valid: Seq<bool>) -> bool {
    forall|k: int|
        0 <= k < values.len() && !valid[k] ==> (#[trigger] values[k]) == N::zero()
}

/// A block of values that was taken out of a builder.
pub struct PrimitiveBlock<N> {
    pub values: Vec<N>,
    pub nulls: Option<NullBuffer>,
}

impl<N: NativeValue> PrimitiveBlock<N> {
    /// The block holds exactly these values and nulls. There is a null buffer exactly if there is
    /// a null.
    pub open spec fn holds(&self, rows: Seq<Option<N>>) -> bool {
        &&& self.values@.len() == rows.len()
        &&& is_null_buffer_of(self.nulls, Seq::new(rows.len(), |i: int| rows[i] is Some))
        &&& forall|i: int|
            0 <= i < rows.len() ==> (#[trigger] self.values@[i]) == match rows[i] {
                Some(value) => value,
                None => N::zero(),
            }
    }
}

/// Collects primitive values, block by block.
///
/// When `FIXED_BLOCK_SIZING` is true every block is closed once it holds `block_size` values;
/// otherwise the callers decide when a new block starts. Where `NULLABLE` is false, no null can
/// come in, and nothing is stored for nulls.
#[derive(Debug)]
pub struct PrimitiveGroupValueBuilder<
    const FIXED_BLOCK_SIZING: bool,
    N: NativeValue,
    const NULLABLE: bool,
> {
    group_values: BlockedVecBuilder<FIXED_BLOCK_SIZING, N>,
    nulls: BlockedNullsBuilder<FIXED_BLOCK_SIZING>,
}

impl<
    const FIXED_BLOCK_SIZING: bool,
    N: NativeValue,
    const NULLABLE: bool,
> PrimitiveGroupValueBuilder<FIXED_BLOCK_SIZING, N, NULLABLE> {
    /// The values and nulls in each block, the block being written to included.
    pub closed spec fn rows(&self) -> Seq<Seq<Option<N>>> {
        optional_blocks(NULLABLE, self.group_values.0.blocks(), self.nulls.blocks())
    }

    /// The number of values in a full block.
    pub closed spec fn cap(&self) -> nat {
        self.group_values.0.cap()
    }

    /// The last block is empty and not yet one of those that can be taken.
    pub closed spec fn pending(&self) -> bool {
        self.group_values.0.pending()
    }

    pub closed spec fn wf(&self) -> bool {
        &&& self.group_values.0.wf()
        &&& self.nulls.wf()
        &&& self.nulls.cap() == self.group_values.0.cap()
        &&& NULLABLE ==> {
            &&& self.nulls.blocks().len() == self.group_values.0.blocks().len()
            &&& forall|b: int|
                0 <= b < self.nulls.blocks().len() ==> (#[trigger] self.nulls.blocks()[b]).len()
                    == self.group_values.0.blocks()[b].len()
            &&& zero_at_nulls(self.group_values.0.items(), self.nulls.items())
        }
        &&& !NULLABLE ==> self.nulls.blocks() == seq![Seq::<bool>::empty()]
    }

    /// A position where there is a value or a null.
    pub open spec fn has(&self, index: BlocksIndex) -> bool {
        &&& index.block_index < self.rows().len()
        &&& index.index_in_block < self.rows()[index.block_index as int].len()
    }

    /// What is at a position.
    pub open spec fn at(&self, index: BlocksIndex) -> Option<N> {
        self.rows()[index.block_index as int][index.index_in_block as int]
    }

    /// What is stored for nulls: whether each row of each block is valid, but nothing where no
    /// null can come in.
    pub open spec fn stored_validity(&self) -> Seq<Seq<bool>> {
        if NULLABLE {
            validity_in_blocks(self.rows())
        } else {
            seq![Seq::<bool>::empty()]
        }
    }

    /// `after` is this builder with `rows` added behind the others.
    pub open spec fn added(&self, rows: Seq<Option<N>>, after: &Self) -> bool {
        &&& after.wf()
        &&& after.cap() == self.cap()
        &&& after.rows() == appended(FIXED_BLOCK_SIZING, self.cap(), self.rows(), rows)
    }

    pub fn new(block_size: usize) -> (builder: Self)
        requires
            FIXED_BLOCK_SIZING ==> block_size > 0,
        ensures
            builder.wf(),
            builder.rows() == seq![Seq::<Option<N>>::empty()],
            builder.cap() == block_size,
            !builder.pending(),
    {
        let builder = PrimitiveGroupValueBuilder {
            group_values: BlockedVecBuilder::new(block_size),
            nulls: BlockedNullsBuilder::new(block_size),
        };
        proof {
            assert(builder.rows() =~= seq![Seq::<Option<N>>::empty()]) by {
                assert(builder.rows()[0] =~= Seq::<Option<N>>::empty());
            }
            lemma_concat_one(Seq::<N>::empty());
        }
        builder
    }

    /// What holds of the blocks of every builder.
    pub proof fn lemma_wf(&self)
        requires
            self.wf(),
        ensures
            valid_blocks(FIXED_BLOCK_SIZING, self.cap(), self.rows()),
            self.pending() ==> self.rows().last().len() == 0,
            concat(self.rows()).len() <= usize::MAX,
    {
        self.lemma_lens();
    }

    proof fn lemma_lens(&self)
        requires
            self.wf(),
        ensures
            valid_blocks(FIXED_BLOCK_SIZING, self.cap(), self.rows()),
            self.pending() ==> self.rows().last().len() == 0,
            concat(self.rows()).len() <= usize::MAX,
            concat(self.rows()).len() == self.group_values.0.items().len(),
            NULLABLE ==> concat(self.rows()).len() == self.nulls.items().len(),
    {
        self.group_values.0.lemma_wf();
        lemma_same_len(self.rows(), self.group_values.0.blocks());
        if NULLABLE {
            lemma_same_len(self.rows(), self.nulls.blocks());
        }
        assert forall|b: int| 0 <= b < self.rows().len() implies (#[trigger] self.rows()[b]).len()
            == self.group_values.0.blocks()[b].len() by {}
    }

    /// Values and their validity were added side by side.
    proof fn lemma_added(&self, values: Seq<N>, valid: Seq<bool>, after: &Self)
        requires
            self.wf(),
            self.group_values.0.added(values, &after.group_values.0),
            if NULLABLE {
                &&& self.nulls.added(valid, &after.nulls)
                &&& valid.len() == values.len()
                &&& zero_at_nulls(values, valid)
            } else {
                after.nulls == self.nulls
            },
        ensures
            self.added(optional(NULLABLE, values, valid), after),
    {
        let old_values = self.group_values.0.blocks();
        self.lemma_wf();
        self.group_values.0.lemma_wf();
        if NULLABLE {
            let old_valid = self.nulls.blocks();
            assert(old_valid[old_valid.len() - 1].len() == old_values[old_valid.len() - 1].len());
            lemma_optional_appended(
                true,
                FIXED_BLOCK_SIZING,
                self.cap(),
                old_values,
                old_valid,
                values,
                valid,
            );
            lemma_shape(FIXED_BLOCK_SIZING, self.cap(), old_values, old_valid, values, valid);
            self.lemma_lens();
            self.nulls.lemma_wf();
            lemma_appended(FIXED_BLOCK_SIZING, self.cap(), old_values, values);
            lemma_appended(FIXED_BLOCK_SIZING, self.cap(), old_valid, valid);
        } else {
            lemma_optional_appended(
                false,
                FIXED_BLOCK_SIZING,
                self.cap(),
                old_values,
                self.nulls.blocks(),
                values,
                valid,
            );
            let expected = appended(
                FIXED_BLOCK_SIZING,
                self.cap(),
                self.rows(),
                optional(false, values, valid),
            );
            assert forall|b: int| 0 <= b < after.rows().len() implies after.rows()[b]
                == expected[b] by {
                assert(after.rows()[b] =~= expected[b]);
            }
            assert(after.rows() =~= expected);
        }
    }

    /// The number of values and nulls.
    pub fn len(&self) -> (len: usize)
        requires
            self.wf(),
        ensures
            len == concat(self.rows()).len(),
    {
        proof {
            self.lemma_lens();
        }
        self.group_values.0.len()
    }

    /// Adds the value of a row.
    pub fn append_val(&mut self, column: &PrimitiveColumn<'_, N>, row: usize)
        requires
            old(self).wf(),
            column.wf(),
            row < column.values@.len(),
            concat(old(self).rows()).len() < usize::MAX,
        ensures
            old(self).added(seq![canonical_row(column.row(NULLABLE, row as int))], final(self)),
            final(self).pending() == (FIXED_BLOCK_SIZING && final(self).rows().last().len() == 0),
    {
        if NULLABLE && column.is_null(row) {
            self.push_row(N::default_value(), false);
        } else {
            self.push_row(column.values[row].canonicalize(), true);
        }
    }

    /// Adds a value, or a null in place of it.
    fn push_row(&mut self, value: N, is_valid: bool)
        requires
            old(self).wf(),
            !is_valid ==> value == N::zero(),
            concat(old(self).rows()).len() < usize::MAX,
        ensures
            old(self).added(
                seq![
                    if NULLABLE && !is_valid {
                        None
                    } else {
                        Some(value)
                    },
                ],
                final(self),
            ),
            final(self).pending() == (FIXED_BLOCK_SIZING && final(self).rows().last().len() == 0),
    {
        let ghost before = *self;
        proof {
            self.lemma_lens();
        }
        if NULLABLE {
            self.nulls.push_validity(is_valid);
        }
        self.group_values.0.push(value);
        proof {
            before.lemma_added(seq![value], seq![is_valid], self);
            let row = if NULLABLE && !is_valid {
                None
            } else {
                Some(value)
            };
            assert(optional(NULLABLE, seq![value], seq![is_valid]) =~= seq![row]);
            self.lemma_pending_after_push(&before);
        }
    }

    /// After a value was added, the last block is pending exactly if it was opened because the one
    /// before is full.
    proof fn lemma_pending_after_push(&self, before: &Self)
        requires
            before.wf(),
            self.wf(),
            self.pending() == (FIXED_BLOCK_SIZING && before.group_values.0.blocks().last().len() + 1
                == before.cap()),
            exists|row: Option<N>| before.added(seq![row], self),
        ensures
            self.pending() == (FIXED_BLOCK_SIZING && self.rows().last().len() == 0),
    {
        before.lemma_wf();
        let row = choose|row: Option<N>| before.added(seq![row], self);
        lemma_appended_within(FIXED_BLOCK_SIZING, before.cap(), before.rows(), seq![row]);
        let n = before.rows().len() - 1;
        assert(before.rows()[n].len() == before.group_values.0.blocks()[n].len());
    }

    /// Whether the value at a position is the same as that of a row.
    pub fn equal_to(
        &self,
        lhs_row: BlocksIndex,
        column: &PrimitiveColumn<'_, N>,
        rhs_row: usize,
    ) -> (equal: bool)
        requires
            self.wf(),
            self.has(lhs_row),
            column.wf(),
            rhs_row < column.values@.len(),
        ensures
            equal == same_row(
                self.at(lhs_row),
                canonical_row(column.row(NULLABLE, rhs_row as int)),
            ),
    {
        if NULLABLE {
            let exist_null = self.nulls.is_null(lhs_row);
            let input_null = column.is_null(rhs_row);
            if let Some(result) = nulls_equal_to(exist_null, input_null) {
                return result;
            }
        }
        let value: N = *self.group_values.0.get(lhs_row);
        value.is_eq(column.values[rhs_row].canonicalize())
    }

    /// Clears the bits of the pairs of positions and rows whose values are not the same. Only for
    /// values that are not null.
    fn vectorized_equal_to_non_nullable(
        &self,
        lhs_rows: &[BlocksIndex],
        column: &PrimitiveColumn<'_, N>,
        rhs_rows: &[usize],
        equal_to_results: &mut BooleanBufferBuilder,
    )
        requires
            self.wf(),
            self.pairs(lhs_rows@, column, rhs_rows@),
            lhs_rows@.len() <= bit_len(*old(equal_to_results)),
            is_clean(*old(equal_to_results)),
            forall|i: int|
                0 <= i < lhs_rows@.len() ==> self.at(#[trigger] lhs_rows@[i]) is Some && column.row(
                    NULLABLE,
                    rhs_rows@[i] as int,
                ) is Some,
        ensures
            self.compared(
                lhs_rows@,
                column,
                rhs_rows@,
                *old(equal_to_results),
                *final(equal_to_results),
            ),
    {
        let n: usize = lhs_rows.len();
        // Whole bytes are compared at once, the last few bits one by one.
        let num_bytes: usize = n / 8;
        let whole: usize = num_bytes * 8;
        let mut same: Vec<u8> = Vec::new();
        same.resize(num_bytes, 0);
        proof {
            assert forall|j: int| 0 <= j < num_bytes * 8 implies !#[trigger] bit_at(same@, j) by {
                lemma_zero_bits(same@, j);
            }
        }
        let mut i: usize = 0;
        while i < whole
            invariant
                self.wf(),
                self.pairs(lhs_rows@, column, rhs_rows@),
                whole == num_bytes * 8,
                whole <= lhs_rows@.len(),
                same@.len() == num_bytes,
                0 <= i <= whole,
                forall|i: int|
                    0 <= i < lhs_rows@.len() ==> self.at(#[trigger] lhs_rows@[i]) is Some
                        && column.row(NULLABLE, rhs_rows@[i] as int) is Some,
                forall|j: int|
                    0 <= j < i ==> #[trigger] bit_at(same@, j) == self.same_pair(
                        lhs_rows@,
                        column,
                        rhs_rows@,
                        j,
                    ),
                forall|j: int| i <= j < whole ==> !#[trigger] bit_at(same@, j),
            decreases whole - i,
        {
            assert(self.has(lhs_rows@[i as int]));
            assert(self.at(lhs_rows@[i as int]) is Some);
            let left: N = *self.group_values.0.get(lhs_rows[i]);
            let right: N = column.values[rhs_rows[i]];
            if left.is_eq(right) {
                set_packed_bit(&mut same, i);
            }
            i += 1;
        }
        let ghost before = *equal_to_results;
        and_packed(packed_slice_mut(equal_to_results), same.as_slice(), whole);
        proof {
            let after = *equal_to_results;
            assert forall|j: int| 0 <= j < bit_len(after) implies (#[trigger] built_bits(after)[j])
                == (built_bits(before)[j] && (j < whole ==> self.same_pair(
                lhs_rows@,
                column,
                rhs_rows@,
                j,
            ))) by {
                assert(built_bits(after)[j] == bit_at(packed_bytes(after), j));
                assert(built_bits(before)[j] == bit_at(packed_bytes(before), j));
            }
        }
        while i < n
            invariant
                self.wf(),
                self.pairs(lhs_rows@, column, rhs_rows@),
                n == lhs_rows@.len(),
                0 <= i <= n,
                n <= built_bits(before).len(),
                is_clean(*equal_to_results),
                forall|i: int|
                    0 <= i < lhs_rows@.len() ==> self.at(#[trigger] lhs_rows@[i]) is Some
                        && column.row(NULLABLE, rhs_rows@[i] as int) is Some,
                built_bits(*equal_to_results).len() == built_bits(before).len(),
                forall|j: int|
                    0 <= j < built_bits(before).len() ==> (#[trigger] built_bits(
                        *equal_to_results,
                    )[j]) == (built_bits(before)[j] && (j < i ==> self.same_pair(
                        lhs_rows@,
                        column,
                        rhs_rows@,
                        j,
                    ))),
            decreases n - i,
        {
            assert(self.has(lhs_rows@[i as int]));
            assert(self.at(lhs_rows@[i as int]) is Some);
            let left: N = *self.group_values.0.get(lhs_rows[i]);
            let right: N = column.values[rhs_rows[i]];
            if !left.is_eq(right) {
                set_bit(equal_to_results, i, false);
            }
            i += 1;
        }
    }

    /// Clears the bits of the pairs of positions and rows whose values are not the same.
    pub fn vectorized_equal_nullable(
        &self,
        lhs_rows: &[BlocksIndex],
        column: &PrimitiveColumn<'_, N>,
        rhs_rows: &[usize],
        equal_to_results: &mut BooleanBufferBuilder,
    )
        requires
            NULLABLE,
            self.wf(),
            self.pairs(lhs_rows@, column, rhs_rows@),
            lhs_rows@.len() <= bit_len(*old(equal_to_results)),
            is_clean(*old(equal_to_results)),
        ensures
            self.compared(
                lhs_rows@,
                column,
                rhs_rows@,
                *old(equal_to_results),
                *final(equal_to_results),
            ),
    {
        let ghost before = built_bits(*equal_to_results);
        let mut i: usize = 0;
        while i < lhs_rows.len()
            invariant
                NULLABLE,
                self.wf(),
                self.pairs(lhs_rows@, column, rhs_rows@),
                0 <= i <= lhs_rows@.len(),
                lhs_rows@.len() <= before.len(),
                is_clean(*equal_to_results),
                before == built_bits(*old(equal_to_results)),
                built_bits(*equal_to_results).len() == before.len(),
                forall|j: int|
                    0 <= j < before.len() ==> (#[trigger] built_bits(*equal_to_results)[j]) == (
                    before[j] && (j < i ==> self.same_pair(lhs_rows@, column, rhs_rows@, j))),
            decreases lhs_rows@.len() - i,
        {
            if get_bit(equal_to_results, i) {
                assert(self.has(lhs_rows@[i as int]));
                let exist_null = self.nulls.is_null(lhs_rows[i]);
                let input_null = column.is_null(rhs_rows[i]);
                let equal = match nulls_equal_to(exist_null, input_null) {
                    Some(result) => result,
                    None => {
                        let left: N = *self.group_values.0.get(lhs_rows[i]);
                        left.is_eq(column.values[rhs_rows[i]])
                    },
                };
                assert(equal == self.same_pair(lhs_rows@, column, rhs_rows@, i as int));
                if !equal {
                    set_bit(equal_to_results, i, false);
                }
            }
            i += 1;
        }
    }

    /// Clears the bits of the pairs of positions and rows whose values are not the same.
    pub fn vectorized_equal_to(
        &self,
        lhs_rows: &[BlocksIndex],
        column: &PrimitiveColumn<'_, N>,
        rhs_rows: &[usize],
        equal_to_results: &mut BooleanBufferBuilder,
    )
        requires
            self.wf(),
            self.pairs(lhs_rows@, column, rhs_rows@),
            lhs_rows@.len() <= bit_len(*old(equal_to_results)),
            is_clean(*old(equal_to_results)),
        ensures
            self.compared(
                lhs_rows@,
                column,
                rhs_rows@,
                *old(equal_to_results),
                *final(equal_to_results),
            ),
    {
        if !NULLABLE || (column.null_count() == 0 && !self.nulls.might_have_nulls()) {
            proof {
                assert forall|i: int| 0 <= i < lhs_rows@.len() implies self.at(
                    #[trigger] lhs_rows@[i],
                ) is Some && column.row(NULLABLE, rhs_rows@[i] as int) is Some by {
                    assert(self.has(lhs_rows@[i]));
                }
            }
            self.vectorized_equal_to_non_nullable(lhs_rows, column, rhs_rows, equal_to_results);
        } else {
            self.vectorized_equal_nullable(lhs_rows, column, rhs_rows, equal_to_results);
        }
    }

    /// Adds the values of some rows.
    pub fn vectorized_append(&mut self, column: &PrimitiveColumn<'_, N>, rows: &[usize])
        requires
            old(self).wf(),
            column.wf(),
            forall|k: int|
                0 <= k < rows@.len() ==> (#[trigger] rows@[k]) < column.values@.len(),
            concat(old(self).rows()).len() + rows@.len() <= usize::MAX,
        ensures
            old(self).added(column.stored(NULLABLE, rows@), final(self)),
            final(self).pending() == if rows@.len() == 0 {
                old(self).pending()
            } else {
                FIXED_BLOCK_SIZING && final(self).rows().last().len() == 0
            },
    {
        let ghost before = *self;
        let ghost stored = column.stored(NULLABLE, rows@);
        proof {
            self.lemma_lens();
        }
        if rows.len() == 0 {
            proof {
                lemma_appended_nothing(FIXED_BLOCK_SIZING, self.cap(), self.rows());
                assert(stored =~= Seq::<Option<N>>::empty());
            }
            return;
        }
        let null_count: usize = column.null_count();
        let all_null_or_non_null = if null_count == 0 {
            Nulls::NoNull
        } else if null_count == column.values.len() {
            Nulls::AllNull
        } else {
            Nulls::SomeNull
        };
        if !NULLABLE {
            self.append_values(column, rows);
            proof {
                let values = canonical_values(column, rows@);
                before.lemma_added(values, Seq::empty(), self);
                assert(optional(false, values, Seq::empty()) =~= stored);
                self.lemma_pending(&before, stored);
            }
            return;
        }
        match all_null_or_non_null {
            Nulls::SomeNull => {
                let mut k: usize = 0;
                proof {
                    lemma_appended_nothing(FIXED_BLOCK_SIZING, self.cap(), self.rows());
                    assert(stored.take(0) =~= Seq::<Option<N>>::empty());
                }
                while k < rows.len()
                    invariant
                        NULLABLE,
                        before.wf(),
                        column.wf(),
                        forall|k: int|
                            0 <= k < rows@.len() ==> (#[trigger] rows@[k]) < column.values@.len(),
                        concat(before.rows()).len() + rows@.len() <= usize::MAX,
                        0 <= k <= rows@.len(),
                        stored == column.stored(NULLABLE, rows@),
                        before.added(stored.take(k as int), self),
                        k > 0 ==> self.pending() == (FIXED_BLOCK_SIZING && self.rows().last().len()
                            == 0),
                    decreases rows@.len() - k,
                {
                    proof {
                        before.lemma_wf();
                        lemma_appended(
                            FIXED_BLOCK_SIZING,
                            before.cap(),
                            before.rows(),
                            stored.take(k as int),
                        );
                        lemma_appended_twice(
                            FIXED_BLOCK_SIZING,
                            before.cap(),
                            before.rows(),
                            stored.take(k as int),
                            seq![stored[k as int]],
                        );
                        assert(stored.take(k as int) + seq![stored[k as int]] =~= stored.take(
                            k + 1,
                        ));
                    }
                    self.append_val(column, rows[k]);
                    k += 1;
                }
                assert(stored.take(k as int) =~= stored);
            },
            Nulls::NoNull => {
                self.nulls.push_n(rows.len(), true);
                self.append_values(column, rows);
                proof {
                    let values = canonical_values(column, rows@);
                    let valid = same_bits(true, rows@.len());
                    before.lemma_added(values, valid, self);
                    assert forall|k: int| 0 <= k < rows@.len() implies !column.is_null_at(
                        #[trigger] rows@[k] as int,
                    ) by {}
                    assert(optional(true, values, valid) =~= stored);
                    self.lemma_pending(&before, stored);
                }
            },
            Nulls::AllNull => {
                self.nulls.push_n(rows.len(), false);
                self.append_zeros(rows.len());
                proof {
                    let values = zeros::<N>(rows@.len());
                    let valid = same_bits(false, rows@.len());
                    before.lemma_added(values, valid, self);
                    assert forall|k: int| 0 <= k < rows@.len() implies column.is_null_at(
                        #[trigger] rows@[k] as int,
                    ) by {}
                    assert(optional(true, values, valid) =~= stored);
                    self.lemma_pending(&before, stored);
                }
            },
        }
    }

    /// Adds zeros to the values alone.
    fn append_zeros(&mut self, n: usize)
        requires
            old(self).group_values.0.wf(),
            n > 0,
            old(self).group_values.0.items().len() + n <= usize::MAX,
        ensures
            final(self).nulls == old(self).nulls,
            old(self).group_values.0.added(zeros::<N>(n as nat), &final(self).group_values.0),
            final(self).group_values.0.pending() == (FIXED_BLOCK_SIZING
                && final(self).group_values.0.blocks().last().len() == 0),
    {
        let ghost before = *self;
        let ghost cap = before.group_values.0.cap();
        let ghost blocks = before.group_values.0.blocks();
        let mut k: usize = 0;
        proof {
            self.group_values.0.lemma_wf();
            lemma_appended_nothing(FIXED_BLOCK_SIZING, cap, blocks);
            assert(zeros::<N>(0) =~= Seq::<N>::empty());
        }
        while k < n
            invariant
                before.group_values.0.wf(),
                cap == before.group_values.0.cap(),
                blocks == before.group_values.0.blocks(),
                before.group_values.0.items().len() + n <= usize::MAX,
                0 <= k <= n,
                self.nulls == before.nulls,
                before.group_values.0.added(zeros::<N>(k as nat), &self.group_values.0),
                k > 0 ==> self.group_values.0.pending() == (FIXED_BLOCK_SIZING
                    && self.group_values.0.blocks().last().len() == 0),
            decreases n - k,
        {
            let ghost now = self.group_values.0.blocks();
            let ghost done = zeros::<N>(k as nat);
            let ghost item = seq![N::zero()];
            proof {
                before.group_values.0.lemma_wf();
                self.group_values.0.lemma_wf();
                lemma_appended(FIXED_BLOCK_SIZING, cap, blocks, done);
                lemma_appended_twice(FIXED_BLOCK_SIZING, cap, blocks, done, item);
                lemma_appended_within(FIXED_BLOCK_SIZING, cap, now, item);
                assert(done + item =~= zeros::<N>((k + 1) as nat));
            }
            self.group_values.0.push(N::default_value());
            k += 1;
        }
    }

    /// Adds the values of some rows to the values alone.
    fn append_values(&mut self, column: &PrimitiveColumn<'_, N>, rows: &[usize])
        requires
            old(self).group_values.0.wf(),
            rows@.len() > 0,
            forall|k: int|
                0 <= k < rows@.len() ==> (#[trigger] rows@[k]) < column.values@.len(),
            old(self).group_values.0.items().len() + rows@.len() <= usize::MAX,
        ensures
            final(self).nulls == old(self).nulls,
            old(self).group_values.0.added(
                canonical_values(column, rows@),
                &final(self).group_values.0,
            ),
            final(self).group_values.0.pending() == (FIXED_BLOCK_SIZING
                && final(self).group_values.0.blocks().last().len() == 0),
    {
        let ghost before = *self;
        let ghost values = canonical_values(column, rows@);
        let ghost cap = before.group_values.0.cap();
        let ghost blocks = before.group_values.0.blocks();
        let mut k: usize = 0;
        proof {
            self.group_values.0.lemma_wf();
            lemma_appended_nothing(FIXED_BLOCK_SIZING, cap, blocks);
            assert(values.take(0) =~= Seq::<N>::empty());
        }
        while k < rows.len()
            invariant
                before.group_values.0.wf(),
                cap == before.group_values.0.cap(),
                blocks == before.group_values.0.blocks(),
                forall|k: int|
                    0 <= k < rows@.len() ==> (#[trigger] rows@[k]) < column.values@.len(),
                before.group_values.0.items().len() + rows@.len() <= usize::MAX,
                0 <= k <= rows@.len(),
                values == canonical_values(column, rows@),
                self.nulls == before.nulls,
                before.group_values.0.added(values.take(k as int), &self.group_values.0),
                k > 0 ==> self.group_values.0.pending() == (FIXED_BLOCK_SIZING
                    && self.group_values.0.blocks().last().len() == 0),
            decreases rows@.len() - k,
        {
            let ghost now = self.group_values.0.blocks();
            let ghost item = seq![values[k as int]];
            proof {
                before.group_values.0.lemma_wf();
                self.group_values.0.lemma_wf();
                lemma_appended(FIXED_BLOCK_SIZING, cap, blocks, values.take(k as int));
                lemma_appended_twice(FIXED_BLOCK_SIZING, cap, blocks, values.take(k as int), item);
                lemma_appended_within(FIXED_BLOCK_SIZING, cap, now, item);
                assert(values.take(k as int) + item =~= values.take(k + 1));
            }
            let value: N = column.values[rows[k]].canonicalize();
            self.group_values.0.push(value);
            k += 1;
        }
        assert(values.take(k as int) =~= values);
    }

    /// The last block is pending exactly if it was opened because the one before is full.
    proof fn lemma_pending(&self, before: &Self, rows: Seq<Option<N>>)
        requires
            before.wf(),
            before.added(rows, self),
            self.group_values.0.pending() == (FIXED_BLOCK_SIZING
                && self.group_values.0.blocks().last().len() == 0),
        ensures
            self.pending() == (FIXED_BLOCK_SIZING && self.rows().last().len() == 0),
    {
        self.lemma_wf();
        let n = self.rows().len() - 1;
        assert(self.rows()[n].len() == self.group_values.0.blocks()[n].len());
    }

    /// Whether there is a value or a null at a position.
    pub fn has_position(&self, index: BlocksIndex) -> (found: bool)
        ensures
            found == self.has(index),
    {
        self.group_values.0.has_position(index)
    }

    /// Bytes that the builder has allocated, or the largest number there is if they are more than
    /// that.
    pub fn size(&self) -> (bytes: usize)
        requires
            self.wf(),
        ensures
            exists|values: usize, nulls: usize|
                {
                    &&& #[trigger] is_queue_size(
                        values,
                        size_of::<Vec<N>>(),
                        items_bytes(size_of::<N>(), self.rows()),
                    )
                    &&& #[trigger] is_queue_size(
                        nulls,
                        size_of::<NullBufferBuilder>(),
                        bitmaps_bytes(self.stored_validity()),
                    )
                    &&& bytes == saturated((values + nulls) as nat)
                },
    {
        let values: usize = self.group_values.0.allocated_size();
        let nulls: usize = self.nulls.allocated_size();
        proof {
            self.lemma_lens();
            let blocks = self.group_values.0.blocks();
            assert(bytes_in_blocks::<Vec<N>>(blocks) =~= items_bytes(size_of::<N>(), self.rows()));
            assert(self.nulls.blocks() =~= self.stored_validity()) by {
                assert forall|b: int| NULLABLE && 0 <= b < blocks.len() implies (
                #[trigger] self.nulls.blocks()[b]) =~= self.stored_validity()[b] by {
                    assert(self.nulls.blocks()[b].len() == blocks[b].len());
                }
            }
        }
        values.saturating_add(nulls)
    }

    /// Takes the first block. `None` if all blocks were taken.
    pub fn take_block(&mut self) -> (taken: Option<PrimitiveBlock<N>>)
        requires
            old(self).wf(),
        ensures
            taken is Some <==> !old(self).pending() || old(self).rows().len() > 1,
            match taken {
                Some(block) => {
                    &&& block.holds(old(self).rows()[0])
                    &&& final(self).wf()
                    &&& final(self).cap() == old(self).cap()
                    &&& final(self).rows() == if old(self).rows().len() == 1 {
                        seq![Seq::<Option<N>>::empty()]
                    } else {
                        old(self).rows().skip(1)
                    }
                    &&& final(self).pending() == (old(self).pending() || old(self).rows().len()
                        == 1)
                },
                None => *final(self) == *old(self),
            },
    {
        let ghost before = *self;
        match self.group_values.0.take_block_finished() {
            Some(values) => {
                let nulls: Option<NullBuffer> = if NULLABLE {
                    match self.nulls.take_block() {
                        Some(nulls) => nulls,
                        None => None,
                    }
                } else {
                    None
                };
                let block = PrimitiveBlock { values, nulls };
                proof {
                    before.lemma_lens();
                    let rows = before.rows()[0];
                    let valid = Seq::new(rows.len(), |i: int| rows[i] is Some);
                    if NULLABLE {
                        assert(before.nulls.blocks()[0].len()
                            == before.group_values.0.blocks()[0].len());
                        assert(valid =~= before.nulls.blocks()[0]);
                        before.lemma_zero_at_nulls(self);
                    } else {
                        lemma_no_nulls(valid);
                        assert(valid =~= same_bits(true, valid.len()));
                    }
                    let rest = if before.rows().len() == 1 {
                        seq![Seq::<Option<N>>::empty()]
                    } else {
                        before.rows().skip(1)
                    };
                    if NULLABLE {
                        assert forall|b: int| 0 <= b < self.nulls.blocks().len() implies (
                        #[trigger] self.nulls.blocks()[b]).len()
                            == self.group_values.0.blocks()[b].len() by {
                            if before.rows().len() > 1 {
                                assert(before.nulls.blocks()[b + 1].len()
                                    == before.group_values.0.blocks()[b + 1].len());
                            }
                        }
                    }
                    assert forall|b: int| 0 <= b < rest.len() implies self.rows()[b]
                        == rest[b] by {
                        assert(self.rows()[b] =~= rest[b]);
                    }
                    assert(self.rows() =~= rest);
                }
                Some(block)
            },
            None => None,
        }
    }

    /// Zeros stand for the nulls of the first block, and of those behind it.
    proof fn lemma_zero_at_nulls(&self, after: &Self)
        requires
            NULLABLE,
            self.wf(),
            self.group_values.0.without_first_block(&after.group_values.0),
            self.nulls.without_first_block(&after.nulls),
        ensures
            zero_at_nulls(self.group_values.0.blocks()[0], self.nulls.blocks()[0]),
            zero_at_nulls(after.group_values.0.items(), after.nulls.items()),
    {
        let values = self.group_values.0.blocks();
        let valid = self.nulls.blocks();
        self.lemma_lens();
        assert(valid[0].len() == values[0].len());
        lemma_concat_first(values);
        lemma_concat_first(valid);
        let n = values[0].len();
        let all_values = self.group_values.0.items();
        let all_valid = self.nulls.items();
        assert forall|k: int| 0 <= k < n && !valid[0][k] implies (#[trigger] values[0][k])
            == N::zero() by {
            assert(all_values[k] == values[0][k] && all_valid[k] == valid[0][k]);
        }
        if values.len() == 1 {
            lemma_concat_one(Seq::<N>::empty());
        } else {
            let rest = concat(values.skip(1));
            let rest_valid = concat(valid.skip(1));
            assert forall|k: int| 0 <= k < rest.len() && !rest_valid[k] implies (
            #[trigger] rest[k]) == N::zero() by {
                assert(all_values[n + k] == rest[k] && all_valid[n + k] == rest_valid[k]);
            }
        }
    }

    /// Takes the first `n` values of the only block; the others move up.
    pub fn take_n(&mut self, n: usize) -> (taken: PrimitiveBlock<N>)
        requires
            old(self).wf(),
            !FIXED_BLOCK_SIZING,
            old(self).rows().len() == 1,
            n <= old(self).rows()[0].len(),
        ensures
            taken.holds(old(self).rows()[0].take(n as int)),
            final(self).wf(),
            final(self).cap() == old(self).cap(),
            final(self).rows() == seq![old(self).rows()[0].skip(n as int)],
            final(self).pending() == (n == old(self).rows()[0].len()),
    {
        let ghost before = *self;
        let ghost rows = self.rows()[0];
        proof {
            self.lemma_wf();
            lemma_concat_one(rows);
            assert(self.rows() =~= seq![rows]);
        }
        match self.take_block() {
            Some(block) => {
                let mut values: Vec<N> = block.values;
                let nulls: Option<NullBuffer> = block.nulls;
                let ghost valid = Seq::new(rows.len(), |i: int| rows[i] is Some);
                let rest: Vec<N> = values.split_off(n);
                let mut k: usize = 0;
                proof {
                    assert(rows.subrange(n as int, n as int) =~= Seq::<Option<N>>::empty());
                }
                while k < rest.len()
                    invariant
                        !FIXED_BLOCK_SIZING,
                        0 <= k <= rest@.len(),
                        rest@.len() == rows.len() - n,
                        rows.len() <= usize::MAX,
                        valid == Seq::new(rows.len(), |i: int| rows[i] is Some),
                        is_null_buffer_of(nulls, valid),
                        !NULLABLE ==> forall|i: int|
                            0 <= i < rows.len() ==> #[trigger] rows[i] is Some,
                        forall|i: int|
                            0 <= i < rest@.len() ==> #[trigger] rest@[i] == match rows[n + i] {
                                Some(value) => value,
                                None => N::zero(),
                            },
                        self.wf(),
                        self.cap() == before.cap(),
                        self.rows() == seq![rows.subrange(n as int, n + k)],
                        self.pending() == (k == 0),
                    decreases rest@.len() - k,
                {
                    let ghost now = self.rows();
                    let ghost row = rows[n + k];
                    proof {
                        lemma_concat_one(rows.subrange(n as int, n + k));
                        self.lemma_wf();
                    }
                    let is_valid: bool = match &nulls {
                        Some(nulls) => is_valid_at(nulls, n + k),
                        None => {
                            proof {
                                lemma_no_nulls(valid);
                                assert(same_bits(true, valid.len())[n + k]);
                            }
                            true
                        },
                    };
                    assert(is_valid == valid[n + k]);
                    self.push_row(rest[k], is_valid);
                    proof {
                        assert(rows.subrange(n as int, n + k) + seq![row] =~= rows.subrange(
                            n as int,
                            n + k + 1,
                        ));
                        assert(self.rows() =~= seq![rows.subrange(n as int, n + k + 1)]);
                    }
                    k += 1;
                }
                assert(rows.subrange(n as int, n + k) =~= rows.skip(n as int));
                let nulls: Option<NullBuffer> = match &nulls {
                    Some(nulls) => {
                        let part = slice_nulls(nulls, 0, n);
                        if null_count(&part) > 0 {
                            Some(part)
                        } else {
                            None
                        }
                    },
                    None => None,
                };
                proof {
                    let first = rows.take(n as int);
                    let first_valid = Seq::new(n as nat, |i: int| first[i] is Some);
                    assert(first_valid =~= valid.subrange(0, n as int));
                    if block.nulls is None {
                        lemma_no_nulls(valid);
                        assert(first_valid =~= same_bits(true, n as nat));
                        lemma_no_nulls(first_valid);
                    }
                }
                PrimitiveBlock { values, nulls }
            },
            None => {
                proof {
                    assert(rows.len() == 0);
                    assert(rows.skip(0) =~= rows);
                    assert(Seq::new(0, |i: int| rows[i] is Some) =~= Seq::<bool>::empty());
                    lemma_no_nulls(Seq::<bool>::empty());
                }
                PrimitiveBlock { values: Vec::new(), nulls: None }
            },
        }
    }

    /// Opens a new block. It counts as a block only once something goes into it, and until then no
    /// other can be opened.
    pub fn start_new_block(&mut self)
        requires
            old(self).wf(),
            !old(self).pending(),
        ensures
            final(self).wf(),
            final(self).cap() == old(self).cap(),
            final(self).rows() == old(self).rows().push(Seq::empty()),
            final(self).pending(),
    {
        let ghost before = *self;
        self.group_values.0.start_new_block();
        if NULLABLE {
            self.nulls.start_new_block();
        }
        proof {
            let expected = before.rows().push(Seq::empty());
            assert forall|b: int| 0 <= b < expected.len() implies self.rows()[b] == expected[b] by {
                assert(self.rows()[b] =~= expected[b]);
            }
            assert(self.rows() =~= expected);
            lemma_concat_push(before.group_values.0.blocks(), Seq::empty());
            lemma_concat_push(before.nulls.blocks(), Seq::empty());
            assert(self.group_values.0.items() =~= before.group_values.0.items());
            assert(NULLABLE ==> self.nulls.items() =~= before.nulls.items());
        }
    }

    /// Positions of the builder and rows of the column that are to be compared in pairs.
    pub open spec fn pairs(
        &self,
        lhs_rows: Seq<BlocksIndex>,
        column: &PrimitiveColumn<'_, N>,
        rhs_rows: Seq<usize>,
    ) -> bool {
        &&& column.wf()
        &&& lhs_rows.len() == rhs_rows.len()
        &&& forall|i: int|
            0 <= i < lhs_rows.len() ==> self.has(#[trigger] lhs_rows[i]) && rhs_rows[i]
                < column.values@.len()
    }

    /// The values of a pair are the same.
    pub open spec fn same_pair(
        &self,
        lhs_rows: Seq<BlocksIndex>,
        column: &PrimitiveColumn<'_, N>,
        rhs_rows: Seq<usize>,
        i: int,
    ) -> bool {
        same_row(self.at(lhs_rows[i]), column.row(NULLABLE, rhs_rows[i] as int))
    }

    /// The bit of each pair stays set where the values are the same; all other bits stay as they
    /// are.
    pub open spec fn compared(
        &self,
        lhs_rows: Seq<BlocksIndex>,
        column: &PrimitiveColumn<'_, N>,
        rhs_rows: Seq<usize>,
        before: BooleanBufferBuilder,
        after: BooleanBufferBuilder,
    ) -> bool {
        &&& is_clean(after)
        &&& built_bits(after).len() == built_bits(before).len()
        &&& forall|i: int|
            0 <= i < built_bits(before).len() ==> (#[trigger] built_bits(after)[i]) == (
            built_bits(before)[i] && (i < lhs_rows.len() ==> self.same_pair(
                lhs_rows,
                column,
                rhs_rows,
                i,
            )))
    }
}

/// Blocks of the same shape keep it when as many items are added to each.
proof fn lemma_shape<T, U>(
    fixed: bool,
    cap: nat,
    a: Seq<Seq<T>>,
    b: Seq<Seq<U>>,
    x: Seq<T>,
    y: Seq<U>,
)
    requires
        a.len() == b.len(),
        a.len() > 0,
        fixed ==> cap > 0,
        forall|i: int| 0 <= i < b.len() ==> (#[trigger] b[i]).len() == a[i].len(),
        x.len() == y.len(),
    ensures
        appended(fixed, cap, a, x).len() == appended(fixed, cap, b, y).len(),
        forall|i: int|
            0 <= i < appended(fixed, cap, b, y).len() ==> (#[trigger] appended(
                fixed,
                cap,
                b,
                y,
            )[i]).len() == appended(fixed, cap, a, x)[i].len(),
{
    let n = a.len() - 1;
    let p = appended(fixed, cap, a, x);
    let q = appended(fixed, cap, b, y);
    assert(b[n].len() == a[n].len());
    if fixed {
        lemma_chunks_shape(a.last() + x, b.last() + y, cap);
        let cp = chunks(a.last() + x, cap);
        let cq = chunks(b.last() + y, cap);
        assert forall|i: int| 0 <= i < q.len() implies (#[trigger] q[i]).len() == p[i].len() by {
            if i < n {
                assert(q[i] == b[i] && p[i] == a[i]);
            } else {
                assert(q[i] == cq[i - n] && p[i] == cp[i - n]);
            }
        }
    } else {
        assert forall|i: int| 0 <= i < q.len() implies (#[trigger] q[i]).len() == p[i].len() by {
            if i < n {
                assert(q[i] == b[i] && p[i] == a[i]);
            }
        }
    }
}

proof fn lemma_chunks_shape<T, U>(a: Seq<T>, b: Seq<U>, cap: nat)
    requires
        cap > 0,
        a.len() == b.len(),
    ensures
        ({
            let p = chunks(a, cap);
            let q = chunks(b, cap);
            &&& p.len() == q.len()
            &&& forall|i: int| 0 <= i < q.len() ==> (#[trigger] q[i]).len() == p[i].len()
        }),
    decreases a.len(),
{
    if a.len() >= cap {
        let k = cap as int;
        lemma_chunks_shape(a.skip(k), b.skip(k), cap);
        let p = chunks(a.skip(k), cap);
        let q = chunks(b.skip(k), cap);
        let all_q = seq![b.take(k)] + q;
        assert forall|i: int| 0 <= i < all_q.len() implies (#[trigger] all_q[i]).len() == (
        seq![a.take(k)] + p)[i].len() by {
            if i > 0 {
                assert(q[i - 1].len() == p[i - 1].len());
            }
        }
    }
}

/// Comparing many values at once gives what comparing each gives, as long as they come in as they
/// are stored.
pub proof fn law_comparing_at_once<
    const FIXED_BLOCK_SIZING: bool,
    N: NativeValue,
    const NULLABLE: bool,
>(
    builder: PrimitiveGroupValueBuilder<FIXED_BLOCK_SIZING, N, NULLABLE>,
    lhs_rows: Seq<BlocksIndex>,
    column: &PrimitiveColumn<'_, N>,
    rhs_rows: Seq<usize>,
    i: int,
)
    requires
        builder.pairs(lhs_rows, column, rhs_rows),
        0 <= i < lhs_rows.len(),
        column.values@[rhs_rows[i] as int].canonical() == column.values@[rhs_rows[i] as int],
    ensures
        builder.same_pair(lhs_rows, column, rhs_rows, i) == same_row(
            builder.at(lhs_rows[i]),
            canonical_row(column.row(NULLABLE, rhs_rows[i] as int)),
        ),
{
}

} // verus!
