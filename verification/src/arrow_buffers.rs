//! Arrow's packed bit buffers: what the builders rely on.

use crate::blocked_helpers::bits::{bit_at, bits_in};
use crate::blocked_helpers::offset_size::{is_offsets_of, total};
use arrow::array::{BooleanBufferBuilder, NullBufferBuilder};
use arrow::buffer::{BooleanBuffer, Buffer, NullBuffer, OffsetBuffer};
use arrow::util::bit_util::apply_bitwise_binary_op;
use vstd::prelude::*;

verus! {

#[verifier::external_type_specification]
#[verifier::external_body]
pub struct ExBooleanBufferBuilder(BooleanBufferBuilder);

#[verifier::external_type_specification]
#[verifier::external_body]
pub struct ExBooleanBuffer(BooleanBuffer);

#[verifier::external_type_specification]
#[verifier::external_body]
pub struct ExNullBufferBuilder(NullBufferBuilder);

#[verifier::external_type_specification]
#[verifier::external_body]
pub struct ExNullBuffer(NullBuffer);

#[verifier::external_type_specification]
#[verifier::external_body]
pub struct ExBuffer(Buffer);

/// The bytes that the builder has written its bits to.
pub uninterp spec fn packed_bytes(builder: BooleanBufferBuilder) -> Seq<u8>;

/// The number of bits in the builder.
pub uninterp spec fn bit_len(builder: BooleanBufferBuilder) -> nat;

/// The bits of a finished buffer.
pub uninterp spec fn boolean_values(buffer: BooleanBuffer) -> Seq<bool>;

/// For each item in the builder, whether it is valid.
pub uninterp spec fn validity_built(builder: NullBufferBuilder) -> Seq<bool>;

/// For each item of a null buffer, whether it is valid.
pub uninterp spec fn validity(buffer: NullBuffer) -> Seq<bool>;

/// The bytes of a buffer.
pub uninterp spec fn buffer_bytes(buffer: Buffer) -> Seq<u8>;

/// The bits in the builder.
pub open spec fn built_bits(builder: BooleanBufferBuilder) -> Seq<bool> {
    bits_in(packed_bytes(builder), 0, bit_len(builder) as int)
}

/// The builder has just the bytes that its bits need, and the unused bits of the last one are
/// zero, as adding to it relies on.
pub open spec fn is_clean(builder: BooleanBufferBuilder) -> bool {
    &&& bit_len(builder) <= usize::MAX
    &&& packed_bytes(builder).len() == (bit_len(builder) + 7) / 8
    &&& forall|i: int|
        bit_len(builder) <= i < packed_bytes(builder).len() * 8 ==> !#[trigger] bit_at(
            packed_bytes(builder),
            i,
        )
}

/// How many of the items are null.
pub open spec fn count_nulls(valid: Seq<bool>) -> nat
    decreases valid.len(),
{
    if valid.len() == 0 {
        0
    } else {
        count_nulls(valid.drop_last()) + if valid.last() {
            0nat
        } else {
            1nat
        }
    }
}

/// `n` times the same bit.
pub open spec fn same_bits(bit: bool, n: nat) -> Seq<bool> {
    Seq::new(n, |i: int| bit)
}

/// `BooleanBufferBuilder::new`: a builder without bits or bytes, whatever the capacity.
#[verifier::external_body]
pub(crate) fn new_bits(capacity: usize) -> (builder: BooleanBufferBuilder)
    ensures
        packed_bytes(builder) == Seq::<u8>::empty(),
        bit_len(builder) == 0,
{
    BooleanBufferBuilder::new(capacity)
}

/// `BooleanBufferBuilder::len`: the number of bits.
#[verifier::external_body]
pub(crate) fn bits_len(builder: &BooleanBufferBuilder) -> (len: usize)
    ensures
        len == bit_len(*builder),
{
    builder.len()
}

/// `BooleanBufferBuilder::capacity`: the number of bits that the allocated bytes have room for.
///
/// How far it goes beyond the bytes in use is up to the allocation; claimed is only that it
/// covers them.
#[verifier::external_body]
pub(crate) fn bits_capacity(builder: &BooleanBufferBuilder) -> (bits: usize)
    ensures
        bits >= packed_bytes(*builder).len() * 8,
{
    builder.capacity()
}

/// `BooleanBufferBuilder::append`: one more bit.
#[verifier::external_body]
pub(crate) fn append_bit(builder: &mut BooleanBufferBuilder, bit: bool)
    requires
        is_clean(*old(builder)),
        bit_len(*old(builder)) < usize::MAX,
    ensures
        is_clean(*final(builder)),
        built_bits(*final(builder)) == built_bits(*old(builder)).push(bit),
{
    builder.append(bit)
}

/// `BooleanBufferBuilder::append_n`: the same bit `n` times.
#[verifier::external_body]
pub(crate) fn append_bits(builder: &mut BooleanBufferBuilder, n: usize, bit: bool)
    requires
        is_clean(*old(builder)),
        bit_len(*old(builder)) + n <= usize::MAX,
    ensures
        is_clean(*final(builder)),
        built_bits(*final(builder)) == built_bits(*old(builder)) + same_bits(bit, n as nat),
{
    builder.append_n(n, bit)
}

/// `BooleanBufferBuilder::append_packed_range`: the bits of `packed` from `start` up to `end`.
///
/// It panics where `packed` has too few bytes, which is excluded.
#[verifier::external_body]
pub(crate) fn append_packed(
    builder: &mut BooleanBufferBuilder,
    start: usize,
    end: usize,
    packed: &[u8],
)
    requires
        is_clean(*old(builder)),
        start <= end <= packed@.len() * 8,
        bit_len(*old(builder)) + (end - start) <= usize::MAX,
    ensures
        is_clean(*final(builder)),
        built_bits(*final(builder)) == built_bits(*old(builder)) + bits_in(
            packed@,
            start as int,
            end as int,
        ),
{
    builder.append_packed_range(start..end, packed)
}

/// `BooleanBufferBuilder::get_bit`. It panics past the bytes of the builder, which is excluded.
#[verifier::external_body]
pub(crate) fn get_bit(builder: &BooleanBufferBuilder, index: usize) -> (bit: bool)
    requires
        is_clean(*builder),
        index < bit_len(*builder),
    ensures
        bit == built_bits(*builder)[index as int],
{
    builder.get_bit(index)
}

/// `BooleanBufferBuilder::set_bit`. It panics past the bytes of the builder, which is excluded.
#[verifier::external_body]
pub(crate) fn set_bit(builder: &mut BooleanBufferBuilder, index: usize, bit: bool)
    requires
        is_clean(*old(builder)),
        index < bit_len(*old(builder)),
    ensures
        is_clean(*final(builder)),
        built_bits(*final(builder)) == built_bits(*old(builder)).update(index as int, bit),
{
    builder.set_bit(index, bit)
}

/// `BooleanBufferBuilder::truncate`: the first `len` bits. It clears the bits behind them.
#[verifier::external_body]
pub(crate) fn truncate_bits(builder: &mut BooleanBufferBuilder, len: usize)
    requires
        len <= bit_len(*old(builder)) <= packed_bytes(*old(builder)).len() * 8,
    ensures
        is_clean(*final(builder)),
        built_bits(*final(builder)) == built_bits(*old(builder)).take(len as int),
{
    builder.truncate(len)
}

/// `BooleanBufferBuilder::as_slice`: the bytes in use.
#[verifier::external_body]
pub(crate) fn packed_slice(builder: &BooleanBufferBuilder) -> (packed: &[u8])
    ensures
        packed@ == packed_bytes(*builder),
{
    builder.as_slice()
}

/// `BooleanBufferBuilder::as_slice_mut`: the bytes in use, for writing. What is written to them
/// is what the builder holds; the number of bits stays.
#[verifier::external_body]
pub(crate) fn packed_slice_mut(builder: &mut BooleanBufferBuilder) -> (packed: &mut [u8])
    ensures
        packed@ == packed_bytes(*old(builder)),
        packed_bytes(*final(builder)) == final(packed)@,
        bit_len(*final(builder)) == bit_len(*old(builder)),
{
    builder.as_slice_mut()
}

/// Two words, bit by bit.
fn and_words(a: u64, b: u64) -> (both: u64)
    ensures
        both == a & b,
{
    a & b
}

/// `apply_bitwise_binary_op` with "and", from the first bit of both on: the first `n` bits of
/// `left` stay set only where they are set in `right`, the others stay as they are.
///
/// Excluded are a slice with too few bytes, where it panics, and a number of bits that ends within
/// a byte, where it may clear the other bits of that byte.
#[verifier::external_body]
pub(crate) fn and_packed(left: &mut [u8], right: &[u8], n: usize)
    requires
        n % 8 == 0,
        n <= old(left)@.len() * 8,
        n <= right@.len() * 8,
    ensures
        final(left)@.len() == old(left)@.len(),
        forall|i: int|
            0 <= i < old(left)@.len() * 8 ==> #[trigger] bit_at(final(left)@, i) == (bit_at(
                old(left)@,
                i,
            ) && (i < n ==> bit_at(right@, i))),
{
    apply_bitwise_binary_op(left, 0, right, 0, n, |a, b| and_words(a, b))
}

/// `BooleanBufferBuilder::finish`: the bits as a buffer.
#[verifier::external_body]
pub(crate) fn finish_bits(builder: BooleanBufferBuilder) -> (buffer: BooleanBuffer)
    requires
        is_clean(builder),
    ensures
        boolean_values(buffer) == built_bits(builder),
{
    let mut builder = builder;
    builder.finish()
}

/// `NullBufferBuilder::new`: a builder without items, whatever the capacity.
#[verifier::external_body]
pub(crate) fn new_nulls(capacity: usize) -> (builder: NullBufferBuilder)
    ensures
        validity_built(builder) == Seq::<bool>::empty(),
{
    NullBufferBuilder::new(capacity)
}

/// `NullBufferBuilder::len`: the number of items.
#[verifier::external_body]
pub(crate) fn nulls_len(builder: &NullBufferBuilder) -> (len: usize)
    ensures
        len == validity_built(*builder).len(),
{
    builder.len()
}

/// `NullBufferBuilder::allocated_size`: the bytes that the builder has allocated.
///
/// They are an eighth of the bits that the bitmap has room for, or none without a bitmap. How far
/// they go beyond the bytes in use is up to the allocation; claimed is only that a bitmap with a
/// null covers all items, and what an eighth of a number can be.
#[verifier::external_body]
pub(crate) fn nulls_allocated_size(builder: &NullBufferBuilder) -> (bytes: usize)
    ensures
        bytes <= usize::MAX / 8,
        count_nulls(validity_built(*builder)) > 0 ==> bytes * 8 >= validity_built(*builder).len(),
{
    builder.allocated_size()
}

/// `NullBufferBuilder::append`: one more item.
#[verifier::external_body]
pub(crate) fn append_validity(builder: &mut NullBufferBuilder, is_valid: bool)
    requires
        validity_built(*old(builder)).len() < usize::MAX,
    ensures
        validity_built(*final(builder)) == validity_built(*old(builder)).push(is_valid),
{
    builder.append(is_valid)
}

/// `NullBufferBuilder::append_n_non_nulls`: `n` more valid items.
#[verifier::external_body]
pub(crate) fn append_n_non_nulls(builder: &mut NullBufferBuilder, n: usize)
    requires
        validity_built(*old(builder)).len() + n <= usize::MAX,
    ensures
        validity_built(*final(builder)) == validity_built(*old(builder)) + same_bits(
            true,
            n as nat,
        ),
{
    builder.append_n_non_nulls(n)
}

/// `NullBufferBuilder::append_n_nulls`: `n` more nulls.
#[verifier::external_body]
pub(crate) fn append_n_nulls(builder: &mut NullBufferBuilder, n: usize)
    requires
        validity_built(*old(builder)).len() + n <= usize::MAX,
    ensures
        validity_built(*final(builder)) == validity_built(*old(builder)) + same_bits(
            false,
            n as nat,
        ),
{
    builder.append_n_nulls(n)
}

/// `NullBufferBuilder::append_buffer`: the items of a null buffer.
#[verifier::external_body]
pub(crate) fn append_null_buffer(builder: &mut NullBufferBuilder, buffer: &NullBuffer)
    requires
        validity_built(*old(builder)).len() + validity(*buffer).len() <= usize::MAX,
    ensures
        validity_built(*final(builder)) == validity_built(*old(builder)) + validity(*buffer),
{
    builder.append_buffer(buffer)
}

/// `NullBufferBuilder::is_valid`. It may panic past the items of the builder, which is excluded.
#[verifier::external_body]
pub(crate) fn is_valid_built(builder: &NullBufferBuilder, index: usize) -> (is_valid: bool)
    requires
        index < validity_built(*builder).len(),
    ensures
        is_valid == validity_built(*builder)[index as int],
{
    builder.is_valid(index)
}

/// `NullBufferBuilder::as_slice`: whether the builder has a bitmap. Without one, no item is null.
/// With one there may still be none.
#[verifier::external_body]
pub(crate) fn has_bitmap(builder: &NullBufferBuilder) -> (bitmap: bool)
    ensures
        !bitmap ==> count_nulls(validity_built(*builder)) == 0,
{
    builder.as_slice().is_some()
}

/// `NullBufferBuilder::finish`: the items as a null buffer, or none, which is only given where
/// no item is null.
#[verifier::external_body]
pub(crate) fn finish_nulls(builder: NullBufferBuilder) -> (buffer: Option<NullBuffer>)
    ensures
        match buffer {
            Some(buffer) => validity(buffer) == validity_built(builder),
            None => count_nulls(validity_built(builder)) == 0,
        },
{
    let mut builder = builder;
    builder.finish()
}

/// `NullBuffer::len`: the number of items.
#[verifier::external_body]
pub(crate) fn null_buffer_len(buffer: &NullBuffer) -> (len: usize)
    ensures
        len == validity(*buffer).len(),
{
    buffer.len()
}

/// `NullBuffer::null_count`: the number of nulls.
#[verifier::external_body]
pub(crate) fn null_count(buffer: &NullBuffer) -> (count: usize)
    ensures
        count == count_nulls(validity(*buffer)),
{
    buffer.null_count()
}

/// `NullBuffer::is_valid`. It panics past the items of the buffer, which is excluded.
#[verifier::external_body]
pub(crate) fn is_valid_at(buffer: &NullBuffer, index: usize) -> (is_valid: bool)
    requires
        index < validity(*buffer).len(),
    ensures
        is_valid == validity(*buffer)[index as int],
{
    buffer.is_valid(index)
}

/// `NullBuffer::slice`: the `len` items from `offset` on. It panics past the items of the
/// buffer, which is excluded.
#[verifier::external_body]
pub(crate) fn slice_nulls(buffer: &NullBuffer, offset: usize, len: usize) -> (part: NullBuffer)
    requires
        offset + len <= validity(*buffer).len(),
    ensures
        validity(part) == validity(*buffer).subrange(offset as int, offset + len),
{
    buffer.slice(offset, len)
}

/// `NullBuffer::inner`: the buffer with a bit for each item, set where it is valid.
#[verifier::external_body]
pub(crate) fn validity_bits(buffer: &NullBuffer) -> (bits: &BooleanBuffer)
    ensures
        boolean_values(*bits) == validity(*buffer),
{
    buffer.inner()
}

/// `BooleanBuffer::len`: the number of bits.
#[verifier::external_body]
pub(crate) fn boolean_len(buffer: &BooleanBuffer) -> (len: usize)
    ensures
        len == boolean_values(*buffer).len(),
{
    buffer.len()
}

/// `BooleanBuffer::value`. It panics past the bits of the buffer, which is excluded.
#[verifier::external_body]
pub(crate) fn boolean_at(buffer: &BooleanBuffer, index: usize) -> (bit: bool)
    requires
        index < boolean_values(*buffer).len(),
    ensures
        bit == boolean_values(*buffer)[index as int],
{
    buffer.value(index)
}

/// `BooleanBuffer::clone`: the same bits.
#[verifier::external_body]
pub(crate) fn clone_booleans(buffer: &BooleanBuffer) -> (copy: BooleanBuffer)
    ensures
        boolean_values(copy) == boolean_values(*buffer),
{
    buffer.clone()
}

/// `&` on two `BooleanBuffer`s: a bit is set where it is set in both. It panics where they differ
/// in length, which is excluded.
#[verifier::external_body]
pub(crate) fn and_booleans(a: &BooleanBuffer, b: &BooleanBuffer) -> (both: BooleanBuffer)
    requires
        boolean_values(*a).len() == boolean_values(*b).len(),
    ensures
        boolean_values(both) == Seq::new(
            boolean_values(*a).len(),
            |i: int| boolean_values(*a)[i] && boolean_values(*b)[i],
        ),
{
    a & b
}

/// `Buffer::as_slice`: the bytes.
#[verifier::external_body]
pub(crate) fn buffer_slice(buffer: &Buffer) -> (bytes: &[u8])
    ensures
        bytes@ == buffer_bytes(*buffer),
{
    buffer.as_slice()
}

/// `OffsetBuffer::<i32>::from_lengths`: the offsets of items of the given lengths. It panics where
/// they do not fit, which is excluded.
#[verifier::external_body]
pub(crate) fn offsets_from_lengths(lengths: Vec<usize>) -> (offsets: Vec<i32>)
    requires
        total(lengths@.map_values(|len: usize| len as int)) <= i32::MAX,
    ensures
        is_offsets_of(offsets@, lengths@.map_values(|len: usize| len as int)),
{
    OffsetBuffer::<i32>::from_lengths(lengths).to_vec()
}

/// `Buffer::from` on a vector of bytes: a buffer of those bytes.
#[verifier::external_body]
pub(crate) fn buffer_from_bytes(bytes: Vec<u8>) -> (buffer: Buffer)
    ensures
        buffer_bytes(buffer) == bytes@,
{
    Buffer::from(bytes)
}

/// Without a null, every item is valid.
pub proof fn lemma_no_nulls(valid: Seq<bool>)
    ensures
        count_nulls(valid) == 0 <==> valid == same_bits(true, valid.len()),
        count_nulls(valid) <= valid.len(),
    decreases valid.len(),
{
    if valid.len() > 0 {
        lemma_no_nulls(valid.drop_last());
        if count_nulls(valid) == 0 {
            assert(valid =~= valid.drop_last().push(true));
            assert(valid =~= same_bits(true, valid.len()));
        }
        if valid == same_bits(true, valid.len()) {
            assert(valid.drop_last() =~= same_bits(true, (valid.len() - 1) as nat));
        }
    } else {
        assert(valid =~= same_bits(true, 0));
    }
}

} // verus!
