//! A column of byte strings, as views and the buffers that they refer to.

use crate::arrow_buffers::{
    bit_len, buffer_bytes, buffer_slice, built_bits, count_nulls, get_bit, is_clean, is_valid_at,
    lemma_no_nulls, null_count, same_bits, set_bit, slice_nulls, validity,
};
use crate::blocked_helpers::blocked_bytes_buffer_builder::BlockedBytesBufferBuilder;
use crate::blocked_helpers::blocked_custom_input_builder::bytes_in_blocks;
use crate::blocked_helpers::blocked_nulls_builder::{
    bitmaps_bytes, is_null_buffer_of, BlockedNullsBuilder,
};
use crate::blocked_helpers::blocked_vec_builder::BlockedVecBuilder;
use crate::blocked_helpers::take_n_helpers::used_bytes;
use crate::blocked_helpers::layout::{
    appended, concat, lemma_appended, lemma_appended_nothing, lemma_appended_twice,
    lemma_appended_within, lemma_concat_add, lemma_concat_at, lemma_concat_one, lemma_concat_push,
    lemma_sum_first, sum, valid_blocks,
};
use crate::collections::{bytes_equal, deque_at_mut};
use crate::groups_accumulator::BlocksIndex;
use crate::memory::{is_queue_size, items_bytes, saturated};
use crate::multi_group_by::{lemma_same_len, nulls_equal_to, validity_in_blocks};
use crate::multi_group_by::view::{
    extends_buffers, is_view_of, lemma_extends, lemma_inline_views, lemma_string_of, lemma_view,
    lemma_parts_of, lies_at, new_view, parts_of, string_of, view_of, view_parts, MAX_INLINE_VIEW_LEN,
};
use arrow::array::{BooleanBufferBuilder, NullBufferBuilder};
use arrow::buffer::{Buffer, NullBuffer};
use std::collections::VecDeque;
use vstd::layout::size_of;
use vstd::prelude::*;

verus! {

/// The size of a buffer, unless another is asked for.
pub const BYTE_VIEW_MAX_BLOCK_SIZE: usize = 2 * 1024 * 1024;

/// The bytes of each buffer.
pub open spec fn bytes_of_buffers(buffers: Seq<Buffer>) -> Seq<Seq<u8>> {
    buffers.map_values(|buffer: Buffer| buffer_bytes(buffer))
}

/// How many bytes of a row are in a buffer: all of them if it is a string that does not fit into
/// its view.
pub open spec fn buffered_len(row: Option<Seq<u8>>) -> nat {
    match row {
        Some(string) => if string.len() > MAX_INLINE_VIEW_LEN {
            string.len()
        } else {
            0
        },
        None => 0,
    }
}

/// How many bytes of some rows are in buffers.
pub open spec fn buffered_total(rows: Seq<Option<Seq<u8>>>) -> nat
    decreases rows.len(),
{
    if rows.len() == 0 {
        0
    } else {
        buffered_total(rows.drop_last()) + buffered_len(rows.last())
    }
}

/// A column of byte strings that comes in.
pub struct ByteViewColumn<'a> {
    pub views: &'a [u128],
    pub buffers: &'a [Buffer],
    pub nulls: Option<&'a NullBuffer>,
}

impl<'a> ByteViewColumn<'a> {
    pub open spec fn is_null_at(&self, row: int) -> bool {
        match self.nulls {
            Some(nulls) => !validity(*nulls)[row],
            None => false,
        }
    }

    /// Every view stands for a string, but for those of nulls.
    pub open spec fn wf(&self) -> bool {
        &&& self.nulls matches Some(nulls) ==> validity(*nulls).len() == self.views@.len()
        &&& forall|row: int|
            0 <= row < self.views@.len() && !self.is_null_at(row) ==> is_view_of(
                #[trigger] self.views@[row],
                string_of(self.views@[row], bytes_of_buffers(self.buffers@)),
                bytes_of_buffers(self.buffers@),
            )
    }

    /// The string of a row, or nothing if it is null.
    pub open spec fn row(&self, row: int) -> Option<Seq<u8>> {
        if self.is_null_at(row) {
            None
        } else {
            Some(string_of(self.views@[row], bytes_of_buffers(self.buffers@)))
        }
    }

    /// Some of the rows.
    pub open spec fn rows(&self, rows: Seq<usize>) -> Seq<Option<Seq<u8>>> {
        Seq::new(rows.len(), |k: int| self.row(rows[k] as int))
    }

    fn is_null(&self, row: usize) -> (is_null: bool)
        requires
            self.wf(),
            row < self.views@.len(),
        ensures
            is_null == self.is_null_at(row as int),
    {
        match self.nulls {
            Some(nulls) => !is_valid_at(nulls, row),
            None => false,
        }
    }

    /// Whether there are nulls.
    fn has_nulls(&self) -> (nulls: bool)
        requires
            self.wf(),
        ensures
            nulls == exists|row: int|
                0 <= row < self.views@.len() && #[trigger] self.is_null_at(row),
    {
        match self.nulls {
            Some(nulls) => {
                proof {
                    let valid = validity(*nulls);
                    lemma_no_nulls(valid);
                    if count_nulls(valid) == 0 {
                        assert forall|row: int| 0 <= row < valid.len() implies !#[trigger]
                            self.is_null_at(row) by {
                            assert(same_bits(true, valid.len())[row]);
                        }
                    } else if forall|row: int|
                        0 <= row < valid.len() ==> !#[trigger] self.is_null_at(row) {
                        assert forall|row: int| 0 <= row < valid.len() implies valid[row] by {
                            assert(!self.is_null_at(row));
                        }
                        assert(valid =~= same_bits(true, valid.len()));
                    }
                }
                null_count(nulls) != 0
            },
            None => false,
        }
    }

    /// The string of a row that is not in its view.
    fn buffered_string(&self, row: usize) -> (string: &[u8])
        requires
            self.wf(),
            row < self.views@.len(),
            !self.is_null_at(row as int),
            buffered_len(self.row(row as int)) > 0,
        ensures
            string@ == self.row(row as int)->0,
    {
        let parts = view_parts(self.views[row]);
        proof {
            lemma_view(
                self.views@[row as int],
                self.row(row as int)->0,
                bytes_of_buffers(self.buffers@),
                parts,
            );
        }
        let buffer: &[u8] = buffer_slice(&self.buffers[parts.buffer_index as usize]);
        assert(buffer@.len() == buffer.len());
        vstd::slice::slice_subrange(
            buffer,
            parts.offset as usize,
            parts.offset as usize + parts.length as usize,
        )
    }
}

/// A string that is not in its view.
pub open spec fn is_buffered(view: u128) -> bool {
    view % 0x1_0000_0000 > MAX_INLINE_VIEW_LEN
}

/// One of the rows is a string that is not in its view.
pub open spec fn has_buffered(rows: Seq<Option<Seq<u8>>>) -> bool {
    exists|i: int| 0 <= i < rows.len() && buffered_len(#[trigger] rows[i]) > 0
}

proof fn lemma_view_len(view: u128, string: Seq<u8>, buffers: Seq<Seq<u8>>)
    requires
        is_view_of(view, string, buffers),
    ensures
        is_buffered(view) == (string.len() > MAX_INLINE_VIEW_LEN),
{
    let parts = parts_of(view);
    lemma_parts_of(view);
    lemma_view(view, string, buffers, parts);
}

/// Whether a view is of a string that is not in it.
fn refers_to_buffer(view: u128) -> (refers: bool)
    ensures
        refers == is_buffered(view),
{
    view_parts(view).length > MAX_INLINE_VIEW_LEN
}

/// Whether one of the views is of a string that is not in it.
#[verifier::spinoff_prover]
fn any_buffered(views: &Vec<u128>) -> (any: bool)
    ensures
        any == exists|i: int| 0 <= i < views@.len() && is_buffered(#[trigger] views@[i]),
{
    let mut i: usize = 0;
    while i < views.len()
        invariant
            0 <= i <= views@.len(),
            forall|j: int| 0 <= j < i ==> !is_buffered(#[trigger] views@[j]),
        decreases views@.len() - i,
    {
        if refers_to_buffer(views[i]) {
            assert(is_buffered(views@[i as int]));
            return true;
        }
        i += 1;
    }
    false
}

/// Takes the first `count` blocks as buffers.
fn take_buffers(data_blocks: &mut BlockedBytesBufferBuilder, count: usize) -> (buffers: Vec<Buffer>)
    requires
        old(data_blocks).wf(),
        1 <= count <= old(data_blocks).blocks().len(),
    ensures
        final(data_blocks).wf(),
        final(data_blocks).blocks() == if old(data_blocks).blocks().len() == count {
            seq![Seq::<u8>::empty()]
        } else {
            old(data_blocks).blocks().skip(count as int)
        },
        bytes_of_buffers(buffers@) == old(data_blocks).blocks().take(count as int),
{
    let ghost blocks = data_blocks.blocks();
    let mut buffers: Vec<Buffer> = Vec::with_capacity(count);
    let mut k: usize = 0;
    proof {
        assert(blocks.skip(0) =~= blocks);
        assert(bytes_of_buffers(buffers@) =~= blocks.take(0));
    }
    while k < count
        invariant
            0 <= k <= count <= blocks.len(),
            data_blocks.wf(),
            data_blocks.blocks() == if k == blocks.len() {
                seq![Seq::<u8>::empty()]
            } else {
                blocks.skip(k as int)
            },
            bytes_of_buffers(buffers@) == blocks.take(k as int),
        decreases count - k,
    {
        match data_blocks.take_block_finished() {
            Some(buffer) => {
                let ghost before = buffers@;
                buffers.push(buffer);
                proof {
                    assert(bytes_of_buffers(buffers@) =~= bytes_of_buffers(before).push(
                        buffer_bytes(buffer),
                    ));
                    assert(blocks.take(k + 1) =~= blocks.take(k as int).push(blocks[k as int]));
                    assert(blocks.skip(k as int).skip(1) =~= blocks.skip(k + 1));
                }
            },
            None => {},
        }
        k += 1;
    }
    buffers
}

/// A block of byte strings that was taken out of a builder.
pub struct ByteViewBlock {
    pub views: Vec<u128>,
    pub buffers: Vec<Buffer>,
    pub nulls: Option<NullBuffer>,
}

impl ByteViewBlock {
    /// The block holds exactly these strings and nulls. There is a null buffer exactly if there is
    /// a null.
    pub open spec fn holds(&self, rows: Seq<Option<Seq<u8>>>) -> bool {
        &&& self.views@.len() == rows.len()
        &&& is_null_buffer_of(self.nulls, Seq::new(rows.len(), |i: int| rows[i] is Some))
        &&& forall|i: int|
            0 <= i < rows.len() && rows[i] is Some ==> is_view_of(
                #[trigger] self.views@[i],
                rows[i]->0,
                bytes_of_buffers(self.buffers@),
            )
        &&& forall|i: int| 0 <= i < rows.len() && rows[i] is None ==> #[trigger] self.views@[i] == 0
    }
}

/// The numbers from zero on.
fn numbers_up_to(len: usize) -> (numbers: Vec<usize>)
    ensures
        numbers@ == Seq::new(len as nat, |i: int| i as usize),
{
    let mut numbers: Vec<usize> = Vec::with_capacity(len);
    let mut i: usize = 0;
    while i < len
        invariant
            0 <= i <= len,
            numbers@ == Seq::new(i as nat, |i: int| i as usize),
        decreases len - i,
    {
        numbers.push(i);
        i += 1;
        assert(numbers@ =~= Seq::new(i as nat, |i: int| i as usize));
    }
    numbers
}

/// The last rows of a block as a column.
proof fn lemma_block_column(
    block: ByteViewBlock,
    rows: Seq<Option<Seq<u8>>>,
    n: int,
    column: ByteViewColumn<'_>,
)
    requires
        block.holds(rows),
        0 <= n <= rows.len(),
        column.views@ == block.views@.skip(n),
        column.buffers@ == block.buffers@,
        match block.nulls {
            Some(nulls) => column.nulls matches Some(rest) && validity(*rest) == validity(
                nulls,
            ).subrange(n, rows.len() as int),
            None => column.nulls is None,
        },
    ensures
        column.wf(),
        forall|k: int| 0 <= k < rows.len() - n ==> #[trigger] column.row(k) == rows[n + k],
{
    let buffers = bytes_of_buffers(block.buffers@);
    let valid = Seq::new(rows.len(), |i: int| rows[i] is Some);
    assert forall|k: int| 0 <= k < rows.len() - n implies column.is_null_at(k) == (rows[n
        + k] is None) && (!column.is_null_at(k) ==> is_view_of(
        #[trigger] column.views@[k],
        string_of(column.views@[k], buffers),
        buffers,
    ) && column.row(k) == rows[n + k]) by {
        if block.nulls is None {
            lemma_no_nulls(valid);
            assert(same_bits(true, valid.len())[n + k]);
        }
        assert(valid[n + k] == (rows[n + k] is Some));
        if rows[n + k] is Some {
            assert(is_view_of(block.views@[n + k], rows[n + k]->0, buffers));
            lemma_string_of(column.views@[k], rows[n + k]->0, buffers);
        }
    }
    assert forall|k: int| 0 <= k < rows.len() - n implies #[trigger] column.row(k) == rows[n
        + k] by {
        let view = column.views@[k];
    }
}

/// The block with the first views of another one, which has these rows: the same buffers, unless
/// no view refers to one, and the validity of as many rows.
fn first_views(first: ByteViewBlock, Ghost(rows): Ghost<Seq<Option<Seq<u8>>>>) -> (block:
    ByteViewBlock)
    requires
        first.views@.len() <= rows.len(),
        is_null_buffer_of(first.nulls, Seq::new(rows.len(), |i: int| rows[i] is Some)),
        forall|i: int|
            0 <= i < first.views@.len() && rows[i] is Some ==> is_view_of(
                #[trigger] first.views@[i],
                rows[i]->0,
                bytes_of_buffers(first.buffers@),
            ),
        forall|i: int|
            0 <= i < first.views@.len() && rows[i] is None ==> #[trigger] first.views@[i] == 0,
    ensures
        block.holds(rows.take(first.views@.len() as int)),
        !has_buffered(rows.take(first.views@.len() as int)) ==> block.buffers@.len() == 0,
{
    let views: Vec<u128> = first.views;
    let n: usize = views.len();
    let ghost valid = Seq::new(rows.len(), |i: int| rows[i] is Some);
    let nulls: Option<NullBuffer> = match &first.nulls {
        Some(nulls) => {
            let part = slice_nulls(nulls, 0, n);
            if null_count(&part) > 0 {
                Some(part)
            } else {
                None
            }
        },
        None => None,
    };
    proof {
        let first_valid = Seq::new(n as nat, |i: int| rows.take(n as int)[i] is Some);
        assert(first_valid =~= valid.subrange(0, n as int));
        if first.nulls is None {
            lemma_no_nulls(valid);
            assert(first_valid =~= same_bits(true, n as nat));
            lemma_no_nulls(first_valid);
        }
        assert forall|i: int| 0 <= i < n implies is_buffered(#[trigger] views@[i]) == (buffered_len(
            rows[i],
        ) > 0) by {
            if rows[i] is Some {
                lemma_view_len(views@[i], rows[i]->0, bytes_of_buffers(first.buffers@));
            }
        }
    }
    let buffers: Vec<Buffer> = if any_buffered(&views) {
        proof {
            let i = choose|i: int| 0 <= i < views@.len() && is_buffered(#[trigger] views@[i]);
            assert(buffered_len(rows.take(n as int)[i]) > 0);
        }
        first.buffers
    } else {
        proof {
            assert forall|i: int| 0 <= i < n implies buffered_len(#[trigger] rows[i]) == 0 by {
                assert(!is_buffered(views@[i]));
            }
        }
        Vec::new()
    };
    ByteViewBlock { views, buffers, nulls }
}

/// The bytes in buffers of two stretches of rows add up.
pub proof fn lemma_buffered_add(a: Seq<Option<Seq<u8>>>, b: Seq<Option<Seq<u8>>>)
    ensures
        buffered_total(a + b) == buffered_total(a) + buffered_total(b),
    decreases b.len(),
{
    if b.len() == 0 {
        assert(a + b =~= a);
    } else {
        assert((a + b).drop_last() =~= a + b.drop_last());
        lemma_buffered_add(a, b.drop_last());
    }
}

/// Collects byte strings, block by block, as views and the buffers that they refer to.
///
/// When `FIXED_BLOCK_SIZING` is true every block is closed once it holds `block_size` strings;
/// otherwise the callers decide when a new block starts. Each block has buffers of its own, of
/// which the last one is being written to.
#[derive(Debug)]
pub struct ByteViewGroupValueBuilder<const FIXED_BLOCK_SIZING: bool> {
    views: BlockedVecBuilder<FIXED_BLOCK_SIZING, u128>,
    /// The buffers of all blocks.
    data_blocks: BlockedBytesBufferBuilder,
    /// For each block, the number of its buffers.
    view_blocks_per_block: VecDeque<usize>,
    /// A string goes to the next buffer if it would make the current one longer than this.
    max_block_size: usize,
    nulls: BlockedNullsBuilder<FIXED_BLOCK_SIZING>,
}

impl<const FIXED_BLOCK_SIZING: bool> ByteViewGroupValueBuilder<FIXED_BLOCK_SIZING> {
    /// The first buffer of a block.
    spec fn start(&self, b: int) -> int {
        sum(self.view_blocks_per_block@.take(b)) as int
    }

    /// The buffers of a block.
    pub closed spec fn data(&self, b: int) -> Seq<Seq<u8>> {
        self.data_blocks.blocks().subrange(
            self.start(b),
            self.start(b) + self.view_blocks_per_block@[b],
        )
    }

    /// The buffers of each block.
    pub open spec fn data_of_blocks(&self) -> Seq<Seq<Seq<u8>>> {
        Seq::new(self.rows().len(), |b: int| self.data(b))
    }

    /// The buffers of all blocks, one after the other.
    pub open spec fn buffers(&self) -> Seq<Seq<u8>> {
        concat(self.data_of_blocks())
    }

    /// The buffers of each block once rows are added: each row is written to the buffers of the
    /// block that it goes to, and a block that is opened because the one before is full starts with
    /// an empty buffer of its own.
    pub open spec fn data_with(&self, rows: Seq<Option<Seq<u8>>>) -> Seq<Seq<Seq<u8>>>
        decreases rows.len(),
    {
        if rows.len() == 0 {
            self.data_of_blocks()
        } else {
            let before = self.data_with(rows.drop_last());
            let written = before.drop_last().push(
                with_row(before.last(), rows.last(), self.max_size()),
            );
            if FIXED_BLOCK_SIZING && appended(
                FIXED_BLOCK_SIZING,
                self.cap(),
                self.rows(),
                rows,
            ).last().len() == 0 {
                written.push(seq![Seq::<u8>::empty()])
            } else {
                written
            }
        }
    }

    /// The buffers of all blocks but the last one are the same.
    spec fn same_closed_data(&self, after: &Self) -> bool {
        forall|b: int| 0 <= b < self.rows().len() - 1 ==> #[trigger] after.data(b) == self.data(b)
    }

    spec fn row(&self, b: int, j: int) -> Option<Seq<u8>> {
        if self.nulls.blocks()[b][j] {
            Some(string_of(self.views.0.blocks()[b][j], self.data(b)))
        } else {
            None
        }
    }

    /// The strings and nulls in each block, the block being written to included.
    pub closed spec fn rows(&self) -> Seq<Seq<Option<Seq<u8>>>> {
        Seq::new(
            self.views.0.blocks().len(),
            |b: int| Seq::new(self.views.0.blocks()[b].len(), |j: int| self.row(b, j)),
        )
    }

    /// The number of strings in a full block.
    pub closed spec fn cap(&self) -> nat {
        self.views.0.cap()
    }

    /// The last block is empty and not yet one of those that can be taken.
    pub closed spec fn pending(&self) -> bool {
        self.views.0.pending()
    }

    /// The size of a buffer.
    pub closed spec fn max_size(&self) -> nat {
        self.max_block_size as nat
    }

    /// The number of bytes in all buffers.
    pub closed spec fn data_len(&self) -> nat {
        self.data_blocks.bytes().len()
    }

    /// Views, validity and buffers have the same shape.
    spec fn shaped(&self) -> bool {
        &&& self.views.0.wf()
        &&& self.nulls.wf()
        &&& self.data_blocks.wf()
        &&& self.nulls.cap() == self.views.0.cap()
        &&& self.max_block_size <= u32::MAX
        &&& self.nulls.blocks().len() == self.views.0.blocks().len()
        &&& forall|b: int|
            0 <= b < self.nulls.blocks().len() ==> (#[trigger] self.nulls.blocks()[b]).len()
                == self.views.0.blocks()[b].len()
        &&& self.view_blocks_per_block@.len() == self.views.0.blocks().len()
        &&& forall|b: int|
            0 <= b < self.view_blocks_per_block@.len() ==> (
            #[trigger] self.view_blocks_per_block@[b]) >= 1
        &&& sum(self.view_blocks_per_block@) == self.data_blocks.blocks().len()
    }

    /// The view at a position stands for a string, or is zero where there is a null.
    spec fn viewed(&self, b: int, j: int) -> bool {
        if self.nulls.blocks()[b][j] {
            is_view_of(
                self.views.0.blocks()[b][j],
                string_of(self.views.0.blocks()[b][j], self.data(b)),
                self.data(b),
            )
        } else {
            self.views.0.blocks()[b][j] == 0
        }
    }

    /// All views stand for strings, and the buffers hold only those, but for the last `extra`
    /// bytes.
    spec fn wf_with(&self, extra: nat) -> bool {
        &&& self.shaped()
        &&& forall|b: int, j: int|
            0 <= b < self.views.0.blocks().len() && 0 <= j < self.views.0.blocks()[b].len()
                ==> #[trigger] self.viewed(b, j)
        &&& forall|b: int|
            0 <= b < self.views.0.blocks().len() ==> concat(#[trigger] self.data(b)).len()
                == buffered_total(self.rows()[b]) + if b == self.views.0.blocks().len() - 1 {
                extra
            } else {
                0
            }
    }

    pub closed spec fn wf(&self) -> bool {
        self.wf_with(0)
    }

    /// A position where there is a string or a null.
    pub open spec fn has(&self, index: BlocksIndex) -> bool {
        &&& index.block_index < self.rows().len()
        &&& index.index_in_block < self.rows()[index.block_index as int].len()
    }

    /// What is at a position.
    pub open spec fn at(&self, index: BlocksIndex) -> Option<Seq<u8>> {
        self.rows()[index.block_index as int][index.index_in_block as int]
    }

    /// `after` is this builder with `rows` added behind the others.
    pub open spec fn added(&self, rows: Seq<Option<Seq<u8>>>, after: &Self) -> bool {
        &&& after.wf()
        &&& after.cap() == self.cap()
        &&& after.max_size() == self.max_size()
        &&& after.rows() == appended(FIXED_BLOCK_SIZING, self.cap(), self.rows(), rows)
        &&& after.data_len() == self.data_len() + buffered_total(rows)
        &&& after.data_of_blocks() == self.data_with(rows)
    }

    /// There is room for these rows: rows and bytes can be counted, and so can the buffers of each
    /// block that is written to, with 32 bits.
    pub open spec fn has_room(&self, rows: Seq<Option<Seq<u8>>>) -> bool {
        &&& concat(self.rows()).len() + rows.len() <= usize::MAX
        &&& self.data_len() + buffered_total(rows) <= usize::MAX
        &&& forall|b: int|
            self.rows().len() - 1 <= b < self.data_with(rows).len() ==> (
            #[trigger] self.data_with(rows)[b]).len() <= u32::MAX
    }

    /// The buffers of each block are never fewer with more rows.
    proof fn lemma_data_grows(&self, rows: Seq<Option<Seq<u8>>>, k: int)
        requires
            self.rows().len() > 0,
            0 <= k <= rows.len(),
        ensures
            self.rows().len() <= self.data_with(rows.take(k)).len() <= self.data_with(rows).len(),
            forall|b: int|
                0 <= b < self.data_with(rows.take(k)).len() ==> (#[trigger] self.data_with(
                    rows.take(k),
                )[b]).len() <= self.data_with(rows)[b].len(),
        decreases rows.len(),
    {
        if k == rows.len() {
            assert(rows.take(k) =~= rows);
            if rows.len() > 0 {
                self.lemma_data_grows(rows.drop_last(), 0);
            }
        } else {
            self.lemma_data_grows(rows.drop_last(), k);
            assert(rows.drop_last().take(k) =~= rows.take(k));
        }
    }

    /// Rows that are no more than there can be buffers in the last block always find room for their
    /// bytes there.
    pub proof fn law_few_rows_have_room(&self, rows: Seq<Option<Seq<u8>>>)
        requires
            self.wf(),
            concat(self.rows()).len() + rows.len() <= usize::MAX,
            self.data_len() + buffered_total(rows) <= usize::MAX,
            self.data(self.rows().len() - 1).len() + rows.len() <= u32::MAX,
        ensures
            self.has_room(rows),
    {
        self.lemma_last_data();
        self.lemma_few_rows(rows);
    }

    proof fn lemma_few_rows(&self, rows: Seq<Option<Seq<u8>>>)
        requires
            self.rows().len() > 0,
            self.data(self.rows().len() - 1).len() >= 1,
        ensures
            self.data_with(rows).len() >= self.rows().len(),
            self.data_with(rows).last().len() >= 1,
            forall|b: int|
                self.rows().len() - 1 <= b < self.data_with(rows).len() ==> (
                #[trigger] self.data_with(rows)[b]).len() <= self.data(
                    self.rows().len() - 1,
                ).len() + rows.len(),
        decreases rows.len(),
    {
        if rows.len() > 0 {
            self.lemma_few_rows(rows.drop_last());
            let before = self.data_with(rows.drop_last());
            let after = self.data_with(rows);
            let most = self.data(self.rows().len() - 1).len() + rows.len();
            assert(before[before.len() - 1].len() <= most - 1);
            assert forall|b: int| self.rows().len() - 1 <= b < after.len() implies (
            #[trigger] after[b]).len() <= most by {
                if b < before.len() - 1 {
                    assert(after[b] == before[b]);
                } else if b == before.len() - 1 {
                    assert(after[b] == with_row(before.last(), rows.last(), self.max_size()));
                }
            }
        }
    }

    pub fn new(block_size: usize, max_buffer_block_size: Option<usize>) -> (builder: Self)
        requires
            FIXED_BLOCK_SIZING ==> block_size > 0,
            max_buffer_block_size matches Some(size) ==> size <= u32::MAX,
        ensures
            builder.wf(),
            builder.rows() == seq![Seq::<Option<Seq<u8>>>::empty()],
            builder.data(0) == seq![Seq::<u8>::empty()],
            builder.data_len() == 0,
            builder.cap() == block_size,
            builder.max_size() == match max_buffer_block_size {
                Some(size) => size,
                None => BYTE_VIEW_MAX_BLOCK_SIZE,
            },
            !builder.pending(),
    {
        let mut view_blocks_per_block: VecDeque<usize> = VecDeque::new();
        view_blocks_per_block.push_back(1);
        let builder = ByteViewGroupValueBuilder {
            views: BlockedVecBuilder::new(block_size),
            data_blocks: BlockedBytesBufferBuilder::new(),
            view_blocks_per_block,
            max_block_size: match max_buffer_block_size {
                Some(size) => size,
                None => BYTE_VIEW_MAX_BLOCK_SIZE,
            },
            nulls: BlockedNullsBuilder::new(block_size),
        };
        proof {
            reveal_with_fuel(sum, 2);
            assert(builder.view_blocks_per_block@.take(0) =~= Seq::<usize>::empty());
            assert(builder.view_blocks_per_block@.drop_last() =~= Seq::<usize>::empty());
            assert(builder.data(0) =~= seq![Seq::<u8>::empty()]);
            lemma_concat_one(Seq::<u8>::empty());
            assert(builder.rows() =~= seq![Seq::<Option<Seq<u8>>>::empty()]) by {
                assert(builder.rows()[0] =~= Seq::<Option<Seq<u8>>>::empty());
            }
        }
        builder
    }

    /// Sets the size of a buffer.
    pub fn with_max_block_size(self, max_block_size: usize) -> (builder: Self)
        requires
            self.wf(),
            max_block_size <= u32::MAX,
        ensures
            builder.wf(),
            builder.rows() == self.rows(),
            forall|b: int| builder.data(b) == self.data(b),
            builder.data_len() == self.data_len(),
            builder.cap() == self.cap(),
            builder.max_size() == max_block_size,
            builder.pending() == self.pending(),
    {
        let builder = ByteViewGroupValueBuilder {
            views: self.views,
            data_blocks: self.data_blocks,
            view_blocks_per_block: self.view_blocks_per_block,
            max_block_size,
            nulls: self.nulls,
        };
        proof {
            assert forall|b: int, j: int| builder.viewed(b, j) == self.viewed(b, j) by {}
            builder.lemma_same_rows(&self);
        }
        builder
    }

    /// Where the buffers of a block are.
    proof fn lemma_start(&self, b: int)
        requires
            self.shaped(),
            0 <= b < self.view_blocks_per_block@.len(),
        ensures
            self.start(0) == 0,
            0 <= self.start(b),
            self.start(b) + self.view_blocks_per_block@[b] == self.start(b + 1),
            self.start(b + 1) <= self.data_blocks.blocks().len(),
            (b + 1 < self.view_blocks_per_block@.len()) == (self.start(b + 1)
                < self.data_blocks.blocks().len()),
            self.data(b).len() == self.view_blocks_per_block@[b],
    {
        let sizes = self.view_blocks_per_block@;
        let n = sizes.len() as int;
        assert(sizes.take(0) =~= Seq::<usize>::empty());
        assert(sizes.take(n) =~= sizes);
        lemma_sum_step(sizes, b);
        lemma_sum_part(sizes, b + 1, b + 1);
        if b + 1 < n {
            lemma_sum_step(sizes, b + 1);
            lemma_sum_part(sizes, b + 2, b + 2);
            assert(sizes[b + 1] >= 1);
        }
    }

    /// The rows are the same where the buffers of each block only got more.
    proof fn lemma_kept_rows(&self, after: &Self)
        requires
            after.views == self.views,
            after.nulls == self.nulls,
            forall|b: int, j: int|
                0 <= b < self.views.0.blocks().len() && 0 <= j < self.views.0.blocks()[b].len()
                    ==> #[trigger] self.viewed(b, j),
            forall|b: int|
                0 <= b < self.views.0.blocks().len() ==> extends_buffers(
                    self.data(b),
                    #[trigger] after.data(b),
                ),
        ensures
            after.rows() == self.rows(),
            forall|b: int, j: int|
                0 <= b < self.views.0.blocks().len() && 0 <= j < self.views.0.blocks()[b].len()
                    ==> #[trigger] after.viewed(b, j),
    {
        assert forall|b: int, j: int|
            0 <= b < self.views.0.blocks().len() && 0 <= j
                < self.views.0.blocks()[b].len() implies #[trigger] after.viewed(b, j) && after.row(
            b,
            j,
        ) == self.row(b, j) by {
            assert(self.viewed(b, j));
            if self.nulls.blocks()[b][j] {
                let view = self.views.0.blocks()[b][j];
                let string = string_of(view, self.data(b));
                lemma_extends(view, string, self.data(b), after.data(b));
                lemma_string_of(view, string, after.data(b));
            }
        }
        assert forall|b: int| 0 <= b < self.rows().len() implies after.rows()[b]
            == self.rows()[b] by {
            assert forall|j: int| 0 <= j < self.rows()[b].len() implies after.rows()[b][j]
                == self.rows()[b][j] by {
                assert(after.viewed(b, j));
            }
            assert(after.rows()[b] =~= self.rows()[b]);
        }
        assert(after.rows() =~= self.rows());
    }

    /// The buffers of a block are the same where those up to a later block are.
    proof fn lemma_same_data(&self, after: &Self, n: int, b: int)
        requires
            self.shaped(),
            0 <= b < n < self.view_blocks_per_block@.len(),
            n <= after.view_blocks_per_block@.len(),
            after.view_blocks_per_block@.take(n) == self.view_blocks_per_block@.take(n),
            self.start(n) <= after.data_blocks.blocks().len(),
            after.data_blocks.blocks().take(self.start(n)) == self.data_blocks.blocks().take(
                self.start(n),
            ),
        ensures
            after.data(b) == self.data(b),
    {
        let sizes = self.view_blocks_per_block@;
        let new_sizes = after.view_blocks_per_block@;
        let first = self.start(n);
        self.lemma_start(b);
        self.lemma_start(n);
        assert(new_sizes.take(b) =~= new_sizes.take(n).take(b));
        assert(sizes.take(b) =~= sizes.take(n).take(b));
        assert(new_sizes[b] == new_sizes.take(n)[b]);
        assert(sizes[b] == sizes.take(n)[b]);
        lemma_sum_part(sizes, b + 1, n);
        assert(after.data(b) =~= after.data_blocks.blocks().take(first).subrange(
            self.start(b),
            self.start(b) + sizes[b],
        ));
        assert(self.data(b) =~= self.data_blocks.blocks().take(first).subrange(
            self.start(b),
            self.start(b) + sizes[b],
        ));
    }

    /// Only the buffers of the last block changed, and they only got more.
    proof fn lemma_more_data(&self, after: &Self, extra: nat, more: nat)
        requires
            self.wf_with(extra),
            after.views == self.views,
            after.nulls == self.nulls,
            after.max_block_size == self.max_block_size,
            after.data_blocks.wf(),
            ({
                let n = self.views.0.blocks().len() - 1;
                let sizes = self.view_blocks_per_block@;
                let data = after.data_blocks.blocks();
                let last = data.skip(self.start(n));
                &&& after.view_blocks_per_block@ == sizes.update(n, last.len() as usize)
                &&& last.len() <= usize::MAX
                &&& self.start(n) <= data.len()
                &&& data.take(self.start(n)) == self.data_blocks.blocks().take(self.start(n))
                &&& extends_buffers(self.data(n), last)
                &&& concat(last).len() == concat(self.data(n)).len() + more
            }),
        ensures
            after.wf_with(extra + more),
            after.rows() == self.rows(),
            self.same_closed_data(after),
            after.data(self.views.0.blocks().len() - 1) == after.data_blocks.blocks().skip(
                self.start(self.views.0.blocks().len() - 1),
            ),
    {
        let n = self.views.0.blocks().len() - 1;
        let sizes = self.view_blocks_per_block@;
        let new_sizes = after.view_blocks_per_block@;
        let data = after.data_blocks.blocks();
        let first = self.start(n);
        self.views.0.lemma_wf();
        self.lemma_start(n);
        assert(new_sizes.drop_last() =~= sizes.take(n));
        assert(new_sizes.take(n) =~= sizes.take(n));
        assert(self.data(n).len() >= 1);
        assert(after.data(n) =~= data.skip(first));
        assert forall|b: int| 0 <= b < n implies #[trigger] after.data(b) == self.data(b) by {
            self.lemma_same_data(after, n, b);
        }
        assert forall|b: int| 0 <= b <= n implies extends_buffers(
            self.data(b),
            #[trigger] after.data(b),
        ) by {
            if b < n {
                assert(after.data(b).take(self.data(b).len() as int) =~= self.data(b));
                lemma_extends_self(self.data(b), after.data(b));
            }
        }
        self.lemma_kept_rows(after);
    }

    /// Makes sure that the current buffer has room for a string: if not, a new one is opened.
    fn ensure_in_progress_big_enough(&mut self, value_len: usize)
        requires
            old(self).wf(),
            old(self).data_len() + value_len <= usize::MAX,
            ({
                let last = old(self).data(old(self).rows().len() - 1);
                last.last().len() + value_len > old(self).max_size() ==> last.len() < u32::MAX
            }),
        ensures
            final(self).wf(),
            final(self).views == old(self).views,
            final(self).nulls == old(self).nulls,
            final(self).max_block_size == old(self).max_block_size,
            final(self).rows() == old(self).rows(),
            final(self).data_len() == old(self).data_len(),
            old(self).same_closed_data(final(self)),
            ({
                let last = old(self).data(old(self).rows().len() - 1);
                final(self).data(old(self).rows().len() - 1) == if last.last().len() + value_len
                    > old(self).max_size() {
                    last.push(Seq::empty())
                } else {
                    last
                }
            }),
    {
        let ghost before = *self;
        let ghost n = self.rows().len() - 1;
        let ghost blocks = self.data_blocks.blocks();
        proof {
            self.views.0.lemma_wf();
            self.data_blocks.lemma_wf();
            self.lemma_start(n);
            lemma_concat_at(blocks, blocks.len() - 1);
            assert(self.data(n).last() == blocks.last());
        }
        let require_cap: usize = self.data_blocks.current_block_len() + value_len;
        if require_cap > self.max_block_size {
            self.data_blocks.start_new_block();
            let last: usize = self.view_blocks_per_block.len() - 1;
            let count: usize = self.view_blocks_per_block[last];
            *deque_at_mut(&mut self.view_blocks_per_block, last) = count + 1;
            proof {
                let data = before.data(n);
                let grown = self.data_blocks.blocks();
                let first = before.start(n);
                assert(data =~= blocks.skip(first));
                assert(grown.skip(first) =~= data.push(Seq::empty()));
                assert(grown.take(first) =~= blocks.take(first));
                lemma_concat_push(data, Seq::<u8>::empty());
                assert(data.push(Seq::empty()).take(data.len() as int) =~= data);
                lemma_extends_self(data, data.push(Seq::empty()));
                before.lemma_more_data(self, 0, 0);
                lemma_concat_push(blocks, Seq::<u8>::empty());
            }
        }
    }

    /// Writes a string to the buffers and makes a view of it.
    fn append_bytes(&mut self, value: &[u8]) -> (view: u128)
        requires
            old(self).wf(),
            MAX_INLINE_VIEW_LEN < value@.len() <= u32::MAX,
            old(self).data_len() + value@.len() <= usize::MAX,
            with_string(
                old(self).data(old(self).rows().len() - 1),
                value@,
                old(self).max_size(),
            ).len() <= u32::MAX,
        ensures
            final(self).wf_with(value@.len()),
            final(self).views == old(self).views,
            final(self).nulls == old(self).nulls,
            final(self).max_block_size == old(self).max_block_size,
            final(self).rows() == old(self).rows(),
            final(self).data_len() == old(self).data_len() + value@.len(),
            is_view_of(view, value@, final(self).data(old(self).rows().len() - 1)),
            old(self).same_closed_data(final(self)),
            final(self).data(old(self).rows().len() - 1) == with_string(
                old(self).data(old(self).rows().len() - 1),
                value@,
                old(self).max_size(),
            ),
    {
        let ghost n = self.rows().len() - 1;
        proof {
            self.lemma_last_data();
        }
        self.ensure_in_progress_big_enough(value.len());
        let ghost before = *self;
        proof {
            self.lemma_last_data();
        }
        let last: usize = self.view_blocks_per_block.len() - 1;
        // Relative to the first buffer of the block.
        let buffer_index: usize = self.view_blocks_per_block[last] - 1;
        let offset: usize = self.data_blocks.current_block_len();
        self.data_blocks.extend_from_slice(value);
        let view: u128 = new_view(value, buffer_index as u32, offset as u32);
        proof {
            before.lemma_written(self, value@);
            let data = self.data(n);
            assert(data[buffer_index as int].subrange(offset as int, offset + value@.len())
                =~= value@);
            assert(view_of(value@, buffer_index as u32, offset as u32) == view && lies_at(
                value@,
                data,
                buffer_index as u32,
                offset as u32,
            ));
        }
        view
    }

    /// The buffers of the last block are the last ones.
    proof fn lemma_last_data(&self)
        requires
            self.shaped(),
        ensures
            ({
                let n = self.rows().len() - 1;
                let blocks = self.data_blocks.blocks();
                &&& n >= 0
                &&& n == self.view_blocks_per_block@.len() - 1
                &&& 0 <= self.start(n) < blocks.len()
                &&& self.data(n) == blocks.skip(self.start(n))
                &&& self.data(n).len() == self.view_blocks_per_block@[n]
                &&& self.data(n).len() >= 1
                &&& self.data(n).last() == blocks.last()
            }),
    {
        let n = self.rows().len() - 1;
        let blocks = self.data_blocks.blocks();
        self.views.0.lemma_wf();
        self.lemma_start(n);
        assert(self.view_blocks_per_block@[n] >= 1);
        assert(self.data(n) =~= blocks.skip(self.start(n)));
    }

    /// What a builder is after bytes were written to its last buffer.
    proof fn lemma_written(&self, after: &Self, bytes: Seq<u8>)
        requires
            self.wf(),
            after.views == self.views,
            after.nulls == self.nulls,
            after.max_block_size == self.max_block_size,
            after.view_blocks_per_block == self.view_blocks_per_block,
            self.data_blocks.added(bytes, &after.data_blocks),
        ensures
            after.wf_with(bytes.len()),
            after.rows() == self.rows(),
            after.data_len() == self.data_len() + bytes.len(),
            self.same_closed_data(after),
            ({
                let data = self.data(self.rows().len() - 1);
                after.data(self.rows().len() - 1) == data.drop_last().push(data.last() + bytes)
            }),
    {
        let n = self.rows().len() - 1;
        let first = self.start(n);
        let data = self.data(n);
        let blocks = self.data_blocks.blocks();
        let grown = after.data_blocks.blocks();
        let k = data.len() - 1;
        let new_data = data.update(k, data[k] + bytes);
        self.lemma_last_data();
        assert(grown =~= blocks.update(blocks.len() - 1, blocks.last() + bytes));
        assert(grown.skip(first) =~= new_data);
        assert(grown.take(first) =~= blocks.take(first));
        assert forall|i: int| 0 <= i < data.len() implies {
            &&& (#[trigger] data[i]).len() <= new_data[i].len()
            &&& new_data[i].take(data[i].len() as int) == data[i]
        } by {
            assert(new_data[i].take(data[i].len() as int) =~= data[i]);
        }
        lemma_grown_last(data, bytes);
        lemma_grown_last(blocks, bytes);
        assert(self.view_blocks_per_block@.update(n, data.len() as usize)
            =~= self.view_blocks_per_block@);
        self.lemma_more_data(after, 0, bytes.len());
        assert(new_data =~= data.drop_last().push(data.last() + bytes));
    }

    /// Adds a view, or a null.
    fn push_row(&mut self, view: u128, is_valid: bool, Ghost(string): Ghost<Seq<u8>>)
        requires
            is_valid ==> is_view_of(
                view,
                string,
                old(self).data(old(self).rows().len() - 1),
            ),
            !is_valid ==> view == 0,
            old(self).wf_with(
                buffered_len(
                    if is_valid {
                        Some(string)
                    } else {
                        None
                    },
                ),
            ),
            concat(old(self).rows()).len() < usize::MAX,
        ensures
            final(self).wf(),
            final(self).cap() == old(self).cap(),
            final(self).max_block_size == old(self).max_block_size,
            final(self).rows() == appended(
                FIXED_BLOCK_SIZING,
                old(self).cap(),
                old(self).rows(),
                seq![
                    if is_valid {
                        Some(string)
                    } else {
                        None
                    },
                ],
            ),
            final(self).data_len() == old(self).data_len(),
            final(self).pending() == (FIXED_BLOCK_SIZING && final(self).rows().last().len() == 0),
            final(self).data_of_blocks() == if final(self).pending() {
                old(self).data_of_blocks().push(seq![Seq::<u8>::empty()])
            } else {
                old(self).data_of_blocks()
            },
    {
        let ghost before = *self;
        let ghost n = self.rows().len() - 1;
        proof {
            self.lemma_lens();
        }
        self.nulls.push_validity(is_valid);
        let finished: bool = self.views.0.push(view);
        let ghost mid = *self;
        if finished {
            // The next block has buffers of its own.
            self.data_blocks.start_new_block();
            self.view_blocks_per_block.push_back(1);
        }
        proof {
            before.lemma_pushed(self, view, is_valid, string, finished);
            self.lemma_last_data();
            assert(self.data_of_blocks() =~= if finished {
                before.data_of_blocks().push(seq![Seq::<u8>::empty()])
            } else {
                before.data_of_blocks()
            });
        }
    }

    /// The number of rows.
    /// What holds of the blocks of every builder.
    pub proof fn lemma_wf(&self)
        requires
            self.wf(),
        ensures
            valid_blocks(FIXED_BLOCK_SIZING, self.cap(), self.rows()),
            self.pending() ==> self.rows().last().len() == 0,
            self.data(self.rows().len() - 1).len() >= 1,
    {
        self.lemma_lens();
        self.lemma_last_data();
    }

    proof fn lemma_lens(&self)
        requires
            self.shaped(),
        ensures
            valid_blocks(FIXED_BLOCK_SIZING, self.cap(), self.rows()),
            self.pending() ==> self.rows().last().len() == 0,
            concat(self.rows()).len() == self.views.0.items().len(),
            concat(self.rows()).len() == self.nulls.items().len(),
            concat(self.rows()).len() <= usize::MAX,
    {
        self.views.0.lemma_wf();
        lemma_same_len(self.rows(), self.views.0.blocks());
        lemma_same_len(self.rows(), self.nulls.blocks());
        assert forall|b: int| 0 <= b < self.rows().len() implies (#[trigger] self.rows()[b]).len()
            == self.views.0.blocks()[b].len() by {}
    }

    /// What a builder is after a view, or a null, was added.
    proof fn lemma_pushed(
        &self,
        after: &Self,
        view: u128,
        is_valid: bool,
        string: Seq<u8>,
        finished: bool,
    )
        requires
            is_valid ==> is_view_of(view, string, self.data(self.rows().len() - 1)),
            !is_valid ==> view == 0,
            self.wf_with(
                buffered_len(
                    if is_valid {
                        Some(string)
                    } else {
                        None
                    },
                ),
            ),
            after.max_block_size == self.max_block_size,
            self.views.0.added(seq![view], &after.views.0),
            self.nulls.added(seq![is_valid], &after.nulls),
            finished == (FIXED_BLOCK_SIZING && self.views.0.blocks().last().len() + 1
                == self.views.0.cap()),
            after.data_blocks.wf(),
            after.data_blocks.blocks() == if finished {
                self.data_blocks.blocks().push(Seq::empty())
            } else {
                self.data_blocks.blocks()
            },
            after.view_blocks_per_block@ == if finished {
                self.view_blocks_per_block@.push(1)
            } else {
                self.view_blocks_per_block@
            },
        ensures
            after.wf(),
            after.rows() == appended(
                FIXED_BLOCK_SIZING,
                self.cap(),
                self.rows(),
                seq![
                    if is_valid {
                        Some(string)
                    } else {
                        None
                    },
                ],
            ),
            after.data_len() == self.data_len(),
            finished == (FIXED_BLOCK_SIZING && after.rows().last().len() == 0),
            after.rows().len() == self.rows().len() + if finished {
                1int
            } else {
                0
            },
            forall|b: int| 0 <= b < self.rows().len() ==> #[trigger] after.data(b) == self.data(b),
            finished ==> after.data(self.rows().len() as int) == seq![Seq::<u8>::empty()],
    {
        let n = self.rows().len() - 1;
        let row = if is_valid {
            Some(string)
        } else {
            None
        };
        self.lemma_lens();
        self.views.0.lemma_wf();
        self.nulls.lemma_wf();
        assert(self.nulls.blocks()[n].len() == self.views.0.blocks()[n].len());
        lemma_appended_within(
            FIXED_BLOCK_SIZING,
            self.cap(),
            self.views.0.blocks(),
            seq![view],
        );
        lemma_appended_within(
            FIXED_BLOCK_SIZING,
            self.cap(),
            self.nulls.blocks(),
            seq![is_valid],
        );
        lemma_appended_within(FIXED_BLOCK_SIZING, self.cap(), self.rows(), seq![row]);
        self.lemma_pushed_data(after, finished);
        lemma_concat_push(self.data_blocks.blocks(), Seq::<u8>::empty());
        let views = self.views.0.blocks();
        let new_views = after.views.0.blocks();
        assert forall|b: int, j: int|
            0 <= b < new_views.len() && 0 <= j < new_views[b].len() implies #[trigger] after.viewed(
            b,
            j,
        ) by {
            if b == n && j == views[n].len() {
                if is_valid {
                    lemma_string_of(view, string, self.data(n));
                }
            } else {
                assert(self.viewed(b, j));
            }
        }
        let expected = appended(FIXED_BLOCK_SIZING, self.cap(), self.rows(), seq![row]);
        assert forall|b: int| 0 <= b < expected.len() implies after.rows()[b] == expected[b] by {
            assert forall|j: int| 0 <= j < expected[b].len() implies after.rows()[b][j]
                == expected[b][j] by {
                if b == n && j == views[n].len() {
                    if is_valid {
                        lemma_string_of(view, string, self.data(n));
                    }
                }
            }
            assert(after.rows()[b] =~= expected[b]);
        }
        assert(after.rows() =~= expected);
        assert forall|b: int| 0 <= b < new_views.len() implies concat(
            #[trigger] after.data(b),
        ).len() == buffered_total(after.rows()[b]) by {
            if b < n {
                assert(after.data(b) == self.data(b));
                assert(concat(self.data(b)).len() == buffered_total(self.rows()[b]));
            } else if b == n {
                assert(self.rows()[n].push(row).drop_last() =~= self.rows()[n]);
                assert(expected[n] =~= self.rows()[n].push(row));
            } else {
                lemma_concat_one(Seq::<u8>::empty());
            }
        }
    }

    /// The buffers of each block after a view was added.
    proof fn lemma_pushed_data(&self, after: &Self, finished: bool)
        requires
            self.shaped(),
            after.data_blocks.blocks() == if finished {
                self.data_blocks.blocks().push(Seq::empty())
            } else {
                self.data_blocks.blocks()
            },
            after.view_blocks_per_block@ == if finished {
                self.view_blocks_per_block@.push(1)
            } else {
                self.view_blocks_per_block@
            },
        ensures
            forall|b: int|
                0 <= b < self.view_blocks_per_block@.len() ==> #[trigger] after.data(b)
                    == self.data(b),
            sum(after.view_blocks_per_block@) == after.data_blocks.blocks().len(),
            finished ==> after.data(self.view_blocks_per_block@.len() as int) == seq![
                Seq::<u8>::empty(),
            ],
    {
        let sizes = self.view_blocks_per_block@;
        let new_sizes = after.view_blocks_per_block@;
        let n = sizes.len() as int;
        assert(new_sizes.take(n) =~= sizes);
        assert(sizes.take(n) =~= sizes);
        assert forall|b: int| 0 <= b < n implies #[trigger] after.data(b) == self.data(b) by {
            assert(new_sizes.take(b) =~= sizes.take(b));
            self.lemma_start(b);
            assert(after.data(b) =~= self.data(b));
        }
        if finished {
            assert(new_sizes.drop_last() =~= sizes);
            assert(after.data(n) =~= seq![Seq::<u8>::empty()]);
        }
    }

    /// Adds the string of a row.
    pub fn append_val(&mut self, column: &ByteViewColumn<'_>, row: usize)
        requires
            old(self).wf(),
            column.wf(),
            row < column.views@.len(),
            old(self).has_room(seq![column.row(row as int)]),
        ensures
            old(self).added(seq![column.row(row as int)], final(self)),
            final(self).pending() == (FIXED_BLOCK_SIZING && final(self).rows().last().len() == 0),
    {
        let ghost before = *self;
        let ghost value = column.row(row as int);
        proof {
            self.lemma_last_data();
            self.lemma_lens();
            assert(seq![value].drop_last() =~= Seq::<Option<Seq<u8>>>::empty());
            reveal_with_fuel(buffered_total, 2);
        }
        if column.is_null(row) {
            self.push_row(0, false, Ghost(Seq::empty()));
            assert(before.data_of_blocks().drop_last().push(before.data_of_blocks().last())
                =~= before.data_of_blocks());
        } else {
            self.do_append_val_inner(column, row);
        }
        proof {
            self.lemma_last_data();
            reveal_with_fuel(ByteViewGroupValueBuilder::data_with, 2);
            assert(self.data_of_blocks().last() == self.data(self.rows().len() - 1));
        }
    }

    /// Adds the string of a row that is not null.
    fn do_append_val_inner(&mut self, column: &ByteViewColumn<'_>, row: usize)
        requires
            old(self).wf(),
            column.wf(),
            row < column.views@.len(),
            !column.is_null_at(row as int),
            old(self).has_room(seq![column.row(row as int)]),
        ensures
            final(self).wf(),
            final(self).cap() == old(self).cap(),
            final(self).max_block_size == old(self).max_block_size,
            final(self).rows() == appended(
                FIXED_BLOCK_SIZING,
                old(self).cap(),
                old(self).rows(),
                seq![column.row(row as int)],
            ),
            final(self).data_len() == old(self).data_len() + buffered_len(column.row(row as int)),
            final(self).pending() == (FIXED_BLOCK_SIZING && final(self).rows().last().len() == 0),
            ({
                let data = old(self).data_of_blocks();
                let written = data.drop_last().push(
                    with_row(data.last(), column.row(row as int), old(self).max_size()),
                );
                final(self).data_of_blocks() == if final(self).pending() {
                    written.push(seq![Seq::<u8>::empty()])
                } else {
                    written
                }
            }),
    {
        let ghost before = *self;
        let ghost string = column.row(row as int)->0;
        let input_view: u128 = column.views[row];
        let parts = view_parts(input_view);
        proof {
            self.lemma_last_data();
            lemma_view(input_view, string, bytes_of_buffers(column.buffers@), parts);
            let one = seq![column.row(row as int)];
            assert(one.drop_last() =~= Seq::<Option<Seq<u8>>>::empty());
            reveal_with_fuel(buffered_total, 2);
            reveal_with_fuel(ByteViewGroupValueBuilder::data_with, 2);
            assert(self.data_with(one)[self.rows().len() - 1] == with_row(
                self.data(self.rows().len() - 1),
                one[0],
                self.max_size(),
            ));
        }
        if parts.length <= MAX_INLINE_VIEW_LEN {
            // The view does not refer to a buffer.
            assert(before.data_of_blocks().drop_last().push(before.data_of_blocks().last())
                =~= before.data_of_blocks());
            self.push_row(input_view, true, Ghost(string));
        } else {
            let view: u128 = self.append_bytes(column.buffered_string(row));
            assert(self.data_of_blocks() =~= before.data_of_blocks().drop_last().push(
                self.data(before.rows().len() - 1),
            ));
            self.push_row(view, true, Ghost(string));
        }
    }

    /// Adds the strings of some rows.
    pub fn vectorized_append(&mut self, column: &ByteViewColumn<'_>, rows: &[usize])
        requires
            old(self).wf(),
            column.wf(),
            forall|k: int| 0 <= k < rows@.len() ==> (#[trigger] rows@[k]) < column.views@.len(),
            old(self).has_room(column.rows(rows@)),
        ensures
            old(self).added(column.rows(rows@), final(self)),
            rows@.len() == 0 ==> *final(self) == *old(self),
            final(self).pending() == if rows@.len() == 0 {
                old(self).pending()
            } else {
                FIXED_BLOCK_SIZING && final(self).rows().last().len() == 0
            },
    {
        let ghost before = *self;
        let ghost all = column.rows(rows@);
        let mut k: usize = 0;
        proof {
            self.lemma_lens();
            lemma_appended_nothing(FIXED_BLOCK_SIZING, self.cap(), self.rows());
            assert(all.take(0) =~= Seq::<Option<Seq<u8>>>::empty());
        }
        while k < rows.len()
            invariant
                before.wf(),
                column.wf(),
                forall|k: int| 0 <= k < rows@.len() ==> (#[trigger] rows@[k]) < column.views@.len(),
                all == column.rows(rows@),
                before.has_room(all),
                0 <= k <= rows@.len(),
                before.added(all.take(k as int), self),
                k == 0 ==> *self == before,
                k > 0 ==> self.pending() == (FIXED_BLOCK_SIZING && self.rows().last().len() == 0),
            decreases rows@.len() - k,
        {
            proof {
                before.lemma_lens();
                let done = all.take(k as int);
                let row = all[k as int];
                lemma_appended(FIXED_BLOCK_SIZING, before.cap(), before.rows(), done);
                lemma_appended_twice(
                    FIXED_BLOCK_SIZING,
                    before.cap(),
                    before.rows(),
                    done,
                    seq![row],
                );
                assert(done + seq![row] =~= all.take(k + 1));
                assert(all.take(k + 1).drop_last() =~= done);
                lemma_buffered_part(all, k + 1);
                reveal_with_fuel(buffered_total, 2);
                assert(seq![row].drop_last() =~= Seq::<Option<Seq<u8>>>::empty());
                before.lemma_next_data(all, k as int, self);
            }
            self.append_val(column, rows[k]);
            k += 1;
        }
        assert(all.take(k as int) =~= all);
    }

    /// Once the first rows are added, adding the next one gives what adding it with them gives.
    proof fn lemma_next_data(&self, rows: Seq<Option<Seq<u8>>>, k: int, now: &Self)
        requires
            self.wf(),
            0 <= k < rows.len(),
            self.has_room(rows),
            self.added(rows.take(k), now),
        ensures
            now.data_with(seq![rows[k]]) == self.data_with(rows.take(k + 1)),
            forall|b: int|
                now.rows().len() - 1 <= b < now.data_with(seq![rows[k]]).len() ==> (
                #[trigger] now.data_with(seq![rows[k]])[b]).len() <= u32::MAX,
    {
        let part = rows.take(k + 1);
        let one = seq![rows[k]];
        self.lemma_lens();
        self.lemma_data_grows(rows, k);
        self.lemma_data_grows(rows, k + 1);
        lemma_appended_twice(
            FIXED_BLOCK_SIZING,
            self.cap(),
            self.rows(),
            rows.take(k),
            one,
        );
        assert(part.drop_last() =~= rows.take(k));
        assert(rows.take(k) + one =~= part);
        assert(one.drop_last() =~= Seq::<Option<Seq<u8>>>::empty());
        reveal_with_fuel(ByteViewGroupValueBuilder::data_with, 2);
        assert(now.data_with(Seq::empty()) == self.data_with(part.drop_last()));
        assert(now.data_of_blocks().len() == now.rows().len());
        assert forall|b: int|
            now.rows().len() - 1 <= b < now.data_with(one).len() implies (
        #[trigger] now.data_with(one)[b]).len() <= u32::MAX by {
            assert(self.data_with(part)[b].len() <= self.data_with(rows)[b].len());
        }
    }

    /// The string at a position that is not in its view.
    fn buffered_string(&self, index: BlocksIndex) -> (string: &[u8])
        requires
            self.wf(),
            self.has(index),
            buffered_len(self.at(index)) > 0,
        ensures
            string@ == self.at(index)->0,
    {
        let ghost b = index.block_index as int;
        let view: u128 = *self.views.0.get(index);
        let parts = view_parts(view);
        // The buffer index is relative to the first buffer of the block.
        let first: usize = self.first_buffer(index.block_index());
        proof {
            assert(self.viewed(b, index.index_in_block as int));
            lemma_view(view, self.at(index)->0, self.data(b), parts);
            self.lemma_start(b);
        }
        let block: &Vec<u8> = self.data_blocks.block(first + parts.buffer_index as usize);
        assert(block@ == self.data(b)[parts.buffer_index as int]);
        assert(block@.len() == block.len());
        vstd::slice::slice_subrange(
            block.as_slice(),
            parts.offset as usize,
            parts.offset as usize + parts.length as usize,
        )
    }

    /// The first buffer of a block.
    fn first_buffer(&self, b: usize) -> (first: usize)
        requires
            self.shaped(),
            b < self.view_blocks_per_block@.len(),
        ensures
            first == self.start(b as int),
            first + self.view_blocks_per_block@[b as int] <= usize::MAX,
    {
        let num_buffers: usize = self.data_blocks.num_blocks();
        let mut first: usize = 0;
        let mut k: usize = 0;
        proof {
            self.lemma_start(b as int);
        }
        while k < b
            invariant
                self.shaped(),
                b < self.view_blocks_per_block@.len(),
                0 <= k <= b,
                first == self.start(k as int),
                self.data_blocks.blocks().len() == num_buffers,
            decreases b - k,
        {
            proof {
                self.lemma_start(k as int);
            }
            first += self.view_blocks_per_block[k];
            k += 1;
        }
        first
    }

    /// Compares the string at a position with that of a row.
    ///
    /// If `HAS_NULLS` is false, neither is null; if `HAS_BUFFERS` is false, the string of the row is
    /// in its view.
    fn do_equal_to_inner<const HAS_NULLS: bool, const HAS_BUFFERS: bool>(
        &self,
        lhs_row: BlocksIndex,
        column: &ByteViewColumn<'_>,
        rhs_row: usize,
    ) -> (equal: bool)
        requires
            self.wf(),
            self.has(lhs_row),
            column.wf(),
            rhs_row < column.views@.len(),
            !HAS_NULLS ==> self.at(lhs_row) is Some && column.row(rhs_row as int) is Some,
            !HAS_BUFFERS ==> buffered_len(column.row(rhs_row as int)) == 0,
        ensures
            equal == (self.at(lhs_row) == column.row(rhs_row as int)),
    {
        if HAS_NULLS {
            let exist_null = self.nulls.is_null(lhs_row);
            let input_null = column.is_null(rhs_row);
            if let Some(result) = nulls_equal_to(exist_null, input_null) {
                return result;
            }
        }
        let ghost b = lhs_row.block_index as int;
        let ghost exist = self.at(lhs_row)->0;
        let ghost input = column.row(rhs_row as int)->0;
        let ghost buffers = bytes_of_buffers(column.buffers@);
        let exist_view: u128 = *self.views.0.get(lhs_row);
        let input_view: u128 = column.views[rhs_row];
        assert(self.viewed(b, lhs_row.index_in_block as int));
        if !HAS_BUFFERS {
            proof {
                lemma_inline_views(exist_view, exist, self.data(b), input_view, input, buffers);
            }
            return exist_view == input_view;
        }
        let exist_parts = view_parts(exist_view);
        let input_parts = view_parts(input_view);
        proof {
            lemma_view(exist_view, exist, self.data(b), exist_parts);
            lemma_view(input_view, input, buffers, input_parts);
        }
        if exist_parts.length != input_parts.length {
            return false;
        }
        if exist_parts.length <= MAX_INLINE_VIEW_LEN {
            proof {
                lemma_inline_views(exist_view, exist, self.data(b), input_view, input, buffers);
            }
            return exist_view == input_view;
        }
        if exist_parts.prefix != input_parts.prefix {
            return false;
        }
        bytes_equal(self.buffered_string(lhs_row), column.buffered_string(rhs_row))
    }

    /// Whether the string at a position is that of a row. Two nulls are equal, a null and a string
    /// are not.
    pub fn equal_to(
        &self,
        lhs_row: BlocksIndex,
        column: &ByteViewColumn<'_>,
        rhs_row: usize,
    ) -> (equal: bool)
        requires
            self.wf(),
            self.has(lhs_row),
            column.wf(),
            rhs_row < column.views@.len(),
        ensures
            equal == (self.at(lhs_row) == column.row(rhs_row as int)),
    {
        self.do_equal_to_inner::<true, true>(lhs_row, column, rhs_row)
    }

    /// Positions of the builder and rows of the column that are to be compared in pairs.
    pub open spec fn pairs(
        &self,
        lhs_rows: Seq<BlocksIndex>,
        column: &ByteViewColumn<'_>,
        rhs_rows: Seq<usize>,
    ) -> bool {
        &&& column.wf()
        &&& lhs_rows.len() == rhs_rows.len()
        &&& forall|i: int|
            0 <= i < lhs_rows.len() ==> self.has(#[trigger] lhs_rows[i]) && rhs_rows[i]
                < column.views@.len()
    }

    /// The bit of each pair stays set where the strings are the same; all other bits stay as they
    /// are.
    pub open spec fn compared(
        &self,
        lhs_rows: Seq<BlocksIndex>,
        column: &ByteViewColumn<'_>,
        rhs_rows: Seq<usize>,
        before: BooleanBufferBuilder,
        after: BooleanBufferBuilder,
    ) -> bool {
        &&& is_clean(after)
        &&& built_bits(after).len() == built_bits(before).len()
        &&& forall|i: int|
            0 <= i < built_bits(before).len() ==> (#[trigger] built_bits(after)[i]) == (
            built_bits(before)[i] && (i < lhs_rows.len() ==> self.at(lhs_rows[i]) == column.row(
                rhs_rows[i] as int,
            )))
    }

    /// Clears the bits of the pairs of positions and rows whose strings are not the same: see
    /// [`Self::do_equal_to_inner`].
    fn vectorized_equal_to_inner<const HAS_NULLS: bool, const HAS_BUFFERS: bool>(
        &self,
        lhs_rows: &[BlocksIndex],
        column: &ByteViewColumn<'_>,
        rhs_rows: &[usize],
        equal_to_results: &mut BooleanBufferBuilder,
    )
        requires
            self.wf(),
            self.pairs(lhs_rows@, column, rhs_rows@),
            lhs_rows@.len() <= bit_len(*old(equal_to_results)),
            is_clean(*old(equal_to_results)),
            !HAS_NULLS ==> forall|i: int|
                0 <= i < lhs_rows@.len() ==> self.at(#[trigger] lhs_rows@[i]) is Some && column.row(
                    rhs_rows@[i] as int,
                ) is Some,
            !HAS_BUFFERS ==> forall|row: int|
                0 <= row < column.views@.len() ==> buffered_len(#[trigger] column.row(row)) == 0,
        ensures
            self.compared(
                lhs_rows@,
                column,
                rhs_rows@,
                *old(equal_to_results),
                *final(equal_to_results),
            ),
    {
        let ghost before = built_bits(*equal_to_results);
        let mut i: usize = 0;
        while i < lhs_rows.len()
            invariant
                self.wf(),
                self.pairs(lhs_rows@, column, rhs_rows@),
                !HAS_NULLS ==> forall|i: int|
                    0 <= i < lhs_rows@.len() ==> self.at(#[trigger] lhs_rows@[i]) is Some
                        && column.row(rhs_rows@[i] as int) is Some,
                !HAS_BUFFERS ==> forall|row: int|
                    0 <= row < column.views@.len() ==> buffered_len(#[trigger] column.row(row))
                        == 0,
                0 <= i <= lhs_rows@.len(),
                lhs_rows@.len() <= before.len(),
                is_clean(*equal_to_results),
                before == built_bits(*old(equal_to_results)),
                built_bits(*equal_to_results).len() == before.len(),
                forall|j: int|
                    0 <= j < before.len() ==> (#[trigger] built_bits(*equal_to_results)[j]) == (
                    before[j] && (j < i ==> self.at(lhs_rows@[j]) == column.row(
                        rhs_rows@[j] as int,
                    ))),
            decreases lhs_rows@.len() - i,
        {
            if get_bit(equal_to_results, i) {
                assert(self.has(lhs_rows@[i as int]));
                assert(!HAS_NULLS ==> self.at(lhs_rows@[i as int]) is Some);
                if !self.do_equal_to_inner::<HAS_NULLS, HAS_BUFFERS>(
                    lhs_rows[i],
                    column,
                    rhs_rows[i],
                ) {
                    set_bit(equal_to_results, i, false);
                }
            }
            i += 1;
        }
    }

    /// Clears the bits of the pairs of positions and rows whose strings are not the same.
    pub fn vectorized_equal_to(
        &self,
        lhs_rows: &[BlocksIndex],
        column: &ByteViewColumn<'_>,
        rhs_rows: &[usize],
        equal_to_results: &mut BooleanBufferBuilder,
    )
        requires
            self.wf(),
            self.pairs(lhs_rows@, column, rhs_rows@),
            lhs_rows@.len() <= bit_len(*old(equal_to_results)),
            is_clean(*old(equal_to_results)),
        ensures
            self.compared(
                lhs_rows@,
                column,
                rhs_rows@,
                *old(equal_to_results),
                *final(equal_to_results),
            ),
    {
        let has_nulls: bool = column.has_nulls() || self.nulls.might_have_nulls();
        let has_buffers: bool = column.buffers.len() != 0;
        proof {
            if !has_nulls {
                assert forall|i: int| 0 <= i < lhs_rows@.len() implies self.at(
                    #[trigger] lhs_rows@[i],
                ) is Some && column.row(rhs_rows@[i] as int) is Some by {
                    assert(self.has(lhs_rows@[i]));
                }
            }
            if !has_buffers {
                assert forall|row: int| 0 <= row < column.views@.len() implies buffered_len(
                    #[trigger] column.row(row),
                ) == 0 by {
                    let view = column.views@[row];
                    if !column.is_null_at(row) && buffered_len(column.row(row)) > 0 {
                        assert(is_view_of(
                            view,
                            string_of(view, bytes_of_buffers(column.buffers@)),
                            bytes_of_buffers(column.buffers@),
                        ));
                    }
                }
            }
        }
        match (has_nulls, has_buffers) {
            (true, true) => self.vectorized_equal_to_inner::<true, true>(
                lhs_rows,
                column,
                rhs_rows,
                equal_to_results,
            ),
            (true, false) => self.vectorized_equal_to_inner::<true, false>(
                lhs_rows,
                column,
                rhs_rows,
                equal_to_results,
            ),
            (false, true) => self.vectorized_equal_to_inner::<false, true>(
                lhs_rows,
                column,
                rhs_rows,
                equal_to_results,
            ),
            (false, false) => self.vectorized_equal_to_inner::<false, false>(
                lhs_rows,
                column,
                rhs_rows,
                equal_to_results,
            ),
        }
    }

    /// The number of strings and nulls.
    pub fn len(&self) -> (len: usize)
        requires
            self.wf(),
        ensures
            len == concat(self.rows()).len(),
    {
        proof {
            self.lemma_lens();
        }
        self.views.0.len()
    }

    /// The number of buffers of the current block that are complete.
    pub fn num_completed_buffers(&self) -> (count: usize)
        requires
            self.wf(),
        ensures
            count == self.data(self.rows().len() - 1).len() - 1,
    {
        proof {
            self.lemma_last_data();
        }
        self.view_blocks_per_block[self.view_blocks_per_block.len() - 1] - 1
    }

    /// The number of bytes in the buffer that is being written to.
    pub fn in_progress_len(&self) -> (len: usize)
        requires
            self.wf(),
        ensures
            len == self.data(self.rows().len() - 1).last().len(),
    {
        proof {
            self.lemma_last_data();
        }
        self.data_blocks.current_block_len()
    }

    /// Whether there is a string or a null at a position.
    pub fn has_position(&self, index: BlocksIndex) -> (found: bool)
        ensures
            found == self.has(index),
    {
        self.views.0.has_position(index)
    }

    /// Bytes that the builder takes, or the largest number there is if they are more than that.
    pub fn size(&self) -> (bytes: usize)
        requires
            self.wf(),
        ensures
            exists|data: usize, nulls: usize, views: usize|
                {
                    &&& #[trigger] is_queue_size(
                        data,
                        size_of::<Vec<u8>>(),
                        items_bytes(1, self.buffers()),
                    )
                    &&& #[trigger] is_queue_size(
                        nulls,
                        size_of::<NullBufferBuilder>(),
                        bitmaps_bytes(validity_in_blocks(self.rows())),
                    )
                    &&& #[trigger] is_queue_size(
                        views,
                        size_of::<Vec<u128>>(),
                        items_bytes(size_of::<u128>(), self.rows()),
                    )
                    &&& bytes == saturated((data + size_of::<Self>() + nulls + views) as nat)
                },
    {
        let data: usize = self.data_blocks.allocated_size();
        let nulls: usize = self.nulls.allocated_size();
        let views: usize = self.views.0.allocated_size();
        proof {
            let n = self.rows().len() as int;
            if n > 0 {
                self.lemma_start(n - 1);
            }
            self.lemma_buffers(n);
            let sizes = self.view_blocks_per_block@;
            assert(sizes.take(n) =~= sizes);
            let buffers = self.data_blocks.blocks();
            assert(buffers.take(buffers.len() as int) =~= buffers);
            assert(used_bytes::<Vec<u8>>(buffers) =~= items_bytes(1, self.buffers()));
            assert(bytes_in_blocks::<Vec<u128>>(self.views.0.blocks()) =~= items_bytes(
                size_of::<u128>(),
                self.rows(),
            ));
            let valid = validity_in_blocks(self.rows());
            assert(self.nulls.blocks() =~= valid) by {
                assert forall|b: int| 0 <= b < valid.len() implies (
                #[trigger] self.nulls.blocks()[b]) =~= valid[b] by {
                    assert(self.nulls.blocks()[b].len() == self.views.0.blocks()[b].len());
                }
            }
        }
        data.saturating_add(core::mem::size_of::<Self>()).saturating_add(nulls).saturating_add(
            views,
        )
    }

    /// The buffers of the first blocks are the first buffers.
    proof fn lemma_buffers(&self, n: int)
        requires
            self.shaped(),
            0 <= n <= self.rows().len(),
        ensures
            concat(Seq::new(n as nat, |b: int| self.data(b))) == self.data_blocks.blocks().take(
                self.start(n),
            ),
            0 <= self.start(n) <= self.data_blocks.blocks().len(),
        decreases n,
    {
        let parts = Seq::new(n as nat, |b: int| self.data(b));
        let buffers = self.data_blocks.blocks();
        if n == 0 {
            assert(self.view_blocks_per_block@.take(0) =~= Seq::<usize>::empty());
            assert(buffers.take(0) =~= Seq::<Seq<u8>>::empty());
        } else {
            self.lemma_start(n - 1);
            self.lemma_buffers(n - 1);
            assert(parts.drop_last() =~= Seq::new((n - 1) as nat, |b: int| self.data(b)));
            assert(buffers.take(self.start(n)) =~= buffers.take(self.start(n - 1)) + self.data(
                n - 1,
            ));
        }
    }

    /// Opens a new block. It counts as a block only once something goes into it, and until then no
    /// other can be opened.
    pub fn start_new_block(&mut self)
        requires
            old(self).wf(),
            !old(self).pending(),
        ensures
            final(self).wf(),
            final(self).cap() == old(self).cap(),
            final(self).max_size() == old(self).max_size(),
            final(self).rows() == old(self).rows().push(Seq::empty()),
            final(self).data_len() == old(self).data_len(),
            forall|b: int|
                0 <= b < old(self).rows().len() ==> #[trigger] final(self).data(b) == old(
                    self,
                ).data(b),
            final(self).data(old(self).rows().len() as int) == seq![Seq::<u8>::empty()],
            final(self).pending(),
    {
        let ghost before = *self;
        self.view_blocks_per_block.push_back(1);
        self.data_blocks.start_new_block();
        self.views.0.start_new_block();
        self.nulls.start_new_block();
        proof {
            before.lemma_pushed_data(self, true);
            lemma_concat_push(before.data_blocks.blocks(), Seq::<u8>::empty());
            lemma_concat_one(Seq::<u8>::empty());
            let n = before.rows().len() as int;
            assert forall|b: int, j: int|
                0 <= b < self.views.0.blocks().len() && 0 <= j
                    < self.views.0.blocks()[b].len() implies #[trigger] self.viewed(b, j) by {
                assert(before.viewed(b, j));
            }
            let expected = before.rows().push(Seq::empty());
            assert forall|b: int| 0 <= b < expected.len() implies self.rows()[b] == expected[b] by {
                assert(self.rows()[b] =~= expected[b]);
            }
            assert(self.rows() =~= expected);
            assert forall|b: int| 0 <= b <= n implies concat(#[trigger] self.data(b)).len()
                == buffered_total(self.rows()[b]) by {
                if b < n {
                    assert(concat(before.data(b)).len() == buffered_total(before.rows()[b]));
                }
            }
        }
    }

    /// Takes the first block. `None` if all blocks were taken.
    pub fn take_block(&mut self) -> (taken: Option<ByteViewBlock>)
        requires
            old(self).wf(),
        ensures
            taken is Some <==> !old(self).pending() || old(self).rows().len() > 1,
            match taken {
                Some(block) => {
                    &&& block.holds(old(self).rows()[0])
                    &&& bytes_of_buffers(block.buffers@) == if has_buffered(old(self).rows()[0]) {
                        old(self).data(0)
                    } else {
                        Seq::empty()
                    }
                    &&& final(self).wf()
                    &&& final(self).cap() == old(self).cap()
                    &&& final(self).max_size() == old(self).max_size()
                    &&& final(self).rows() == if old(self).rows().len() == 1 {
                        seq![Seq::<Option<Seq<u8>>>::empty()]
                    } else {
                        old(self).rows().skip(1)
                    }
                    &&& old(self).rows().len() == 1 ==> final(self).data(0) == seq![
                        Seq::<u8>::empty(),
                    ]
                    &&& forall|b: int|
                        0 < b < old(self).rows().len() ==> #[trigger] old(self).data(b) == final(self).data(b - 1)
                    &&& final(self).data_len() == old(self).data_len() - buffered_total(
                        old(self).rows()[0],
                    )
                    &&& final(self).pending() == (old(self).pending() || old(self).rows().len()
                        == 1)
                },
                None => *final(self) == *old(self),
            },
    {
        let ghost before = *self;
        proof {
            self.lemma_lens();
            self.nulls.lemma_wf();
        }
        match self.views.0.take_block_finished() {
            Some(views) => {
                let nulls: Option<NullBuffer> = match self.nulls.take_block() {
                    Some(nulls) => nulls,
                    None => None,
                };
                let count: usize = self.view_blocks_per_block[0];
                let _ = self.view_blocks_per_block.pop_front();
                if self.view_blocks_per_block.len() == 0 {
                    self.view_blocks_per_block.push_back(1);
                }
                proof {
                    let sizes = before.view_blocks_per_block@;
                    before.lemma_start(0);
                    assert(self.view_blocks_per_block@ =~= if sizes.len() == 1 {
                        seq![1usize]
                    } else {
                        sizes.skip(1)
                    });
                }
                let buffers: Vec<Buffer> = take_buffers(&mut self.data_blocks, count);
                proof {
                    before.lemma_taken(self, count as int);
                    before.lemma_views(views@, bytes_of_buffers(buffers@));
                    let rows = before.rows()[0];
                    let valid = Seq::new(rows.len(), |i: int| rows[i] is Some);
                    assert(before.nulls.blocks()[0].len() == before.views.0.blocks()[0].len());
                    assert(valid =~= before.nulls.blocks()[0]);
                    assert(bytes_of_buffers(buffers@) =~= before.data(0));
                }
                if any_buffered(&views) {
                    Some(ByteViewBlock { views, buffers, nulls })
                } else {
                    let buffers: Vec<Buffer> = Vec::new();
                    proof {
                        assert(bytes_of_buffers(buffers@) =~= Seq::<Seq<u8>>::empty());
                        let rows = before.rows()[0];
                        assert forall|i: int| 0 <= i < rows.len() && rows[i] is Some implies is_view_of(
                            #[trigger] views@[i],
                            rows[i]->0,
                            bytes_of_buffers(buffers@),
                        ) by {
                            assert(!is_buffered(views@[i]));
                        }
                        assert(!has_buffered(rows));
                    }
                    Some(ByteViewBlock { views, buffers, nulls })
                }
            },
            None => None,
        }
    }

    /// Takes the first `n` strings of the only block; the others move up. Their bytes are packed
    /// anew.
    pub fn take_n(&mut self, n: usize) -> (taken: ByteViewBlock)
        requires
            old(self).wf(),
            !FIXED_BLOCK_SIZING,
            old(self).rows().len() == 1,
            n <= old(self).rows()[0].len(),
            with_rows(
                seq![Seq::<u8>::empty()],
                old(self).rows()[0].skip(n as int),
                old(self).max_size(),
            ).len() <= u32::MAX,
        ensures
            taken.holds(old(self).rows()[0].take(n as int)),
            !has_buffered(old(self).rows()[0].take(n as int)) ==> taken.buffers@.len() == 0,
            final(self).wf(),
            final(self).cap() == old(self).cap(),
            final(self).max_size() == old(self).max_size(),
            final(self).rows() == seq![old(self).rows()[0].skip(n as int)],
            final(self).data_len() == buffered_total(old(self).rows()[0].skip(n as int)),
            final(self).data(0) == if old(self).pending() {
                old(self).data(0)
            } else {
                with_rows(
                    seq![Seq::<u8>::empty()],
                    old(self).rows()[0].skip(n as int),
                    old(self).max_size(),
                )
            },
            final(self).pending() == (n == old(self).rows()[0].len()),
    {
        let ghost rows = self.rows()[0];
        proof {
            self.lemma_lens();
            self.data_blocks.lemma_wf();
            self.lemma_start(0);
            assert(self.data(0) =~= self.data_blocks.blocks());
            assert(concat(self.data(0)).len() == buffered_total(rows));
            assert(rows =~= rows.take(n as int) + rows.skip(n as int));
            lemma_buffered_add(rows.take(n as int), rows.skip(n as int));
        }
        match self.take_block() {
            Some(block) => {
                let buffers: Vec<Buffer> = block.buffers;
                let mut views: Vec<u128> = block.views;
                let rest: Vec<u128> = views.split_off(n);
                let rest_nulls: Option<NullBuffer> = match &block.nulls {
                    Some(nulls) => Some(slice_nulls(nulls, n, rest.len())),
                    None => None,
                };
                let column = ByteViewColumn {
                    views: rest.as_slice(),
                    buffers: buffers.as_slice(),
                    nulls: rest_nulls.as_ref(),
                };
                proof {
                    lemma_block_column(block, rows, n as int, column);
                }
                let numbers: Vec<usize> = numbers_up_to(rest.len());
                proof {
                    assert(column.rows(numbers@) =~= rows.skip(n as int));
                    lemma_concat_one(Seq::<Option<Seq<u8>>>::empty());
                }
                proof {
                    self.lemma_data_with(rows.skip(n as int));
                }
                self.vectorized_append(&column, numbers.as_slice());
                proof {
                    assert(self.data(0) == self.data_of_blocks()[0]);
                    let none = Seq::<Option<Seq<u8>>>::empty();
                    assert(none + rows.skip(n as int) =~= rows.skip(n as int));
                    assert(self.rows() =~= seq![rows.skip(n as int)]);
                }
                first_views(ByteViewBlock { views, buffers, nulls: block.nulls }, Ghost(rows))
            },
            None => {
                proof {
                    assert(rows.len() == 0);
                    assert(rows.skip(0) =~= rows);
                    assert(Seq::new(0, |i: int| rows[i] is Some) =~= Seq::<bool>::empty());
                    lemma_no_nulls(Seq::<bool>::empty());
                    assert(self.rows() =~= seq![rows]);
                }
                ByteViewBlock { views: Vec::new(), buffers: Vec::new(), nulls: None }
            },
        }
    }

    /// Rows that are added to the only block are written to its buffers one after the other.
    proof fn lemma_data_with(&self, rows: Seq<Option<Seq<u8>>>)
        requires
            !FIXED_BLOCK_SIZING,
            self.rows().len() == 1,
        ensures
            self.data_with(rows) == seq![with_rows(self.data(0), rows, self.max_size())],
        decreases rows.len(),
    {
        if rows.len() == 0 {
            assert(self.data_of_blocks() =~= seq![self.data(0)]);
        } else {
            self.lemma_data_with(rows.drop_last());
            assert(self.data_with(rows) =~= seq![with_rows(self.data(0), rows, self.max_size())]);
        }
    }

    /// What the views of the first block stand for.
    proof fn lemma_views(&self, views: Seq<u128>, buffers: Seq<Seq<u8>>)
        requires
            self.wf(),
            views == self.views.0.blocks()[0],
            buffers == self.data(0),
        ensures
            ({
                let rows = self.rows()[0];
                &&& views.len() == rows.len()
                &&& forall|i: int|
                    0 <= i < rows.len() && rows[i] is Some ==> is_view_of(
                        #[trigger] views[i],
                        rows[i]->0,
                        buffers,
                    )
                &&& forall|i: int|
                    0 <= i < rows.len() ==> is_buffered(#[trigger] views[i]) == (buffered_len(
                        rows[i],
                    ) > 0)
                &&& forall|i: int|
                    0 <= i < rows.len() && rows[i] is None ==> #[trigger] views[i] == 0
            }),
    {
        let rows = self.rows()[0];
        self.views.0.lemma_wf();
        assert forall|i: int| 0 <= i < rows.len() && rows[i] is Some implies is_view_of(
            #[trigger] views[i],
            rows[i]->0,
            buffers,
        ) by {
            assert(self.viewed(0, i));
        }
        assert forall|i: int| 0 <= i < rows.len() implies is_buffered(#[trigger] views[i]) == (
        buffered_len(rows[i]) > 0) && (rows[i] is None ==> views[i] == 0) by {
            assert(self.viewed(0, i));
            if rows[i] is Some {
                lemma_view_len(views[i], rows[i]->0, buffers);
            }
        }
    }

    /// What a builder is after its first block was taken.
    proof fn lemma_taken(&self, after: &Self, count: int)
        requires
            self.wf(),
            count == self.view_blocks_per_block@[0],
            after.max_block_size == self.max_block_size,
            self.views.0.without_first_block(&after.views.0),
            self.nulls.without_first_block(&after.nulls),
            after.data_blocks.wf(),
            after.data_blocks.blocks() == if self.data_blocks.blocks().len() == count {
                seq![Seq::<u8>::empty()]
            } else {
                self.data_blocks.blocks().skip(count)
            },
            after.view_blocks_per_block@ == if self.view_blocks_per_block@.len() == 1 {
                seq![1usize]
            } else {
                self.view_blocks_per_block@.skip(1)
            },
        ensures
            after.wf(),
            after.rows() == if self.rows().len() == 1 {
                seq![Seq::<Option<Seq<u8>>>::empty()]
            } else {
                self.rows().skip(1)
            },
            self.rows().len() == 1 ==> after.data(0) == seq![Seq::<u8>::empty()],
            forall|b: int|
                0 < b < self.rows().len() ==> #[trigger] self.data(b) == after.data(b - 1),
            after.data_len() == self.data_len() - buffered_total(self.rows()[0]),
            self.data(0) == self.data_blocks.blocks().take(count),
    {
        let sizes = self.view_blocks_per_block@;
        self.views.0.lemma_wf();
        self.lemma_start(0);
        assert(self.data(0) =~= self.data_blocks.blocks().take(count));
        if sizes.len() == 1 {
            self.lemma_taken_only(after, count);
        } else {
            self.lemma_taken_first(after, count);
        }
    }

    proof fn lemma_taken_only(&self, after: &Self, count: int)
        requires
            self.wf(),
            self.view_blocks_per_block@.len() == 1,
            count == self.view_blocks_per_block@[0],
            after.max_block_size == self.max_block_size,
            self.views.0.without_first_block(&after.views.0),
            self.nulls.without_first_block(&after.nulls),
            after.data_blocks.wf(),
            after.data_blocks.blocks() == seq![Seq::<u8>::empty()],
            after.view_blocks_per_block@ == seq![1usize],
        ensures
            after.wf(),
            after.rows() == seq![Seq::<Option<Seq<u8>>>::empty()],
            after.data(0) == seq![Seq::<u8>::empty()],
            after.data_len() == self.data_len() - buffered_total(self.rows()[0]),
    {
        let sizes = self.view_blocks_per_block@;
        let new_sizes = after.view_blocks_per_block@;
        let blocks = self.data_blocks.blocks();
        self.lemma_start(0);
        assert(concat(self.data(0)).len() == buffered_total(self.rows()[0]));
        lemma_concat_one(Seq::<u8>::empty());
        reveal_with_fuel(sum, 2);
        assert(sizes.drop_last() =~= Seq::<usize>::empty());
        assert(new_sizes.drop_last() =~= Seq::<usize>::empty());
        assert(new_sizes.take(0) =~= Seq::<usize>::empty());
        assert(self.data(0) =~= blocks);
        assert(after.data(0) =~= seq![Seq::<u8>::empty()]);
        assert(after.rows() =~= seq![Seq::<Option<Seq<u8>>>::empty()]) by {
            assert(after.rows()[0] =~= Seq::<Option<Seq<u8>>>::empty());
        }
    }

    proof fn lemma_taken_first(&self, after: &Self, count: int)
        requires
            self.wf(),
            self.view_blocks_per_block@.len() > 1,
            count == self.view_blocks_per_block@[0],
            after.max_block_size == self.max_block_size,
            self.views.0.without_first_block(&after.views.0),
            self.nulls.without_first_block(&after.nulls),
            after.data_blocks.wf(),
            after.data_blocks.blocks() == self.data_blocks.blocks().skip(count),
            after.view_blocks_per_block@ == self.view_blocks_per_block@.skip(1),
        ensures
            after.wf(),
            after.rows() == self.rows().skip(1),
            forall|b: int|
                0 < b < self.rows().len() ==> #[trigger] self.data(b) == after.data(b - 1),
            after.data_len() == self.data_len() - buffered_total(self.rows()[0]),
    {
        let sizes = self.view_blocks_per_block@;
        let blocks = self.data_blocks.blocks();
        self.lemma_start(0);
        assert(self.data(0) =~= blocks.take(count));
        assert(concat(self.data(0)).len() == buffered_total(self.rows()[0]));
        lemma_sum_first(sizes);
        assert(blocks =~= blocks.take(count) + blocks.skip(count));
        lemma_concat_add(blocks.take(count), blocks.skip(count));
        assert forall|b: int| 0 < b < sizes.len() implies #[trigger] self.data(b)
            == after.data(b - 1) by {
            self.lemma_taken_data(after, b);
        }
        let rest = self.rows().skip(1);
        assert forall|b: int| 0 <= b < rest.len() implies after.rows()[b] == rest[b] by {
            assert(self.data(b + 1) == after.data(b));
            assert(after.rows()[b] =~= rest[b]);
        }
        assert(after.rows() =~= rest);
        assert forall|b: int, j: int|
            0 <= b < after.views.0.blocks().len() && 0 <= j
                < after.views.0.blocks()[b].len() implies #[trigger] after.viewed(b, j) by {
            assert(self.viewed(b + 1, j));
            assert(self.data(b + 1) == after.data(b));
        }
        assert forall|b: int| 0 <= b < rest.len() implies concat(
            #[trigger] after.data(b),
        ).len() == buffered_total(after.rows()[b]) by {
            assert(self.data(b + 1) == after.data(b));
            assert(concat(self.data(b + 1)).len() == buffered_total(self.rows()[b + 1]));
        }
        assert forall|b: int| 0 <= b < after.nulls.blocks().len() implies (
        #[trigger] after.nulls.blocks()[b]).len() == after.views.0.blocks()[b].len() by {
            assert(self.nulls.blocks()[b + 1].len() == self.views.0.blocks()[b + 1].len());
        }
    }

    /// The buffers of a later block after the first block was taken.
    proof fn lemma_taken_data(&self, after: &Self, b: int)
        requires
            self.shaped(),
            0 < b < self.view_blocks_per_block@.len(),
            after.view_blocks_per_block@ == self.view_blocks_per_block@.skip(1),
            after.data_blocks.blocks() == self.data_blocks.blocks().skip(
                self.view_blocks_per_block@[0] as int,
            ),
        ensures
            after.data(b - 1) == self.data(b),
    {
        let sizes = self.view_blocks_per_block@;
        self.lemma_start(b);
        lemma_sum_first(sizes.take(b));
        assert(sizes.take(b).skip(1) =~= sizes.skip(1).take(b - 1));
        assert(after.start(b - 1) == self.start(b) - sizes[0]);
        assert(after.data(b - 1) =~= self.data(b));
    }

    /// The same views, validity and buffers make the same rows.
    proof fn lemma_same_rows(&self, other: &Self)
        requires
            self.views == other.views,
            self.nulls == other.nulls,
            self.data_blocks == other.data_blocks,
            self.view_blocks_per_block == other.view_blocks_per_block,
        ensures
            self.rows() == other.rows(),
    {
        assert forall|b: int| 0 <= b < self.rows().len() implies self.rows()[b]
            == other.rows()[b] by {
            assert(self.rows()[b] =~= other.rows()[b]);
        }
        assert(self.rows() =~= other.rows());
    }
}

/// The buffers of a block after a string was written to them: behind the last one, or to a new one
/// if that would make it longer than `max`.
pub open spec fn with_string(buffers: Seq<Seq<u8>>, string: Seq<u8>, max: nat) -> Seq<Seq<u8>> {
    if buffers.last().len() + string.len() > max {
        buffers.push(string)
    } else {
        buffers.drop_last().push(buffers.last() + string)
    }
}

/// The buffers of a block after a row was added: see [`with_string`].
pub open spec fn with_row(buffers: Seq<Seq<u8>>, row: Option<Seq<u8>>, max: nat) -> Seq<Seq<u8>> {
    if buffered_len(row) > 0 {
        with_string(buffers, row->0, max)
    } else {
        buffers
    }
}

/// The buffers of a block after rows were added: see [`with_row`].
pub open spec fn with_rows(
    buffers: Seq<Seq<u8>>,
    rows: Seq<Option<Seq<u8>>>,
    max: nat,
) -> Seq<Seq<u8>>
    decreases rows.len(),
{
    if rows.len() == 0 {
        buffers
    } else {
        with_row(with_rows(buffers, rows.drop_last(), max), rows.last(), max)
    }
}

/// Some of the rows have no more bytes in buffers than all of them.
proof fn lemma_buffered_part(rows: Seq<Option<Seq<u8>>>, k: int)
    requires
        0 <= k <= rows.len(),
    ensures
        buffered_total(rows.take(k)) <= buffered_total(rows),
    decreases rows.len(),
{
    if k == rows.len() {
        assert(rows.take(k) =~= rows);
    } else {
        lemma_buffered_part(rows.drop_last(), k);
        assert(rows.drop_last().take(k) =~= rows.take(k));
    }
}

/// Adding to the last block adds as much to all of them.
proof fn lemma_grown_last(blocks: Seq<Seq<u8>>, more: Seq<u8>)
    requires
        blocks.len() > 0,
    ensures
        concat(blocks.update(blocks.len() - 1, blocks.last() + more)).len() == concat(blocks).len()
            + more.len(),
{
    let grown = blocks.update(blocks.len() - 1, blocks.last() + more);
    assert(grown.drop_last() =~= blocks.drop_last());
}

/// Buffers extend those that they start with.
proof fn lemma_extends_self(before: Seq<Seq<u8>>, after: Seq<Seq<u8>>)
    requires
        before.len() <= after.len(),
        after.take(before.len() as int) == before,
    ensures
        extends_buffers(before, after),
{
    assert forall|i: int| 0 <= i < before.len() implies {
        &&& (#[trigger] before[i]).len() <= after[i].len()
        &&& after[i].take(before[i].len() as int) == before[i]
    } by {
        assert(after.take(before.len() as int)[i] == before[i]);
        assert(after[i].take(before[i].len() as int) =~= before[i]);
    }
}

/// One more size.
proof fn lemma_sum_step(sizes: Seq<usize>, b: int)
    requires
        0 <= b < sizes.len(),
    ensures
        sum(sizes.take(b + 1)) == sum(sizes.take(b)) + sizes[b],
{
    assert(sizes.take(b + 1).drop_last() =~= sizes.take(b));
}

/// The first sizes add up to no more than all of them.
proof fn lemma_sum_part(sizes: Seq<usize>, a: int, b: int)
    requires
        0 <= a <= b <= sizes.len(),
    ensures
        sum(sizes.take(a)) <= sum(sizes.take(b)) <= sum(sizes),
    decreases sizes.len() - a,
{
    assert(sizes.take(sizes.len() as int) =~= sizes);
    if a < sizes.len() {
        lemma_sum_step(sizes, a);
        if a < b {
            lemma_sum_part(sizes, a + 1, b);
        } else {
            lemma_sum_part(sizes, a + 1, a + 1);
        }
    }
}

} // verus!
