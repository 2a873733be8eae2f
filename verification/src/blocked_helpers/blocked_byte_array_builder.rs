//! Byte strings and nulls, in blocks.

use crate::arrow_buffers::{
    buffer_bytes, is_valid_at, lemma_no_nulls, null_count, same_bits, slice_nulls, validity,
};
use crate::blocked_helpers::blocked_bytes_buffer_builder::BlockedBytesBufferBuilder;
use crate::blocked_helpers::blocked_nulls_builder::{
    bitmaps_bytes, is_null_buffer_of, BlockedNullsBuilder,
};
use crate::blocked_helpers::blocked_offset_buffer_builder::{
    ascending, as_ints, repeated, BlockedOffsetBufferBuilder,
};
use crate::blocked_helpers::layout::{
    appended, chunks, concat, count_blocks_needed, lemma_appended, lemma_appended_nothing,
    lemma_appended_prefix, lemma_appended_step, lemma_appended_twice, lemma_appended_within,
    lemma_concat_add, lemma_concat_at, lemma_concat_one, valid_blocks,
};
use crate::blocked_helpers::offset_block::OffsetBlock;
use crate::blocked_helpers::offset_size::{
    is_offsets_of, lemma_total_add, lengths_of, total, OffsetSize,
};
use crate::blocked_helpers::take_n_helpers::{used_bytes, BlockBuilder};
use crate::groups_accumulator::BlocksIndex;
use crate::memory::{is_queue_size, items_bytes, saturated};
use arrow::array::NullBufferBuilder;
use arrow::buffer::{Buffer, NullBuffer};
use vstd::layout::size_of;
use vstd::prelude::*;

verus! {

/// The number of bytes of each item.
pub open spec fn lens(items: Seq<Seq<u8>>) -> Seq<int> {
    items.map_values(|item: Seq<u8>| item.len() as int)
}

/// The number of bytes of each item in each block.
pub open spec fn lens_of_blocks(blocks: Seq<Seq<Seq<u8>>>) -> Seq<Seq<int>> {
    blocks.map_values(|block: Seq<Seq<u8>>| lens(block))
}

/// The bytes of each block, its items one after the other.
pub open spec fn bytes_of_blocks(blocks: Seq<Seq<Seq<u8>>>) -> Seq<Seq<u8>> {
    blocks.map_values(|block: Seq<Seq<u8>>| concat(block))
}

/// The bytes that the offsets of the items of each block take, one more than there are items.
pub open spec fn offsets_bytes(offset_size: nat, blocks: Seq<Seq<Seq<u8>>>) -> Seq<nat> {
    Seq::new(blocks.len(), |b: int| offset_size * (blocks[b].len() + 1))
}

/// The bytes cut into items of the given lengths.
pub open spec fn cut(bytes: Seq<u8>, lengths: Seq<int>) -> Seq<Seq<u8>> {
    Seq::new(
        lengths.len(),
        |i: int| bytes.subrange(total(lengths.take(i)), total(lengths.take(i + 1))),
    )
}

/// The number of items of each block.
pub open spec fn same_shape<T, U>(a: Seq<Seq<T>>, b: Seq<Seq<U>>) -> bool {
    &&& a.len() == b.len()
    &&& forall|i: int| 0 <= i < a.len() ==> (#[trigger] a[i]).len() == b[i].len()
}

pub proof fn lemma_lens_take(items: Seq<Seq<u8>>, k: int)
    requires
        0 <= k <= items.len(),
    ensures
        lens(items).take(k) == lens(items.take(k)),
        total(lens(items.take(k))) == concat(items.take(k)).len(),
    decreases k,
{
    assert(lens(items).take(k) =~= lens(items.take(k)));
    if k > 0 {
        lemma_lens_take(items, k - 1);
        assert(items.take(k).drop_last() =~= items.take(k - 1));
        assert(lens(items.take(k)).drop_last() =~= lens(items.take(k - 1)));
    }
}

/// Items are found again in their bytes by their lengths.
pub proof fn lemma_cut_again(items: Seq<Seq<u8>>)
    ensures
        cut(concat(items), lens(items)) == items,
        total(lens(items)) == concat(items).len(),
{
    assert(items.take(items.len() as int) =~= items);
    lemma_lens_take(items, items.len() as int);
    assert forall|i: int| 0 <= i < items.len() implies #[trigger] cut(
        concat(items),
        lens(items),
    )[i] == items[i] by {
        lemma_lens_take(items, i);
        lemma_lens_take(items, i + 1);
        lemma_concat_at(items, i);
        assert(items.take(i + 1).drop_last() =~= items.take(i));
        assert(concat(items).subrange(
            concat(items.take(i)).len() as int,
            concat(items.take(i + 1)).len() as int,
        ) =~= items[i]);
    }
    assert(cut(concat(items), lens(items)) =~= items);
}

/// Cutting and forgetting what the values are can be swapped.
proof fn lemma_chunks_lens(s: Seq<Seq<u8>>, cap: nat)
    ensures
        lens_of_blocks(chunks(s, cap)) == chunks(lens(s), cap),
    decreases s.len(),
{
    if cap == 0 || s.len() < cap {
        assert(lens_of_blocks(seq![s]) =~= seq![lens(s)]);
    } else {
        let k = cap as int;
        lemma_chunks_lens(s.skip(k), cap);
        assert(lens(s).take(k) =~= lens(s.take(k)));
        assert(lens(s).skip(k) =~= lens(s.skip(k)));
        assert(lens_of_blocks(seq![s.take(k)] + chunks(s.skip(k), cap)) =~= seq![lens(s.take(k))]
            + lens_of_blocks(chunks(s.skip(k), cap)));
    }
}

/// The lengths after adding are the lengths with the added ones.
pub proof fn lemma_appended_lens(
    fixed: bool,
    cap: nat,
    blocks: Seq<Seq<Seq<u8>>>,
    items: Seq<Seq<u8>>,
)
    requires
        blocks.len() > 0,
    ensures
        lens_of_blocks(appended(fixed, cap, blocks, items)) == appended(
            fixed,
            cap,
            lens_of_blocks(blocks),
            lens(items),
        ),
{
    let s = blocks.last() + items;
    assert(lens(s) =~= lens(blocks.last()) + lens(items));
    assert(lens_of_blocks(blocks).last() == lens(blocks.last()));
    assert(lens_of_blocks(blocks).drop_last() =~= lens_of_blocks(blocks.drop_last()));
    if fixed {
        lemma_chunks_lens(s, cap);
        assert(lens_of_blocks(blocks.drop_last() + chunks(s, cap)) =~= lens_of_blocks(
            blocks.drop_last(),
        ) + lens_of_blocks(chunks(s, cap)));
    } else {
        assert(lens_of_blocks(blocks.drop_last().push(s)) =~= lens_of_blocks(
            blocks.drop_last(),
        ).push(lens(s)));
    }
}

proof fn lemma_chunks_shape<T, U>(a: Seq<T>, b: Seq<U>, cap: nat)
    requires
        a.len() == b.len(),
    ensures
        same_shape(chunks(a, cap), chunks(b, cap)),
    decreases a.len(),
{
    if !(cap == 0 || a.len() < cap) {
        let k = cap as int;
        lemma_chunks_shape(a.skip(k), b.skip(k), cap);
        let x = chunks(a, cap);
        let y = chunks(b, cap);
        assert forall|i: int| 0 <= i < x.len() implies (#[trigger] x[i]).len() == y[i].len() by {
            if i > 0 {
                assert(x[i] == chunks(a.skip(k), cap)[i - 1]);
                assert(y[i] == chunks(b.skip(k), cap)[i - 1]);
            }
        }
    }
}

/// Adding as many items to blocks of the same sizes keeps the sizes the same.
pub proof fn lemma_appended_shape<T, U>(
    fixed: bool,
    cap: nat,
    a: Seq<Seq<T>>,
    x: Seq<T>,
    b: Seq<Seq<U>>,
    y: Seq<U>,
)
    requires
        a.len() > 0,
        same_shape(a, b),
        x.len() == y.len(),
    ensures
        same_shape(appended(fixed, cap, a, x), appended(fixed, cap, b, y)),
{
    assert(a[a.len() - 1].len() == b[b.len() - 1].len());
    if fixed {
        let p = chunks(a.last() + x, cap);
        let q = chunks(b.last() + y, cap);
        lemma_chunks_shape(a.last() + x, b.last() + y, cap);
        let m = appended(fixed, cap, a, x);
        let n = appended(fixed, cap, b, y);
        assert forall|i: int| 0 <= i < m.len() implies (#[trigger] m[i]).len() == n[i].len() by {
            if i < a.len() - 1 {
                assert(m[i] == a[i]);
                assert(n[i] == b[i]);
            } else {
                assert(m[i] == p[i - (a.len() - 1)]);
                assert(n[i] == q[i - (a.len() - 1)]);
            }
        }
    } else {
        let m = appended(fixed, cap, a, x);
        let n = appended(fixed, cap, b, y);
        assert forall|i: int| 0 <= i < m.len() implies (#[trigger] m[i]).len() == n[i].len() by {
            if i < a.len() - 1 {
                assert(m[i] == a[i]);
                assert(n[i] == b[i]);
            }
        }
    }
}

/// A column of byte strings: the offsets between which its items lie in its bytes, and which
/// of its items are null.
pub struct ByteColumn<'a, O: OffsetSize> {
    pub offsets: &'a [O],
    pub bytes: &'a [u8],
    pub nulls: Option<&'a NullBuffer>,
}

impl<'a, O: OffsetSize> ByteColumn<'a, O> {
    pub open spec fn wf(&self) -> bool {
        &&& ascending(self.offsets@)
        &&& self.offsets@.last().val() <= self.bytes@.len()
        &&& self.nulls matches Some(nulls) ==> validity(*nulls).len() == self.offsets@.len() - 1
    }

    /// The number of items.
    pub open spec fn len(&self) -> nat {
        (self.offsets@.len() - 1) as nat
    }

    /// Whether each item is valid.
    pub open spec fn valid(&self) -> Seq<bool> {
        match self.nulls {
            Some(nulls) => validity(*nulls),
            None => same_bits(true, self.len()),
        }
    }

    /// The bytes between the offsets of each item, for a null too.
    pub open spec fn ranges(&self) -> Seq<Seq<u8>> {
        Seq::new(
            self.len(),
            |i: int| self.bytes@.subrange(self.offsets@[i].val(), self.offsets@[i + 1].val()),
        )
    }

    /// The bytes of each item, none for a null.
    pub open spec fn values(&self) -> Seq<Seq<u8>> {
        Seq::new(
            self.len(),
            |i: int|
                if self.valid()[i] {
                    self.bytes@.subrange(self.offsets@[i].val(), self.offsets@[i + 1].val())
                } else {
                    Seq::empty()
                },
        )
    }
}

/// A block of byte strings that was taken out of a builder.
pub struct ByteBlock<O: OffsetSize> {
    pub offsets: Vec<O>,
    pub bytes: Buffer,
    pub nulls: Option<NullBuffer>,
}

impl<O: OffsetSize> ByteBlock<O> {
    /// The bytes of each item.
    pub open spec fn items(&self) -> Seq<Seq<u8>> {
        cut(buffer_bytes(self.bytes), lengths_of(self.offsets@))
    }

    /// The block holds exactly these items.
    pub open spec fn holds(&self, values: Seq<Seq<u8>>, valid: Seq<bool>) -> bool {
        &&& is_offsets_of(self.offsets@, lens(values))
        &&& buffer_bytes(self.bytes) == concat(values)
        &&& is_null_buffer_of(self.nulls, valid)
    }
}

/// Collects byte strings and nulls, block by block.
///
/// When `FIXED_BLOCK_SIZING` is true every block is closed once it holds `block_size` items;
/// otherwise the callers decide when a new block starts.
pub struct BlockedByteArrayBuilder<const FIXED_BLOCK_SIZING: bool, O: OffsetSize> {
    blocked_offsets: BlockedOffsetBufferBuilder<FIXED_BLOCK_SIZING, O>,
    blocked_bytes: BlockedBytesBufferBuilder,
    blocked_nulls: BlockedNullsBuilder<FIXED_BLOCK_SIZING>,
}

/// Writes the bytes of items to the current block. Returns whether each is valid, and its length.
fn write_items(bytes: &mut BlockedBytesBufferBuilder, items: &[Option<&[u8]>]) -> (written: (
    Vec<bool>,
    Vec<usize>,
))
    requires
        old(bytes).wf(),
        old(bytes).bytes().len() + concat(bytes_of_items(items@)).len() <= usize::MAX,
    ensures
        old(bytes).added(concat(bytes_of_items(items@)), final(bytes)),
        written.0@ == validity_of_items(items@),
        as_ints(written.1@) == lens(bytes_of_items(items@)),
{
    let ghost before = *bytes;
    let ghost values = bytes_of_items(items@);
    let ghost valid = validity_of_items(items@);
    let mut flags: Vec<bool> = Vec::new();
    let mut lengths: Vec<usize> = Vec::new();
    let mut i: usize = 0;
    proof {
        bytes.lemma_wf();
        lemma_appended_nothing(false, 0, bytes.blocks());
        assert(values.take(0) =~= Seq::<Seq<u8>>::empty());
    }
    while i < items.len()
        invariant
            0 <= i <= items@.len(),
            values == bytes_of_items(items@),
            valid == validity_of_items(items@),
            flags@ == valid.take(i as int),
            as_ints(lengths@) == lens(values.take(i as int)),
            before.wf(),
            before.added(concat(values.take(i as int)), bytes),
            before.bytes().len() + concat(values).len() <= usize::MAX,
        decreases items@.len() - i,
    {
        let ghost done = values.take(i as int);
        let ghost value = values[i as int];
        proof {
            before.lemma_wf();
            assert(values.take(i + 1).drop_last() =~= done);
            assert(values =~= values.take(i + 1) + values.skip(i + 1));
            lemma_concat_add(values.take(i + 1), values.skip(i + 1));
            lemma_appended(false, 0, before.blocks(), concat(done));
            lemma_appended_twice(false, 0, before.blocks(), concat(done), value);
            lemma_appended_nothing(false, 0, bytes.blocks());
            assert(concat(done) + Seq::<u8>::empty() =~= concat(done));
        }
        let ghost lengths_before = lengths@;
        match items[i] {
            Some(item) => {
                bytes.extend_from_slice(item);
                flags.push(true);
                lengths.push(item.len());
            },
            None => {
                flags.push(false);
                lengths.push(0);
            },
        }
        proof {
            assert(flags@ =~= valid.take(i + 1));
            assert(lens(values.take(i + 1)) =~= lens(done).push(value.len() as int));
            assert(as_ints(lengths@) =~= as_ints(lengths_before).push(value.len() as int));
        }
        i += 1;
    }
    proof {
        assert(values.take(i as int) =~= values);
        assert(valid.take(i as int) =~= valid);
    }
    (flags, lengths)
}

impl<const FIXED_BLOCK_SIZING: bool, O: OffsetSize> BlockedByteArrayBuilder<
    FIXED_BLOCK_SIZING,
    O,
> {
    /// The bytes of the items in each block, the block being written to included.
    pub closed spec fn values(&self) -> Seq<Seq<Seq<u8>>> {
        Seq::new(
            self.blocked_offsets.lengths().len(),
            |i: int| cut(self.blocked_bytes.blocks()[i], self.blocked_offsets.lengths()[i]),
        )
    }

    /// Whether the items in each block are valid.
    pub closed spec fn valid(&self) -> Seq<Seq<bool>> {
        self.blocked_nulls.blocks()
    }

    /// The number of items in a full block.
    pub closed spec fn cap(&self) -> nat {
        self.blocked_offsets.cap()
    }

    /// The last block is empty and not yet one of those that can be taken.
    pub closed spec fn pending(&self) -> bool {
        self.blocked_offsets.pending()
    }

    /// The bytes and the offsets say the same of the items.
    spec fn holds(&self, values: Seq<Seq<Seq<u8>>>) -> bool {
        &&& self.blocked_offsets.lengths() == lens_of_blocks(values)
        &&& self.blocked_bytes.blocks() == bytes_of_blocks(values)
    }

    pub closed spec fn wf(&self) -> bool {
        &&& self.blocked_offsets.wf()
        &&& self.blocked_bytes.wf()
        &&& self.blocked_nulls.wf()
        &&& self.blocked_nulls.cap() == self.blocked_offsets.cap()
        &&& self.holds(self.values())
    }

    /// For every item it is known whether it is valid: no validity was added whose bytes are
    /// still to come, and the other way round.
    pub open spec fn in_sync(&self) -> bool {
        same_shape(self.values(), self.valid())
    }

    /// There is a block to take.
    pub open spec fn has_block(&self) -> bool {
        !self.pending() || self.values().len() > 1
    }

    /// A position where there is an item.
    pub open spec fn has(&self, index: BlocksIndex) -> bool {
        &&& index.block_index < self.values().len()
        &&& index.index_in_block < self.values()[index.block_index as int].len()
    }

    /// A position where it is known whether the item is valid.
    pub open spec fn has_validity(&self, index: BlocksIndex) -> bool {
        &&& index.block_index < self.valid().len()
        &&& index.index_in_block < self.valid()[index.block_index as int].len()
    }

    /// The bytes of items can be added: items and bytes can be counted, and no block gets more
    /// bytes than its offsets can reach.
    pub open spec fn can_add_values(&self, items: Seq<Seq<u8>>) -> bool {
        &&& concat(self.values()).len() + items.len() <= usize::MAX
        &&& concat(concat(self.values())).len() + concat(items).len() <= usize::MAX
        &&& forall|i: int|
            0 <= i < self.values_with(items).len() ==> concat(
                #[trigger] self.values_with(items)[i],
            ).len() <= O::max_offset()
    }

    /// The validity of items can be added.
    pub open spec fn can_add_valid(&self, n: nat) -> bool {
        concat(self.valid()).len() + n <= usize::MAX
    }

    /// The blocks once the bytes of `items` are added.
    pub open spec fn values_with(&self, items: Seq<Seq<u8>>) -> Seq<Seq<Seq<u8>>> {
        appended(FIXED_BLOCK_SIZING, self.cap(), self.values(), items)
    }

    /// The validity of the blocks once that of more items is added.
    pub open spec fn valid_with(&self, items: Seq<bool>) -> Seq<Seq<bool>> {
        appended(FIXED_BLOCK_SIZING, self.cap(), self.valid(), items)
    }

    /// `after` is this builder with the bytes of `items` added.
    pub open spec fn added_values(&self, items: Seq<Seq<u8>>, after: &Self) -> bool {
        &&& after.wf()
        &&& after.cap() == self.cap()
        &&& after.values() == self.values_with(items)
        &&& items.len() > 0 ==> after.pending() == (FIXED_BLOCK_SIZING
            && after.values().last().len() == 0)
    }

    /// `after` is this builder with an item added: its bytes, none for a null, and whether it is
    /// valid.
    pub open spec fn pushed(&self, bytes: Seq<u8>, is_valid: bool, after: &Self) -> bool {
        &&& self.added_values(seq![bytes], after)
        &&& after.valid() == self.valid_with(seq![is_valid])
    }

    /// `after` is this builder with the rows of a column added.
    pub open spec fn extended(&self, column: &ByteColumn<'_, O>, after: &Self) -> bool {
        &&& self.added_values(column.values(), after)
        &&& column.len() == 0 ==> after.pending() == self.pending()
        &&& after.valid() == self.valid_with(column.valid())
    }

    /// What holds of the blocks of every builder.
    pub proof fn lemma_wf(&self)
        requires
            self.wf(),
        ensures
            valid_blocks(FIXED_BLOCK_SIZING, self.cap(), self.values()),
            valid_blocks(FIXED_BLOCK_SIZING, self.cap(), self.valid()),
            self.pending() ==> self.values().last().len() == 0,
    {
        self.blocked_offsets.lemma_wf();
        self.blocked_nulls.lemma_wf();
        let values = self.values();
        let lengths = self.blocked_offsets.lengths();
        assert forall|i: int| 0 <= i < values.len() implies (#[trigger] values[i]).len()
            == lengths[i].len() by {}
    }

    /// The values are those that the bytes and the offsets both tell of.
    proof fn lemma_values(&self, values: Seq<Seq<Seq<u8>>>)
        requires
            self.holds(values),
        ensures
            self.values() == values,
    {
        assert forall|i: int| 0 <= i < values.len() implies self.values()[i] == values[i] by {
            lemma_cut_again(values[i]);
            assert(self.blocked_offsets.lengths()[i] == lens(values[i]));
            assert(self.blocked_bytes.blocks()[i] == concat(values[i]));
        }
        assert(self.values() =~= values);
    }

    /// The counts of items and bytes.
    proof fn lemma_counts(&self)
        requires
            self.wf(),
        ensures
            self.blocked_offsets.items().len() == concat(self.values()).len(),
            self.blocked_bytes.bytes() == concat(concat(self.values())),
            self.values().len() == self.blocked_offsets.lengths().len(),
            self.values().len() == self.blocked_bytes.blocks().len(),
    {
        lemma_concat_lens(self.values());
        lemma_concat_bytes(self.values());
    }

    /// The offsets of added items fit if their bytes do.
    proof fn lemma_can_add(&self, items: Seq<Seq<u8>>)
        requires
            self.wf(),
            self.can_add_values(items),
        ensures
            self.blocked_offsets.can_add(lens(items)),
            self.blocked_bytes.bytes().len() + concat(items).len() <= usize::MAX,
    {
        self.lemma_counts();
        self.lemma_wf();
        let all = self.values_with(items);
        lemma_appended_lens(FIXED_BLOCK_SIZING, self.cap(), self.values(), items);
        let lengths = self.blocked_offsets.lengths_with(lens(items));
        assert(lengths == lens_of_blocks(all));
        assert forall|i: int| 0 <= i < lengths.len() implies OffsetBlock::<O>::fits(
            #[trigger] lengths[i],
        ) by {
            lemma_cut_again(all[i]);
            assert(lengths[i] == lens(all[i]));
            assert(concat(all[i]).len() <= O::max_offset());
        }
    }

    /// Items that the last block has room for have offsets in it.
    proof fn lemma_room_within(&self, items: Seq<Seq<u8>>)
        requires
            self.wf(),
            self.can_add_values(items),
            FIXED_BLOCK_SIZING ==> self.values().last().len() + items.len() <= self.cap(),
        ensures
            self.blocked_offsets.lengths().last() == lens(self.values().last()),
            total(self.blocked_offsets.lengths().last() + lens(items)) <= O::max_offset(),
            total(self.blocked_offsets.lengths().last()) + total(lens(items)) <= O::max_offset(),
    {
        self.lemma_wf();
        self.lemma_counts();
        let at = self.values().len() - 1;
        let all = self.values_with(items);
        lemma_appended_within(FIXED_BLOCK_SIZING, self.cap(), self.values(), items);
        assert(all[at] == self.values().last() + items);
        assert(concat(all[at]).len() <= O::max_offset());
        lemma_cut_again(all[at]);
        assert(lens(all[at]) =~= lens(self.values().last()) + lens(items));
        assert(self.blocked_offsets.lengths()[at] == lens(self.values().last()));
        lemma_total_add(lens(self.values().last()), lens(items));
    }

    pub fn new(block_size: usize) -> (builder: Self)
        requires
            0 < block_size < usize::MAX,
        ensures
            builder.wf(),
            builder.in_sync(),
            builder.values() == seq![Seq::<Seq<u8>>::empty()],
            builder.valid() == seq![Seq::<bool>::empty()],
            !builder.pending(),
            builder.cap() == block_size,
    {
        let builder = BlockedByteArrayBuilder {
            blocked_offsets: BlockedOffsetBufferBuilder::new(block_size),
            blocked_bytes: BlockedBytesBufferBuilder::new(),
            blocked_nulls: BlockedNullsBuilder::new(block_size),
        };
        proof {
            let values = seq![Seq::<Seq<u8>>::empty()];
            assert(lens_of_blocks(values) =~= seq![Seq::<int>::empty()]) by {
                assert(lens(Seq::empty()) =~= Seq::<int>::empty());
            }
            assert(bytes_of_blocks(values) =~= seq![Seq::<u8>::empty()]);
            builder.lemma_values(values);
        }
        builder
    }

    /// The number of items whose bytes were added.
    pub fn len(&self) -> (len: usize)
        requires
            self.wf(),
        ensures
            len == concat(self.values()).len(),
    {
        proof {
            self.lemma_counts();
        }
        self.blocked_offsets.len()
    }

    /// Heap bytes that the builder has allocated, or the largest number there is if they are
    /// more than that: those of the offsets, of the bytes and of the nulls.
    pub fn allocated_size(&self) -> (bytes: usize)
        requires
            self.wf(),
        ensures
            exists|offsets: usize, data: usize, nulls: usize|
                {
                    &&& #[trigger] is_queue_size(
                        offsets,
                        size_of::<OffsetBlock<O>>(),
                        offsets_bytes(size_of::<O>(), self.values()),
                    )
                    &&& #[trigger] is_queue_size(
                        data,
                        size_of::<Vec<u8>>(),
                        items_bytes(1, bytes_of_blocks(self.values())),
                    )
                    &&& #[trigger] is_queue_size(
                        nulls,
                        size_of::<NullBufferBuilder>(),
                        bitmaps_bytes(self.valid()),
                    )
                    &&& bytes == saturated((offsets + data + nulls) as nat)
                },
    {
        let offsets: usize = self.blocked_offsets.allocated_size();
        let data: usize = self.blocked_bytes.allocated_size();
        let nulls: usize = self.blocked_nulls.allocated_size();
        proof {
            self.lemma_counts();
            assert(used_bytes::<OffsetBlock<O>>(self.blocked_offsets.lengths())
                =~= offsets_bytes(size_of::<O>(), self.values()));
            assert(used_bytes::<Vec<u8>>(self.blocked_bytes.blocks()) =~= items_bytes(
                1,
                bytes_of_blocks(self.values()),
            ));
            assert(is_queue_size(
                offsets,
                size_of::<OffsetBlock<O>>(),
                offsets_bytes(size_of::<O>(), self.values()),
            ));
            assert(is_queue_size(
                data,
                size_of::<Vec<u8>>(),
                items_bytes(1, bytes_of_blocks(self.values())),
            ));
            assert(is_queue_size(
                nulls,
                size_of::<NullBufferBuilder>(),
                bitmaps_bytes(self.valid()),
            ));
        }
        offsets.saturating_add(data).saturating_add(nulls)
    }

    /// The number of items in a full block.
    fn block_size(&self) -> (block_size: usize)
        requires
            self.wf(),
            FIXED_BLOCK_SIZING,
        ensures
            block_size == self.cap(),
    {
        self.blocked_nulls.block_size()
    }

    /// Adds a null.
    pub fn push_null(&mut self)
        requires
            old(self).wf(),
            old(self).can_add_values(seq![Seq::<u8>::empty()]),
            old(self).can_add_valid(1),
        ensures
            old(self).pushed(Seq::<u8>::empty(), false, final(self)),
            old(self).in_sync() ==> final(self).in_sync(),
    {
        let ghost before = *self;
        self.blocked_nulls.push_validity(false);
        let none: &[u8] = &[];
        proof {
            assert(none@ =~= Seq::<u8>::empty());
            assert(self.values() =~= before.values());
            assert(seq![none@] =~= seq![Seq::<u8>::empty()]);
            assert(self.values_with(seq![none@]) == before.values_with(
                seq![Seq::<u8>::empty()],
            ));
        }
        self.add_bytes(none);
        proof {
            before.lemma_in_sync(seq![Seq::<u8>::empty()], seq![false], self);
        }
    }

    /// Adds the validity of `n` items whose bytes are added later.
    pub fn append_n_valids(&mut self, n: usize)
        requires
            old(self).wf(),
            old(self).can_add_valid(n as nat),
        ensures
            final(self).wf(),
            final(self).cap() == old(self).cap(),
            final(self).values() == old(self).values(),
            final(self).pending() == old(self).pending(),
            final(self).valid() == old(self).valid_with(same_bits(true, n as nat)),
    {
        self.blocked_nulls.push_n(n, true);
    }

    /// Adds an item, a null for `None`.
    pub fn push(&mut self, item: Option<&[u8]>)
        requires
            old(self).wf(),
            old(self).can_add_values(seq![bytes_of_item(item)]),
            old(self).can_add_valid(1),
        ensures
            old(self).pushed(bytes_of_item(item), item is Some, final(self)),
            old(self).in_sync() ==> final(self).in_sync(),
    {
        let ghost before = *self;
        match item {
            None => self.push_null(),
            Some(bytes) => {
                self.append_valid();
                proof {
                    assert(seq![bytes_of_item(item)] =~= seq![bytes@]);
                    assert(self.values_with(seq![bytes@]) == before.values_with(seq![bytes@]));
                }
                self.append_valid_slice(bytes);
                proof {
                    before.lemma_in_sync(seq![bytes@], seq![true], self);
                }
            },
        }
    }

    /// Adds the validity of an item whose bytes are added later.
    pub fn append_valid(&mut self)
        requires
            old(self).wf(),
            old(self).can_add_valid(1),
        ensures
            final(self).wf(),
            final(self).cap() == old(self).cap(),
            final(self).values() == old(self).values(),
            final(self).pending() == old(self).pending(),
            final(self).valid() == old(self).valid_with(seq![true]),
    {
        self.blocked_nulls.push_non_null();
    }

    /// Adds the bytes of an item whose validity was added before.
    pub fn append_valid_slice(&mut self, bytes: &[u8])
        requires
            old(self).wf(),
            old(self).can_add_values(seq![bytes@]),
        ensures
            old(self).added_values(seq![bytes@], final(self)),
            final(self).valid() == old(self).valid(),
    {
        self.add_bytes(bytes);
    }

    fn add_bytes(&mut self, bytes: &[u8])
        requires
            old(self).wf(),
            old(self).can_add_values(seq![bytes@]),
        ensures
            old(self).added_values(seq![bytes@], final(self)),
            final(self).valid() == old(self).valid(),
    {
        let ghost before = *self;
        let ghost items = seq![bytes@];
        proof {
            self.lemma_wf();
            self.lemma_counts();
            self.lemma_can_add(items);
            lemma_concat_one(bytes@);
            assert(lens(items) =~= seq![bytes@.len() as int]);
            let last = self.values().last();
            lemma_appended_within(FIXED_BLOCK_SIZING, self.cap(), self.values(), items);
            let at = self.values().len() - 1;
            assert(self.values_with(items)[at] == last + items);
            assert(concat(self.values_with(items)[at]).len() <= O::max_offset());
            lemma_concat_add(last, items);
            lemma_cut_again(last);
            assert(self.blocked_offsets.lengths()[at] == lens(last));
        }
        self.blocked_bytes.extend_from_slice(bytes);
        let should_open_new_block = self.blocked_offsets.push_length(bytes.len());
        if should_open_new_block {
            self.blocked_bytes.start_new_block();
        }
        proof {
            before.lemma_added_within(items, self, should_open_new_block);
        }
    }

    /// Bytes, offsets and, where the block is full, a new block for both: that adds the items.
    #[verifier::spinoff_prover]
    proof fn lemma_added_within(&self, items: Seq<Seq<u8>>, after: &Self, finished: bool)
        requires
            self.wf(),
            items.len() > 0,
            FIXED_BLOCK_SIZING ==> self.values().last().len() + items.len() <= self.cap(),
            finished == (FIXED_BLOCK_SIZING && self.values().last().len() + items.len()
                == self.cap()),
            self.blocked_offsets.added(lens(items), &after.blocked_offsets),
            after.blocked_offsets.pending() == finished,
            after.blocked_bytes.wf(),
            ({
                let grown = appended(false, 0, self.blocked_bytes.blocks(), concat(items));
                after.blocked_bytes.blocks() == if finished {
                    grown.push(Seq::empty())
                } else {
                    grown
                }
            }),
            after.blocked_nulls.wf(),
            after.blocked_nulls.cap() == self.blocked_nulls.cap(),
        ensures
            self.added_values(items, after),
    {
        self.lemma_wf();
        let values = self.values();
        let all = self.values_with(items);
        lemma_appended_lens(FIXED_BLOCK_SIZING, self.cap(), values, items);
        lemma_appended_within(FIXED_BLOCK_SIZING, self.cap(), values, items);
        lemma_concat_add(values.last(), items);
        let grown = appended(false, 0, self.blocked_bytes.blocks(), concat(items));
        let block = values.update(values.len() - 1, values.last() + items);
        assert(bytes_of_blocks(block) =~= grown);
        if finished {
            assert(bytes_of_blocks(block.push(Seq::empty())) =~= grown.push(Seq::empty()));
        }
        after.lemma_values(all);
    }

    /// Adding as many bytes as validities keeps both in step.
    proof fn lemma_in_sync(&self, items: Seq<Seq<u8>>, valid: Seq<bool>, after: &Self)
        requires
            self.wf(),
            items.len() == valid.len(),
            after.values() == self.values_with(items),
            after.valid() == self.valid_with(valid),
        ensures
            self.in_sync() ==> after.in_sync(),
    {
        self.lemma_wf();
        if self.in_sync() {
            lemma_appended_shape(
                FIXED_BLOCK_SIZING,
                self.cap(),
                self.values(),
                items,
                self.valid(),
                valid,
            );
        }
    }

    /// If items can be added, so can the first of them.
    #[verifier::spinoff_prover]
    proof fn lemma_can_add_prefix(&self, items: Seq<Seq<u8>>, k: int)
        requires
            self.wf(),
            self.can_add_values(items),
            0 <= k <= items.len(),
        ensures
            self.can_add_values(items.take(k)),
    {
        self.lemma_wf();
        let part = items.take(k);
        let c = self.values_with(part);
        let all = self.values_with(items);
        assert(part + items.skip(k) =~= items);
        lemma_concat_add(part, items.skip(k));
        assert forall|i: int| 0 <= i < c.len() implies concat(#[trigger] c[i]).len()
            <= O::max_offset() by {
            lemma_appended_prefix(FIXED_BLOCK_SIZING, self.cap(), self.values(), items, k, i);
            let n = c[i].len() as int;
            assert(all[i] =~= c[i] + all[i].skip(n));
            lemma_concat_add(c[i], all[i].skip(n));
            assert(concat(all[i]).len() <= O::max_offset());
        }
    }

    /// Once the first of some items are added, the others can be added, and that gives what
    /// adding all of them gives.
    #[verifier::spinoff_prover]
    proof fn lemma_can_add_rest(&self, items: Seq<Seq<u8>>, k: int, after: &Self)
        requires
            self.wf(),
            self.can_add_values(items),
            0 <= k <= items.len(),
            self.added_values(items.take(k), after),
        ensures
            after.can_add_values(items.skip(k)),
            after.values_with(items.skip(k)) == self.values_with(items),
    {
        self.lemma_wf();
        let part = items.take(k);
        let rest = items.skip(k);
        assert(part + rest =~= items);
        lemma_concat_add(part, rest);
        lemma_appended_twice(FIXED_BLOCK_SIZING, self.cap(), self.values(), part, rest);
        lemma_appended(FIXED_BLOCK_SIZING, self.cap(), self.values(), part);
        lemma_concat_add(concat(self.values()), part);
        let all = self.values_with(items);
        assert(after.values_with(rest) == all);
        assert forall|i: int| 0 <= i < after.values_with(rest).len() implies concat(
            #[trigger] after.values_with(rest)[i],
        ).len() <= O::max_offset() by {
            assert(concat(all[i]).len() <= O::max_offset());
        }
    }

    /// Adds `n` nulls.
    pub fn append_n_nulls(&mut self, n: usize)
        requires
            old(self).wf(),
            concat(old(self).values()).len() + n <= usize::MAX,
            old(self).can_add_valid(n as nat),
        ensures
            old(self).added_values(no_bytes(n as nat), final(self)),
            n == 0 ==> final(self).pending() == (FIXED_BLOCK_SIZING && old(self).pending()),
            final(self).valid() == old(self).valid_with(same_bits(false, n as nat)),
            old(self).in_sync() ==> final(self).in_sync(),
    {
        let ghost start = *self;
        let ghost items = no_bytes(n as nat);
        let ghost valid = same_bits(false, n as nat);
        self.blocked_nulls.push_n(n, false);
        let ghost before = *self;
        proof {
            assert(self.values() =~= start.values());
            self.lemma_wf();
            assert(items.skip(0) =~= items);
        }
        if !FIXED_BLOCK_SIZING {
            let _ = self.push_empty_in_block(n);
            proof {
                start.lemma_in_sync(items, valid, self);
            }
            return;
        }
        let mut done: usize = 0;
        while done < n
            invariant
                FIXED_BLOCK_SIZING,
                self.wf(),
                self.cap() == before.cap(),
                self.valid() == before.valid(),
                items == no_bytes(n as nat),
                0 <= done <= n,
                self.values_with(items.skip(done as int)) == before.values_with(items),
                concat(self.values()).len() == concat(before.values()).len() + done,
                concat(before.values()).len() + n <= usize::MAX,
                done == 0 ==> self.pending() == before.pending(),
                done > 0 ==> self.pending() == (self.values().last().len() == 0),
            decreases n - done,
        {
            let remaining_in_current_block: usize = self.current_block_remaining_len();
            let to_add: usize = if remaining_in_current_block < n - done {
                remaining_in_current_block
            } else {
                n - done
            };
            let ghost now = *self;
            let ghost left = items.skip(done as int);
            proof {
                now.lemma_wf();
                lemma_appended_step(now.cap(), now.values(), left, to_add as int);
                lemma_appended(true, now.cap(), now.values(), left.take(to_add as int));
                assert(no_bytes(to_add as nat) =~= left.take(to_add as int));
                assert(left.skip(to_add as int) =~= items.skip(done + to_add));
            }
            let _ = self.push_empty_in_block(to_add);
            done += to_add;
        }
        proof {
            assert(items.skip(n as int) =~= Seq::<Seq<u8>>::empty());
            self.lemma_wf();
            lemma_appended_nothing(true, self.cap(), self.values());
            start.lemma_in_sync(items, valid, self);
        }
    }

    /// Adds `n` items without bytes to the current block.
    fn push_empty_in_block(&mut self, n: usize) -> (finished_block: bool)
        requires
            old(self).wf(),
            concat(old(self).values()).len() + n <= usize::MAX,
            FIXED_BLOCK_SIZING ==> old(self).values().last().len() + n <= old(self).cap(),
        ensures
            old(self).added_values(no_bytes(n as nat), final(self)),
            final(self).valid() == old(self).valid(),
            final(self).pending() == finished_block,
            finished_block == (FIXED_BLOCK_SIZING && old(self).values().last().len() + n == old(self).cap()),
    {
        let ghost before = *self;
        let ghost items = no_bytes(n as nat);
        proof {
            self.lemma_wf();
            self.lemma_counts();
            assert(lens(items) =~= repeated(0, n as nat));
            lemma_no_bytes(n as nat);
            self.blocked_bytes.lemma_wf();
            lemma_appended_nothing(false, 0, self.blocked_bytes.blocks());
        }
        let should_create_new_block = self.blocked_offsets.push_empty_within_block(n);
        if should_create_new_block {
            self.blocked_bytes.start_new_block();
        }
        proof {
            if n > 0 {
                before.lemma_added_within(items, self, should_create_new_block);
            } else {
                assert(items =~= Seq::<Seq<u8>>::empty());
                lemma_appended_nothing(FIXED_BLOCK_SIZING, before.cap(), before.values());
                lemma_appended_lens(FIXED_BLOCK_SIZING, before.cap(), before.values(), items);
                self.lemma_values(before.values());
            }
        }
        should_create_new_block
    }

    /// Adds items to the current block, nulls for `None`. Returns whether it is full now.
    ///
    /// Unless `should_mark_empty`, adding nothing does not make a pending block one that can be
    /// taken.
    pub fn extend_items_in_block(
        &mut self,
        items: &[Option<&[u8]>],
        should_mark_empty: bool,
    ) -> (finished_block: bool)
        requires
            old(self).wf(),
            old(self).in_sync(),
            FIXED_BLOCK_SIZING ==> old(self).values().last().len() + items@.len() <= old(self).cap(),
            old(self).can_add_values(bytes_of_items(items@)),
            old(self).can_add_valid(items@.len()),
        ensures
            old(self).added_values(bytes_of_items(items@), final(self)),
            final(self).valid() == old(self).valid_with(validity_of_items(items@)),
            final(self).in_sync(),
            finished_block == (FIXED_BLOCK_SIZING && old(self).values().last().len() + items@.len()
                == old(self).cap()),
            items@.len() == 0 ==> final(self).pending() == (!should_mark_empty && old(self).pending()),
    {
        let ghost before = *self;
        let ghost values = bytes_of_items(items@);
        let ghost valid = validity_of_items(items@);
        proof {
            self.lemma_wf();
            self.lemma_counts();
            self.lemma_can_add(values);
            assert(self.values()[self.values().len() - 1].len()
                == self.valid()[self.values().len() - 1].len());
            self.lemma_room_within(values);
        }
        let (flags, lengths) = write_items(&mut self.blocked_bytes, items);
        let _ = self.blocked_nulls.extend_validity_in_block(flags.as_slice());
        let should_start_new_block = self.blocked_offsets.extend_length_in_block(
            lengths.as_slice(),
            should_mark_empty,
        );
        if should_start_new_block {
            self.blocked_bytes.start_new_block();
        }
        proof {
            if items@.len() > 0 {
                before.lemma_added_within(values, self, should_start_new_block);
            } else {
                lemma_appended_nothing(FIXED_BLOCK_SIZING, before.cap(), before.values());
                lemma_appended_lens(FIXED_BLOCK_SIZING, before.cap(), before.values(), values);
                assert(values =~= Seq::<Seq<u8>>::empty());
                before.blocked_bytes.lemma_wf();
                lemma_appended_nothing(false, 0, before.blocked_bytes.blocks());
                self.lemma_values(before.values());
            }
            before.lemma_in_sync(values, valid, self);
        }
        should_start_new_block
    }

    /// How many items the current block still has room for.
    fn current_block_remaining_len(&self) -> (remaining: usize)
        requires
            self.wf(),
            FIXED_BLOCK_SIZING,
        ensures
            remaining == self.cap() - self.values().last().len(),
            remaining > 0,
    {
        proof {
            self.lemma_wf();
            assert(self.blocked_offsets.lengths().last() == lens(self.values().last()));
        }
        self.blocked_offsets.current_block_remaining_len()
    }

    /// Makes room in the queues for `n` more blocks.
    fn reserve_blocks(&mut self, n: usize)
        requires
            old(self).wf(),
        ensures
            final(self).wf(),
            final(self).cap() == old(self).cap(),
            final(self).values() == old(self).values(),
            final(self).valid() == old(self).valid(),
            final(self).pending() == old(self).pending(),
    {
        let ghost before = *self;
        self.blocked_nulls.reserve_blocks(n);
        self.blocked_offsets.reserve_blocks(n);
        self.blocked_bytes.reserve_blocks(n);
        assert(self.values() =~= before.values());
    }

    /// Opens a new block.
    pub fn start_new_block(&mut self)
        requires
            old(self).wf(),
            !FIXED_BLOCK_SIZING,
            !old(self).pending(),
        ensures
            final(self).wf(),
            final(self).cap() == old(self).cap(),
            final(self).values() == old(self).values().push(Seq::empty()),
            final(self).valid() == old(self).valid().push(Seq::empty()),
            final(self).pending(),
            old(self).in_sync() ==> final(self).in_sync(),
    {
        let ghost before = *self;
        self.blocked_bytes.start_new_block();
        self.blocked_offsets.start_new_block();
        self.blocked_nulls.start_new_block();
        proof {
            let values = before.values().push(Seq::empty());
            assert(lens(Seq::empty()) =~= Seq::<int>::empty());
            assert(lens_of_blocks(values) =~= lens_of_blocks(before.values()).push(Seq::empty()));
            assert(bytes_of_blocks(values) =~= bytes_of_blocks(before.values()).push(
                Seq::empty(),
            ));
            self.lemma_values(values);
        }
    }

    /// The number of bytes in the current block.
    pub fn current_block_bytes_len(&self) -> (len: usize)
        requires
            self.wf(),
        ensures
            len == concat(self.values().last()).len(),
    {
        proof {
            self.lemma_wf();
            assert(self.blocked_bytes.blocks().last() == concat(self.values().last()));
        }
        self.blocked_bytes.current_block_len()
    }

    /// Adds the bytes of the rows `from..to` of a column, none of which is null, to the current
    /// block in one go.
    fn extend_rows_at_once(&mut self, column: &ByteColumn<'_, O>, from: usize, to: usize)
        requires
            old(self).wf(),
            column.wf(),
            from < to <= column.len(),
            forall|i: int| from <= i < to ==> #[trigger] column.valid()[i],
            FIXED_BLOCK_SIZING ==> old(self).values().last().len() + (to - from) <= old(self).cap(),
            old(self).can_add_values(column.values().subrange(from as int, to as int)),
        ensures
            old(self).added_values(column.values().subrange(from as int, to as int), final(self)),
            final(self).valid() == old(self).valid(),
    {
        let ghost before = *self;
        let ghost items = column.values().subrange(from as int, to as int);
        let ghost offsets = column.offsets@;
        proof {
            self.lemma_wf();
            self.lemma_counts();
            self.lemma_can_add(items);
            lemma_rows(*column, from as int, to as int);
            assert(column.bytes@.len() == column.bytes.len());
            assert(offsets.len() == column.offsets.len());
            assert(offsets[0].val() <= offsets[from as int].val());
            assert(offsets[from as int].val() <= offsets[to as int].val());
            assert(offsets[to as int].val() <= offsets[offsets.len() - 1].val());
        }
        let first: usize = column.offsets[from].as_usize();
        let last: usize = column.offsets[to].as_usize();
        let bytes = vstd::slice::slice_subrange(column.bytes, first, last);
        let part = vstd::slice::slice_subrange(column.offsets, from, to + 1);
        proof {
            assert(lengths_of(part@) =~= lens(items));
            self.lemma_room_within(items);
        }
        self.blocked_bytes.extend_from_slice(bytes);
        let block_finished = self.blocked_offsets.extends_length_from_offsets_in_current_block(
            part,
        );
        if block_finished {
            self.blocked_bytes.start_new_block();
        }
        proof {
            before.lemma_added_within(items, self, block_finished);
        }
    }

    /// Adds the bytes of the rows `from..to` of a column one by one, none for a null.
    fn extend_rows_one_by_one(&mut self, column: &ByteColumn<'_, O>, from: usize, to: usize)
        requires
            old(self).wf(),
            column.wf(),
            from < to <= column.len(),
            old(self).can_add_values(column.values().subrange(from as int, to as int)),
        ensures
            old(self).added_values(column.values().subrange(from as int, to as int), final(self)),
            final(self).valid() == old(self).valid(),
    {
        let ghost before = *self;
        let ghost items = column.values().subrange(from as int, to as int);
        let ghost offsets = column.offsets@;
        let mut row: usize = from;
        proof {
            assert(items.skip(0) =~= items);
            assert(column.bytes@.len() == column.bytes.len());
            assert(offsets.len() == column.offsets.len());
        }
        while row < to
            invariant
                before.wf(),
                self.wf(),
                column.wf(),
                from <= row <= to <= column.len(),
                offsets == column.offsets@,
                offsets.len() == column.offsets.len(),
                column.bytes@.len() == column.bytes.len(),
                items == column.values().subrange(from as int, to as int),
                self.cap() == before.cap(),
                self.valid() == before.valid(),
                self.can_add_values(items.skip(row - from)),
                self.values_with(items.skip(row - from)) == before.values_with(items),
                row > from ==> self.pending() == (FIXED_BLOCK_SIZING && self.values().last().len()
                    == 0),
            decreases to - row,
        {
            let ghost now = *self;
            let ghost left = items.skip(row - from);
            let ghost value = column.values()[row as int];
            proof {
                assert(left[0] == value);
                assert(left.take(1) =~= seq![value]);
                now.lemma_can_add_prefix(left, 1);
                assert(offsets[0].val() <= offsets[row as int].val());
                assert(offsets[row as int].val() <= offsets[row + 1].val());
                assert(offsets[row + 1].val() <= offsets[offsets.len() - 1].val());
            }
            let is_valid = match column.nulls {
                Some(nulls) => is_valid_at(nulls, row),
                None => true,
            };
            if is_valid {
                let first: usize = column.offsets[row].as_usize();
                let last: usize = column.offsets[row + 1].as_usize();
                let bytes = vstd::slice::slice_subrange(column.bytes, first, last);
                assert(bytes@ == value);
                self.add_bytes(bytes);
            } else {
                let none: &[u8] = &[];
                assert(none@ =~= value);
                self.add_bytes(none);
            }
            proof {
                now.lemma_can_add_rest(left, 1, self);
                assert(left.skip(1) =~= items.skip(row + 1 - from));
            }
            row += 1;
        }
        proof {
            assert(items.skip(to - from) =~= Seq::<Seq<u8>>::empty());
            self.lemma_wf();
            lemma_appended_nothing(FIXED_BLOCK_SIZING, self.cap(), self.values());
        }
    }

    /// Adds the rows `from..to` of a column to the current block; their validity only if
    /// `nulls`, the null buffer of the column, is given.
    #[verifier::spinoff_prover]
    fn extend_rows_in_block(
        &mut self,
        column: &ByteColumn<'_, O>,
        nulls: Option<&NullBuffer>,
        from: usize,
        to: usize,
    )
        requires
            old(self).wf(),
            FIXED_BLOCK_SIZING,
            column.wf(),
            from < to <= column.len(),
            old(self).values().last().len() + (to - from) <= old(self).cap(),
            old(self).can_add_values(column.values().subrange(from as int, to as int)),
            nulls matches Some(nulls) ==> {
                &&& column.nulls == Some(nulls)
                &&& old(self).values().last().len() == old(self).valid().last().len()
                &&& old(self).can_add_valid((to - from) as nat)
            },
            nulls is None ==> forall|i: int| from <= i < to ==> #[trigger] column.valid()[i],
        ensures
            old(self).added_values(column.values().subrange(from as int, to as int), final(self)),
            final(self).valid() == if nulls is Some {
                old(self).valid_with(column.valid().subrange(from as int, to as int))
            } else {
                old(self).valid()
            },
    {
        let ghost before = *self;
        let ghost part = column.values().subrange(from as int, to as int);
        let ghost part_valid = column.valid().subrange(from as int, to as int);
        let at_once = match nulls {
            Some(nulls) => {
                let null_buffer_block = slice_nulls(nulls, from, to - from);
                self.blocked_nulls.extends_from_null_buffer_in_current_block(&null_buffer_block);
                null_count(&null_buffer_block) == 0
            },
            None => true,
        };
        proof {
            assert(self.values() =~= before.values());
            assert(self.values_with(part) == before.values_with(part));
            if at_once && nulls is Some {
                lemma_no_nulls(part_valid);
                assert forall|i: int| from <= i < to implies #[trigger] column.valid()[i] by {
                    assert(part_valid[i - from] == column.valid()[i]);
                }
            }
        }
        if at_once {
            self.extend_rows_at_once(column, from, to);
        } else {
            self.extend_rows_one_by_one(column, from, to);
        }
    }

    /// Adds all the rows of a column. The bytes of nulls are left out.
    pub fn extends_from_array(&mut self, column: &ByteColumn<'_, O>)
        requires
            old(self).wf(),
            FIXED_BLOCK_SIZING,
            old(self).in_sync(),
            column.wf(),
            old(self).can_add_values(column.values()),
            old(self).can_add_valid(column.len()),
        ensures
            old(self).extended(column, final(self)),
            final(self).in_sync(),
    {
        let ghost start = *self;
        let len: usize = column.offsets.len() - 1;
        let remaining: usize = self.current_block_remaining_len();
        let to_reserve: usize = count_blocks_needed(len, remaining, self.block_size());
        self.reserve_blocks(to_reserve);
        let nulls: Option<&NullBuffer> = match column.nulls {
            Some(nulls) => if null_count(nulls) > 0 {
                Some(nulls)
            } else {
                None
            },
            None => None,
        };
        let ghost items = column.values();
        let ghost valid = column.valid();
        proof {
            if nulls is None {
                lemma_no_nulls(valid);
                assert(valid =~= same_bits(true, len as nat));
            }
        }
        if nulls.is_none() {
            self.blocked_nulls.push_n(len, true);
        }
        let ghost before = *self;
        let ghost target_valid = start.valid_with(valid);
        let mut done: usize = 0;
        proof {
            assert(self.values() =~= start.values());
            assert(self.values_with(items) == start.values_with(items));
            assert(items.skip(0) =~= items);
            assert(valid.skip(0) =~= valid);
        }
        while done < len
            invariant
                FIXED_BLOCK_SIZING,
                self.wf(),
                column.wf(),
                len == column.offsets.len() - 1,
                items == column.values(),
                valid == column.valid(),
                valid.len() == len,
                0 <= done <= len,
                self.cap() == start.cap(),
                start.wf(),
                self.can_add_values(items.skip(done as int)),
                self.values_with(items.skip(done as int)) == start.values_with(items),
                done == 0 ==> self.pending() == start.pending(),
                done > 0 ==> self.pending() == (self.values().last().len() == 0),
                nulls matches Some(nulls) ==> {
                    &&& column.nulls == Some(nulls)
                    &&& self.in_sync()
                    &&& concat(self.valid()).len() + (len - done) <= usize::MAX
                    &&& self.valid_with(valid.skip(done as int)) == target_valid
                },
                nulls is None ==> {
                    &&& self.valid() == target_valid
                    &&& valid == same_bits(true, len as nat)
                },
            decreases len - done,
        {
            let remaining_in_current_block: usize = self.current_block_remaining_len();
            let to_add: usize = if remaining_in_current_block < len - done {
                remaining_in_current_block
            } else {
                len - done
            };
            let ghost now = *self;
            let ghost left = items.skip(done as int);
            let ghost left_valid = valid.skip(done as int);
            let ghost part = left.take(to_add as int);
            let ghost part_valid = left_valid.take(to_add as int);
            proof {
                now.lemma_wf();
                now.lemma_can_add_prefix(left, to_add as int);
                assert(items.subrange(done as int, done + to_add) =~= part);
                assert(valid.subrange(done as int, done + to_add) =~= part_valid);
                assert(left.skip(to_add as int) =~= items.skip(done + to_add));
                assert(left_valid.skip(to_add as int) =~= valid.skip(done + to_add));
                if nulls is Some {
                    assert(now.values()[now.values().len() - 1].len()
                        == now.valid()[now.values().len() - 1].len());
                    lemma_appended_step(now.cap(), now.valid(), left_valid, to_add as int);
                    lemma_appended(true, now.cap(), now.valid(), part_valid);
                }
            }
            self.extend_rows_in_block(column, nulls, done, done + to_add);
            proof {
                now.lemma_can_add_rest(left, to_add as int, self);
                if nulls is Some {
                    now.lemma_in_sync(part, part_valid, self);
                }
            }
            done += to_add;
        }
        proof {
            assert(items.skip(len as int) =~= Seq::<Seq<u8>>::empty());
            assert(valid.skip(len as int) =~= Seq::<bool>::empty());
            self.lemma_wf();
            lemma_appended_nothing(true, self.cap(), self.values());
            lemma_appended_nothing(true, self.cap(), self.valid());
            start.lemma_in_sync(items, valid, self);
        }
    }

    /// The item at a position, `None` for a null.
    pub fn value(&self, index: BlocksIndex) -> (item: Option<&[u8]>)
        requires
            self.wf(),
            self.has(index),
            self.has_validity(index),
        ensures
            item is Some == self.valid()[index.block_index as int][index.index_in_block as int],
            item matches Some(bytes) ==> bytes@
                == self.values()[index.block_index as int][index.index_in_block as int],
    {
        if self.is_null(index) {
            None
        } else {
            Some(self.value_bytes(index))
        }
    }

    /// The bytes of the item at a position, whether it is null or not.
    pub fn value_bytes(&self, index: BlocksIndex) -> (bytes: &[u8])
        requires
            self.wf(),
            self.has(index),
        ensures
            bytes@ == self.values()[index.block_index as int][index.index_in_block as int],
    {
        let (start_in_block, end_in_block) = self.value_range(index);
        let bytes_block = self.blocked_bytes.block(index.block_index());
        vstd::slice::slice_subrange(bytes_block.as_slice(), start_in_block, end_in_block)
    }

    /// Where the bytes of the item at a position lie in its block.
    fn value_range(&self, index: BlocksIndex) -> (range: (usize, usize))
        requires
            self.wf(),
            self.has(index),
        ensures
            self.blocked_bytes.blocks().len() == self.values().len(),
            ({
                let block = self.blocked_bytes.blocks()[index.block_index as int];
                &&& range.0 <= range.1 <= block.len()
                &&& block.subrange(range.0 as int, range.1 as int)
                    == self.values()[index.block_index as int][index.index_in_block as int]
            }),
    {
        proof {
            self.lemma_value_range(index);
        }
        let start_in_block: usize = self.blocked_offsets[index].as_usize();
        let end_in_block: usize = self.blocked_offsets[index.next_index_in_block()].as_usize();
        (start_in_block, end_in_block)
    }

    /// The offsets around an item are in range and enclose its bytes.
    proof fn lemma_value_range(&self, index: BlocksIndex)
        requires
            self.wf(),
            self.has(index),
        ensures
            self.blocked_bytes.blocks().len() == self.values().len(),
            self.blocked_offsets.lengths().len() == self.values().len(),
            index.index_in_block < usize::MAX,
            ({
                let b = index.block_index as int;
                let i = index.index_in_block as int;
                let lengths = self.blocked_offsets.lengths()[b];
                let block = self.blocked_bytes.blocks()[b];
                &&& i < lengths.len()
                &&& 0 <= total(lengths.take(i)) <= total(lengths.take(i + 1)) <= block.len()
                &&& block.len() <= usize::MAX
                &&& block.subrange(total(lengths.take(i)), total(lengths.take(i + 1)))
                    == self.values()[b][i]
            }),
    {
        let b = index.block_index as int;
        let i = index.index_in_block as int;
        let items = self.values()[b];
        self.lemma_counts();
        assert(self.blocked_offsets.lengths()[b] == lens(items));
        assert(self.blocked_bytes.blocks()[b] == concat(items));
        lemma_lens_take(items, i);
        lemma_lens_take(items, i + 1);
        lemma_concat_at(items, i);
        assert(items.take(i + 1).drop_last() =~= items.take(i));
        lemma_cut_again(items);
        assert(cut(concat(items), lens(items))[i] == items[i]);
        self.blocked_bytes.lemma_wf();
        lemma_concat_at(self.blocked_bytes.blocks(), b);
        self.blocked_offsets.lemma_wf();
        lemma_concat_at(self.blocked_offsets.lengths(), b);
    }

    pub fn is_valid(&self, index: BlocksIndex) -> (is_valid: bool)
        requires
            self.wf(),
            self.has_validity(index),
        ensures
            is_valid == self.valid()[index.block_index as int][index.index_in_block as int],
    {
        self.blocked_nulls[index]
    }

    pub fn is_null(&self, index: BlocksIndex) -> (is_null: bool)
        requires
            self.wf(),
            self.has_validity(index),
        ensures
            is_null == !self.valid()[index.block_index as int][index.index_in_block as int],
    {
        !self.is_valid(index)
    }

    /// The number of bytes of the item at a position.
    pub fn value_len(&self, index: BlocksIndex) -> (len: usize)
        requires
            self.wf(),
            self.has(index),
        ensures
            len == self.values()[index.block_index as int][index.index_in_block as int].len(),
    {
        let (start_in_block, end_in_block) = self.value_range(index);
        end_in_block - start_in_block
    }

    /// `after` is this builder without its first block.
    pub open spec fn without_first_block(&self, after: &Self) -> bool {
        &&& after.wf()
        &&& after.in_sync()
        &&& after.cap() == self.cap()
        &&& after.values() == if self.values().len() == 1 {
            seq![Seq::<Seq<u8>>::empty()]
        } else {
            self.values().skip(1)
        }
        &&& after.valid() == if self.values().len() == 1 {
            seq![Seq::<bool>::empty()]
        } else {
            self.valid().skip(1)
        }
        &&& after.pending() == (self.pending() || self.values().len() == 1)
    }

    /// Takes the first block. `None` if all blocks were taken.
    pub fn take_block(&mut self) -> (taken: Option<ByteBlock<O>>)
        requires
            old(self).wf(),
            old(self).in_sync(),
        ensures
            taken is Some <==> old(self).has_block(),
            match taken {
                Some(block) => {
                    &&& block.holds(old(self).values()[0], old(self).valid()[0])
                    &&& old(self).without_first_block(final(self))
                },
                None => *final(self) == *old(self),
            },
    {
        let ghost before = *self;
        let ghost values = self.values();
        proof {
            self.lemma_wf();
            self.lemma_counts();
            assert(self.blocked_offsets.lengths()[0] == lens(values[0]));
            assert(self.blocked_bytes.blocks()[0] == concat(values[0]));
        }
        match self.blocked_offsets.take_block() {
            None => None,
            Some(offsets) => match (
                self.blocked_nulls.take_block(),
                self.blocked_bytes.take_block_finished(),
            ) {
                (Some(nulls), Some(bytes)) => {
                    proof {
                        let rest = if values.len() == 1 {
                            seq![Seq::<Seq<u8>>::empty()]
                        } else {
                            values.skip(1)
                        };
                        assert(lens(Seq::empty()) =~= Seq::<int>::empty());
                        assert(lens_of_blocks(rest) =~= self.blocked_offsets.lengths());
                        assert(bytes_of_blocks(rest) =~= self.blocked_bytes.blocks());
                        self.lemma_values(rest);
                        assert forall|i: int| 0 <= i < rest.len() implies (
                        #[trigger] rest[i]).len() == self.valid()[i].len() by {
                            if values.len() > 1 {
                                assert(values[i + 1].len() == before.valid()[i + 1].len());
                            }
                        }
                    }
                    Some(ByteBlock { offsets, bytes, nulls })
                },
                _ => None,
            },
        }
    }
}

/// The bytes of neighbouring rows that are all valid are neighbours.
proof fn lemma_rows<O: OffsetSize>(column: ByteColumn<'_, O>, from: int, to: int)
    requires
        column.wf(),
        0 <= from <= to <= column.len(),
        forall|i: int| from <= i < to ==> #[trigger] column.valid()[i],
    ensures
        column.offsets@[from].val() <= column.offsets@[to].val() <= column.bytes@.len(),
        concat(column.values().subrange(from, to)) == column.bytes@.subrange(
            column.offsets@[from].val(),
            column.offsets@[to].val(),
        ),
    decreases to - from,
{
    let offsets = column.offsets@;
    let rows = column.values().subrange(from, to);
    assert(offsets[0].val() <= offsets[from].val());
    assert(offsets[from].val() <= offsets[to].val());
    assert(offsets[to].val() <= offsets[offsets.len() - 1].val());
    if from == to {
        assert(rows =~= Seq::<Seq<u8>>::empty());
        assert(concat(rows) =~= column.bytes@.subrange(offsets[from].val(), offsets[to].val()));
    } else {
        lemma_rows(column, from, to - 1);
        assert(rows.drop_last() =~= column.values().subrange(from, to - 1));
        assert(column.valid()[to - 1]);
        assert(offsets[to - 1].val() <= offsets[to].val());
        assert(rows.last() == column.bytes@.subrange(offsets[to - 1].val(), offsets[to].val()));
        assert(concat(rows) =~= column.bytes@.subrange(offsets[from].val(), offsets[to].val()));
    }
}

/// The bytes of each item, none for a null.
pub open spec fn bytes_of_items(items: Seq<Option<&[u8]>>) -> Seq<Seq<u8>> {
    Seq::new(items.len(), |i: int| bytes_of_item(items[i]))
}

/// Whether each item is valid.
pub open spec fn validity_of_items(items: Seq<Option<&[u8]>>) -> Seq<bool> {
    Seq::new(items.len(), |i: int| items[i] is Some)
}

/// `n` items without bytes.
pub open spec fn no_bytes(n: nat) -> Seq<Seq<u8>> {
    Seq::new(n, |i: int| Seq::empty())
}

proof fn lemma_no_bytes(n: nat)
    ensures
        concat(no_bytes(n)) == Seq::<u8>::empty(),
    decreases n,
{
    if n > 0 {
        lemma_no_bytes((n - 1) as nat);
        assert(no_bytes(n).drop_last() =~= no_bytes((n - 1) as nat));
        assert(concat(no_bytes(n)) =~= Seq::<u8>::empty());
    }
}

/// The bytes of an item, none for a null.
pub open spec fn bytes_of_item(item: Option<&[u8]>) -> Seq<u8> {
    match item {
        Some(bytes) => bytes@,
        None => Seq::empty(),
    }
}

proof fn lemma_concat_lens(blocks: Seq<Seq<Seq<u8>>>)
    ensures
        concat(lens_of_blocks(blocks)) == lens(concat(blocks)),
        concat(lens_of_blocks(blocks)).len() == concat(blocks).len(),
    decreases blocks.len(),
{
    if blocks.len() > 0 {
        lemma_concat_lens(blocks.drop_last());
        assert(lens_of_blocks(blocks).drop_last() =~= lens_of_blocks(blocks.drop_last()));
        assert(concat(lens_of_blocks(blocks)) =~= lens(concat(blocks)));
    } else {
        assert(concat(lens_of_blocks(blocks)) =~= lens(concat(blocks)));
    }
}

proof fn lemma_concat_bytes(blocks: Seq<Seq<Seq<u8>>>)
    ensures
        concat(bytes_of_blocks(blocks)) == concat(concat(blocks)),
    decreases blocks.len(),
{
    if blocks.len() > 0 {
        lemma_concat_bytes(blocks.drop_last());
        assert(bytes_of_blocks(blocks).drop_last() =~= bytes_of_blocks(blocks.drop_last()));
        lemma_concat_add(concat(blocks.drop_last()), blocks.last());
    } else {
        assert(concat(bytes_of_blocks(blocks)) =~= concat(concat(blocks)));
    }
}

} // verus!
