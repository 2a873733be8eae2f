//! One block of offsets.

use crate::blocked_helpers::offset_size::{
    is_offsets_of, lemma_total_part, lemma_total_push, lemma_valid_offsets, lengths_fit,
    lengths_of, total, valid_offsets, OffsetSize,
};
use crate::blocked_helpers::take_n_helpers::BlockBuilder;
use crate::collections::vec_allocated_size;
use std::ops::Range;
use vstd::layout::size_of;
use vstd::prelude::*;

verus! {

/// The offsets of a block: the initial zero and the end of each item.
#[derive(Debug)]
pub struct OffsetBlock<O: OffsetSize> {
    offsets: Vec<O>,
}

impl<O: OffsetSize> OffsetBlock<O> {
    pub closed spec fn offsets(&self) -> Seq<O> {
        self.offsets@
    }

    pub(crate) fn new() -> (block: Self)
        ensures
            block.valid(),
            block.items() == Seq::<int>::empty(),
    {
        let mut offsets: Vec<O> = Vec::new();
        offsets.push(O::zero());
        let block = OffsetBlock { offsets };
        assert(block.items() =~= Seq::<int>::empty());
        block
    }

    /// The offsets.
    pub fn as_slice(&self) -> (offsets: &[O])
        ensures
            offsets@ == self.offsets(),
    {
        self.offsets.as_slice()
    }

    /// The items together are not of negative length.
    pub(crate) proof fn lemma_total_non_negative(&self)
        requires
            self.valid(),
        ensures
            total(self.items()) >= 0,
    {
        lemma_valid_offsets(self.offsets());
    }

    /// The end of the last item.
    pub(crate) fn last_offset(&self) -> (offset: O)
        requires
            self.valid(),
        ensures
            offset == self.offsets().last(),
            offset.val() == total(self.items()),
            0 <= offset.val(),
    {
        proof {
            lemma_valid_offsets(self.offsets@);
        }
        self.offsets[self.offsets.len() - 1]
    }

    /// Adds an item that ends at `offset`.
    pub(crate) fn push_offset(&mut self, offset: O)
        requires
            old(self).valid(),
            total(old(self).items()) <= offset.val(),
        ensures
            final(self).valid(),
            final(self).items() == old(self).items().push(
                offset.val() - total(old(self).items()),
            ),
    {
        let ghost before = self.offsets@;
        proof {
            lemma_valid_offsets(before);
        }
        self.offsets.push(offset);
        proof {
            let after = self.offsets@;
            assert forall|i: int, j: int| 0 <= i <= j < after.len() implies (
            #[trigger] after[i]).val() <= (#[trigger] after[j]).val() by {
                if i < before.len() {
                    assert(before[i].val() <= before.last().val());
                }
            }
            assert(lengths_of(after) =~= lengths_of(before).push(
                offset.val() - total(lengths_of(before)),
            ));
        }
    }

    /// Adds an item of the given length.
    pub(crate) fn push_length(&mut self, length: O)
        requires
            old(self).valid(),
            0 <= length.val(),
            total(old(self).items()) + length.val() <= O::max_offset(),
        ensures
            final(self).valid(),
            final(self).items() == old(self).items().push(length.val()),
    {
        let offset = self.last_offset().plus(length);
        self.push_offset(offset);
    }

    /// Adds `n` items of the given length.
    pub(crate) fn push_length_n(&mut self, length: O, n: usize)
        requires
            old(self).valid(),
            0 <= length.val(),
            total(old(self).items()) + length.val() * n <= O::max_offset(),
        ensures
            final(self).valid(),
            final(self).items() == old(self).items() + Seq::new(n as nat, |i: int| length.val()),
    {
        let ghost before = self.items();
        let mut i: usize = 0;
        assert(before + Seq::new(0, |i: int| length.val()) =~= before);
        while i < n
            invariant
                self.valid(),
                0 <= i <= n,
                0 <= length.val(),
                total(before) + length.val() * n <= O::max_offset(),
                self.items() == before + Seq::new(i as nat, |k: int| length.val()),
                total(self.items()) == total(before) + length.val() * i,
            decreases n - i,
        {
            proof {
                assert(length.val() * i + length.val() == length.val() * (i + 1))
                    by (nonlinear_arith);
                assert(length.val() * (i + 1) <= length.val() * n) by (nonlinear_arith)
                    requires
                        0 <= length.val(),
                        i + 1 <= n,
                ;
                lemma_total_push(self.items(), length.val());
            }
            self.push_length(length);
            assert(self.items() =~= before + Seq::new((i + 1) as nat, |k: int| length.val()));
            i += 1;
        }
    }
}

impl<O: OffsetSize> BlockBuilder for OffsetBlock<O> {
    type Item = int;

    type Output = Vec<O>;

    open spec fn items(&self) -> Seq<int> {
        lengths_of(self.offsets())
    }

    open spec fn valid(&self) -> bool {
        valid_offsets(self.offsets())
    }

    open spec fn fits(items: Seq<int>) -> bool {
        lengths_fit::<O>(items)
    }

    open spec fn bytes_of(items: Seq<int>) -> nat {
        size_of::<O>() * (items.len() + 1)
    }

    open spec fn is_output(output: Vec<O>, items: Seq<int>) -> bool {
        is_offsets_of(output@, items)
    }

    proof fn lemma_fits_part(items: Seq<int>, from: int, to: int) {
        lemma_total_part(items, from, to);
    }

    fn with_capacity(capacity: usize) -> (block: Self) {
        let _ = capacity;
        OffsetBlock::new()
    }

    fn len(&self) -> (len: usize) {
        self.offsets.len() - 1
    }

    fn truncate(&mut self, len: usize) {
        let ghost before = self.offsets@;
        assert(len < self.offsets.len());
        self.offsets.truncate(len + 1);
        assert(lengths_of(self.offsets@) =~= lengths_of(before).take(len as int));
    }

    fn append_range(&mut self, src: &Self, range: Range<usize>) {
        let ghost before = self.items();
        let ghost part = src.items().subrange(range.start as int, range.end as int);
        let mut i: usize = range.start;
        assert(before + part.take(0) =~= before);
        while i < range.end
            invariant
                self.valid(),
                src.valid(),
                range.start <= i <= range.end <= src.items().len(),
                lengths_fit::<O>(before + part),
                part == src.items().subrange(range.start as int, range.end as int),
                self.items() == before + part.take(i - range.start),
            decreases range.end - i,
        {
            proof {
                lemma_valid_offsets(src.offsets());
                let k = i - range.start;
                lemma_total_part(before + part, 0, before.len() + k + 1);
                assert((before + part).subrange(0, before.len() + k + 1) =~= self.items().push(
                    part[k],
                ));
                lemma_total_push(self.items(), part[k]);
            }
            let length = src.offsets[i + 1].minus(src.offsets[i]);
            self.push_length(length);
            assert(self.items() =~= before + part.take(i + 1 - range.start));
            i += 1;
        }
        assert(part.take(part.len() as int) =~= part);
    }

    fn shift_down(&mut self, offset: usize, len: usize) {
        let ghost before = self.offsets@;
        proof {
            lemma_valid_offsets(before);
        }
        let base = self.offsets[offset];
        let mut i: usize = 0;
        while i <= len
            invariant
                valid_offsets(before),
                forall|j: int| 0 <= j < before.len() ==> 0 <= (#[trigger] before[j]).val(),
                self.offsets.len() == before.len(),
                offset + len < before.len(),
                base == before[offset as int],
                i <= len + 1,
                forall|j: int|
                    0 <= j < i ==> (#[trigger] self.offsets@[j]).val() == before[j + offset].val()
                        - base.val(),
                forall|j: int|
                    i <= j < before.len() ==> #[trigger] self.offsets@[j] == before[j],
            decreases len + 1 - i,
        {
            assert(self.offsets@[i + offset] == before[i + offset]);
            proof {
                assert(before[offset as int].val() <= before[i + offset].val());
                before[i + offset].lemma_max_offset();
            }
            let moved = self.offsets[i + offset].minus(base);
            self.offsets.set(i, moved);
            i += 1;
        }
        self.offsets.truncate(len + 1);
        proof {
            let after = self.offsets@;
            assert forall|i: int, j: int| 0 <= i <= j < after.len() implies (
            #[trigger] after[i]).val() <= (#[trigger] after[j]).val() by {
                assert(before[i + offset].val() <= before[j + offset].val());
            }
            assert(lengths_of(after) =~= lengths_of(before).subrange(
                offset as int,
                offset + len,
            )) by {
                assert forall|i: int| 0 <= i < len implies #[trigger] lengths_of(
                    after,
                )[i] == lengths_of(before)[i + offset] by {
                    assert(after[i + 1].val() == before[i + 1 + offset].val() - base.val());
                }
            }
        }
    }

    fn allocated_size(&self) -> (bytes: usize) {
        vec_allocated_size(&self.offsets)
    }

    fn finish(self) -> (output: Vec<O>) {
        self.offsets
    }
}

} // verus!
