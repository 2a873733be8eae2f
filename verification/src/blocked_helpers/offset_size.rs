//! The integer types that offsets into a block come in.

use vstd::prelude::*;

verus! {

/// An offset type.
pub trait OffsetSize: Copy + Sized {
    /// The offset as a number.
    spec fn val(self) -> int;

    /// The largest offset of this type.
    spec fn max_offset() -> int;

    proof fn lemma_max_offset(self)
        ensures
            self.val() <= Self::max_offset(),
            0 <= Self::max_offset(),
    ;

    /// Offsets are told apart by their numbers.
    proof fn lemma_injective(self, other: Self)
        ensures
            self.val() == other.val() ==> self == other,
    ;

    fn zero() -> (offset: Self)
        ensures
            offset.val() == 0,
    ;

    /// The largest offset that is a `usize`.
    fn max_usize() -> (value: usize)
        ensures
            value == if Self::max_offset() <= usize::MAX {
                Self::max_offset()
            } else {
                usize::MAX as int
            },
    ;

    fn usize_as(value: usize) -> (offset: Self)
        requires
            value <= Self::max_offset(),
        ensures
            offset.val() == value,
    ;

    fn as_usize(self) -> (value: usize)
        requires
            0 <= self.val() <= usize::MAX,
        ensures
            value == self.val(),
    ;

    fn plus(self, other: Self) -> (offset: Self)
        requires
            0 <= self.val(),
            0 <= other.val(),
            self.val() + other.val() <= Self::max_offset(),
        ensures
            offset.val() == self.val() + other.val(),
    ;

    fn minus(self, other: Self) -> (offset: Self)
        requires
            other.val() <= self.val(),
            self.val() - other.val() <= Self::max_offset(),
        ensures
            offset.val() == self.val() - other.val(),
    ;
}

impl OffsetSize for i32 {
    open spec fn val(self) -> int {
        self as int
    }

    open spec fn max_offset() -> int {
        i32::MAX as int
    }

    proof fn lemma_max_offset(self) {
    }

    proof fn lemma_injective(self, other: Self) {
    }

    fn zero() -> (offset: Self) {
        0
    }

    fn max_usize() -> (value: usize) {
        i32::MAX as usize
    }

    fn usize_as(value: usize) -> (offset: Self) {
        value as i32
    }

    fn as_usize(self) -> (value: usize) {
        self as usize
    }

    fn plus(self, other: Self) -> (offset: Self) {
        self + other
    }

    fn minus(self, other: Self) -> (offset: Self) {
        self - other
    }
}

impl OffsetSize for i64 {
    open spec fn val(self) -> int {
        self as int
    }

    open spec fn max_offset() -> int {
        i64::MAX as int
    }

    proof fn lemma_max_offset(self) {
    }

    proof fn lemma_injective(self, other: Self) {
    }

    fn zero() -> (offset: Self) {
        0
    }

    fn max_usize() -> (value: usize) {
        if (usize::MAX as u64) < i64::MAX as u64 {
            usize::MAX
        } else {
            i64::MAX as usize
        }
    }

    fn usize_as(value: usize) -> (offset: Self) {
        value as i64
    }

    fn as_usize(self) -> (value: usize) {
        self as usize
    }

    fn plus(self, other: Self) -> (offset: Self) {
        self + other
    }

    fn minus(self, other: Self) -> (offset: Self) {
        self - other
    }
}

/// These are the offsets of a block: they start at zero and never decrease.
pub open spec fn valid_offsets<O: OffsetSize>(offsets: Seq<O>) -> bool {
    &&& offsets.len() > 0
    &&& offsets[0].val() == 0
    &&& forall|i: int, j: int|
        0 <= i <= j < offsets.len() ==> (#[trigger] offsets[i]).val() <= (
        #[trigger] offsets[j]).val()
}

/// The length of each item: how far its end lies behind its start.
pub open spec fn lengths_of<O: OffsetSize>(offsets: Seq<O>) -> Seq<int> {
    Seq::new((offsets.len() - 1) as nat, |i: int| offsets[i + 1].val() - offsets[i].val())
}

/// The sum of the lengths.
pub open spec fn total(lengths: Seq<int>) -> int
    decreases lengths.len(),
{
    if lengths.len() == 0 {
        0
    } else {
        total(lengths.drop_last()) + lengths.last()
    }
}

pub open spec fn all_non_negative(lengths: Seq<int>) -> bool {
    forall|i: int| 0 <= i < lengths.len() ==> #[trigger] lengths[i] >= 0
}

/// Items of these lengths have offsets of this type.
pub open spec fn lengths_fit<O: OffsetSize>(lengths: Seq<int>) -> bool {
    &&& all_non_negative(lengths)
    &&& total(lengths) <= O::max_offset()
}

/// These are the offsets of items of the given lengths.
pub open spec fn is_offsets_of<O: OffsetSize>(offsets: Seq<O>, lengths: Seq<int>) -> bool {
    &&& valid_offsets(offsets)
    &&& lengths_of(offsets) == lengths
}

pub proof fn lemma_total_add(a: Seq<int>, b: Seq<int>)
    ensures
        total(a + b) == total(a) + total(b),
    decreases b.len(),
{
    if b.len() == 0 {
        assert(a + b =~= a);
    } else {
        assert((a + b).drop_last() =~= a + b.drop_last());
        lemma_total_add(a, b.drop_last());
    }
}

pub proof fn lemma_total_push(a: Seq<int>, x: int)
    ensures
        total(a.push(x)) == total(a) + x,
{
    assert(a.push(x).drop_last() =~= a);
}

pub proof fn lemma_total_non_negative(a: Seq<int>)
    requires
        all_non_negative(a),
    ensures
        total(a) >= 0,
    decreases a.len(),
{
    if a.len() > 0 {
        let init = a.drop_last();
        assert forall|i: int| 0 <= i < init.len() implies #[trigger] init[i] >= 0 by {
            assert(a[i] >= 0);
        }
        lemma_total_non_negative(init);
        assert(a[a.len() - 1] >= 0);
    }
}

/// A stretch of lengths adds up to no more than all of them.
pub proof fn lemma_total_part(a: Seq<int>, from: int, to: int)
    requires
        all_non_negative(a),
        0 <= from <= to <= a.len(),
    ensures
        all_non_negative(a.subrange(from, to)),
        0 <= total(a.subrange(from, to)) <= total(a),
{
    let x = a.subrange(0, from);
    let y = a.subrange(from, to);
    let z = a.subrange(to, a.len() as int);
    assert(a =~= x + y + z);
    lemma_total_add(x + y, z);
    lemma_total_add(x, y);
    assert forall|i: int| 0 <= i < x.len() implies #[trigger] x[i] >= 0 by {
        assert(a[i] >= 0);
    }
    assert forall|i: int| 0 <= i < y.len() implies #[trigger] y[i] >= 0 by {
        assert(a[i + from] >= 0);
    }
    assert forall|i: int| 0 <= i < z.len() implies #[trigger] z[i] >= 0 by {
        assert(a[i + to] >= 0);
    }
    lemma_total_non_negative(x);
    lemma_total_non_negative(y);
    lemma_total_non_negative(z);
}

/// Each offset is the sum of the lengths before it, so the lengths determine the offsets.
pub proof fn lemma_offset_is_total<O: OffsetSize>(offsets: Seq<O>, k: int)
    requires
        valid_offsets(offsets),
        0 <= k < offsets.len(),
    ensures
        offsets[k].val() == total(lengths_of(offsets).take(k)),
    decreases k,
{
    let lengths = lengths_of(offsets);
    if k == 0 {
        assert(lengths.take(0) =~= Seq::<int>::empty());
    } else {
        lemma_offset_is_total(offsets, k - 1);
        assert(lengths.take(k).drop_last() =~= lengths.take(k - 1));
    }
}

pub proof fn lemma_valid_offsets<O: OffsetSize>(offsets: Seq<O>)
    requires
        valid_offsets(offsets),
    ensures
        all_non_negative(lengths_of(offsets)),
        total(lengths_of(offsets)) == offsets.last().val(),
        lengths_fit::<O>(lengths_of(offsets)),
        forall|i: int| 0 <= i < offsets.len() ==> 0 <= (#[trigger] offsets[i]).val(),
{
    let lengths = lengths_of(offsets);
    lemma_offset_is_total(offsets, offsets.len() - 1);
    assert(lengths.take(offsets.len() - 1) =~= lengths);
    offsets.last().lemma_max_offset();
    assert forall|i: int| 0 <= i < lengths.len() implies #[trigger] lengths[i] >= 0 by {
        assert(offsets[i].val() <= offsets[i + 1].val());
    }
    assert forall|i: int| 0 <= i < offsets.len() implies 0 <= (#[trigger] offsets[i]).val() by {
        assert(offsets[0].val() <= offsets[i].val());
    }
}

/// Two blocks of offsets with the same lengths are the same.
pub proof fn law_lengths_determine_offsets<O: OffsetSize>(a: Seq<O>, b: Seq<O>, lengths: Seq<int>)
    requires
        is_offsets_of(a, lengths),
        is_offsets_of(b, lengths),
    ensures
        a == b,
{
    assert(a.len() == lengths.len() + 1);
    assert(b.len() == lengths.len() + 1);
    assert forall|k: int| 0 <= k < a.len() implies a[k] == b[k] by {
        lemma_offset_is_total(a, k);
        lemma_offset_is_total(b, k);
        a[k].lemma_injective(b[k]);
    }
    assert(a =~= b);
}

} // verus!
