//! Views of byte strings.
//!
//! A view is 16 bytes: the length of the string in the first four, lowest byte first. A string of
//! at most 12 bytes follows in the view itself, with zeros behind it. Of a longer one follow the
//! first four bytes, the index of a buffer and the offset of the string in that buffer.

use arrow::array::{make_view, ByteView};
use vstd::prelude::*;

verus! {

/// Up to this length, a string is in its view.
pub const MAX_INLINE_VIEW_LEN: u32 = 12;

/// The number that bytes stand for, lowest byte first.
pub open spec fn little_endian(bytes: Seq<u8>) -> nat
    decreases bytes.len(),
{
    if bytes.len() == 0 {
        0
    } else {
        bytes[0] as nat + 256 * little_endian(bytes.skip(1))
    }
}

/// The view of a string.
pub open spec fn view_of(string: Seq<u8>, buffer_index: u32, offset: u32) -> int {
    if string.len() <= MAX_INLINE_VIEW_LEN {
        string.len() as int + 0x1_0000_0000 * little_endian(string) as int
    } else {
        view_with(string.len() as int, little_endian(string.take(4)) as int, buffer_index, offset)
    }
}

/// The view with these parts.
pub open spec fn view_with(length: int, prefix: int, buffer_index: u32, offset: u32) -> int {
    length + 0x1_0000_0000 * prefix + 0x1_0000_0000_0000_0000 * buffer_index
        + 0x1_0000_0000_0000_0000_0000_0000 * offset
}

/// The view stands for the string.
pub open spec fn is_view_of(view: u128, string: Seq<u8>, buffers: Seq<Seq<u8>>) -> bool {
    &&& string.len() <= u32::MAX
    &&& if string.len() <= MAX_INLINE_VIEW_LEN {
        view == view_of(string, 0, 0)
    } else {
        exists|buffer_index: u32, offset: u32|
            #[trigger] view_of(string, buffer_index, offset) == view && lies_at(
                string,
                buffers,
                buffer_index,
                offset,
            )
    }
}

/// The string is in a buffer.
pub open spec fn lies_at(
    string: Seq<u8>,
    buffers: Seq<Seq<u8>>,
    buffer_index: u32,
    offset: u32,
) -> bool {
    &&& buffer_index < buffers.len()
    &&& offset + string.len() <= buffers[buffer_index as int].len()
    &&& buffers[buffer_index as int].subrange(offset as int, offset + string.len()) == string
}

/// The string that a view stands for.
pub open spec fn string_of(view: u128, buffers: Seq<Seq<u8>>) -> Seq<u8> {
    choose|string: Seq<u8>| is_view_of(view, string, buffers)
}

/// The parts of a view.
pub struct ViewParts {
    pub length: u32,
    pub prefix: u32,
    pub buffer_index: u32,
    pub offset: u32,
}

/// Arrow's `make_view`: the view of a string, which refers to a buffer only if the string is too
/// long to be in the view. It takes the length as 32 bits, so longer strings are excluded.
#[verifier::external_body]
pub(crate) fn new_view(string: &[u8], buffer_index: u32, offset: u32) -> (view: u128)
    requires
        string@.len() <= u32::MAX,
    ensures
        view == view_of(string@, buffer_index, offset),
{
    make_view(string, buffer_index, offset)
}

/// `ByteView::from` on a `u128`: the four parts of a view, 32 bits each.
#[verifier::external_body]
pub(crate) fn view_parts(view: u128) -> (parts: ViewParts)
    ensures
        view == view_with(
            parts.length as int,
            parts.prefix as int,
            parts.buffer_index,
            parts.offset,
        ),
{
    let view = ByteView::from(view);
    ViewParts {
        length: view.length,
        prefix: view.prefix,
        buffer_index: view.buffer_index,
        offset: view.offset,
    }
}

proof fn lemma_little_endian_bound(bytes: Seq<u8>)
    ensures
        bytes.len() == 4 ==> little_endian(bytes) <= u32::MAX,
{
    if bytes.len() == 4 {
        reveal_with_fuel(little_endian, 6);
        assert(bytes.skip(1).skip(1).skip(1).skip(1).len() == 0);
    }
}

/// Strings of the same length are told apart by their numbers.
proof fn lemma_little_endian_injective(a: Seq<u8>, b: Seq<u8>)
    requires
        a.len() == b.len(),
        little_endian(a) == little_endian(b),
    ensures
        a == b,
    decreases a.len(),
{
    if a.len() > 0 {
        assert(a[0] == b[0]);
        lemma_little_endian_injective(a.skip(1), b.skip(1));
        assert(a =~= seq![a[0]] + a.skip(1));
        assert(b =~= seq![b[0]] + b.skip(1));
    } else {
        assert(a =~= b);
    }
}

/// A view has only one set of parts.
pub proof fn lemma_parts(a: ViewParts, length: int, prefix: int, buffer_index: u32, offset: u32)
    requires
        0 <= length <= u32::MAX,
        0 <= prefix <= u32::MAX,
        view_with(a.length as int, a.prefix as int, a.buffer_index, a.offset) == view_with(
            length,
            prefix,
            buffer_index,
            offset,
        ),
    ensures
        a.length == length,
        a.prefix == prefix,
        a.buffer_index == buffer_index,
        a.offset == offset,
{
}

/// The first part of a view is the length of the string; if the string is not in the view, the
/// others are the start of the string and the place where it is.
pub proof fn lemma_view(view: u128, string: Seq<u8>, buffers: Seq<Seq<u8>>, parts: ViewParts)
    requires
        is_view_of(view, string, buffers),
        view == view_with(
            parts.length as int,
            parts.prefix as int,
            parts.buffer_index,
            parts.offset,
        ),
    ensures
        parts.length == string.len(),
        string.len() > MAX_INLINE_VIEW_LEN ==> {
            &&& parts.prefix == little_endian(string.take(4))
            &&& lies_at(string, buffers, parts.buffer_index, parts.offset)
        },
{
    if string.len() > MAX_INLINE_VIEW_LEN {
        let (buffer_index, offset) = choose|buffer_index: u32, offset: u32|
            #[trigger] view_of(string, buffer_index, offset) == view && lies_at(
                string,
                buffers,
                buffer_index,
                offset,
            );
        lemma_little_endian_bound(string.take(4));
        lemma_parts(
            parts,
            string.len() as int,
            little_endian(string.take(4)) as int,
            buffer_index,
            offset,
        );
    } else {
        assert(view % 0x1_0000_0000 == string.len());
        assert(view % 0x1_0000_0000 == parts.length);
    }
}

/// Two strings that are in their views are the same exactly if the views are.
pub proof fn lemma_inline_views(
    view_a: u128,
    a: Seq<u8>,
    buffers_a: Seq<Seq<u8>>,
    view_b: u128,
    b: Seq<u8>,
    buffers_b: Seq<Seq<u8>>,
)
    requires
        is_view_of(view_a, a, buffers_a),
        is_view_of(view_b, b, buffers_b),
        b.len() <= MAX_INLINE_VIEW_LEN,
    ensures
        view_a == view_b <==> a == b,
{
    if view_a == view_b {
        let parts = parts_of(view_a);
        lemma_parts_of(view_a);
        lemma_view(view_a, a, buffers_a, parts);
        lemma_view(view_b, b, buffers_b, parts);
        lemma_little_endian_injective(a, b);
    }
}

/// The parts of a view.
pub open spec fn parts_of(view: u128) -> ViewParts {
    ViewParts {
        length: (view % 0x1_0000_0000) as u32,
        prefix: (view / 0x1_0000_0000 % 0x1_0000_0000) as u32,
        buffer_index: (view / 0x1_0000_0000 / 0x1_0000_0000 % 0x1_0000_0000) as u32,
        offset: (view / 0x1_0000_0000 / 0x1_0000_0000 / 0x1_0000_0000) as u32,
    }
}

/// The parts make up the view.
pub proof fn lemma_parts_of(view: u128)
    ensures
        ({
            let parts = parts_of(view);
            view == view_with(
                parts.length as int,
                parts.prefix as int,
                parts.buffer_index,
                parts.offset,
            )
        }),
{
    let a = view as int;
    let b = a / 0x1_0000_0000;
    let c = b / 0x1_0000_0000;
    let d = c / 0x1_0000_0000;
    assert(a == a % 0x1_0000_0000 + 0x1_0000_0000 * b);
    assert(b == b % 0x1_0000_0000 + 0x1_0000_0000 * c);
    assert(c == c % 0x1_0000_0000 + 0x1_0000_0000 * d);
    assert(0 <= d <= u32::MAX);
}

/// A view stands for one string only.
pub proof fn lemma_string_of(view: u128, string: Seq<u8>, buffers: Seq<Seq<u8>>)
    requires
        is_view_of(view, string, buffers),
    ensures
        string_of(view, buffers) == string,
{
    let other = string_of(view, buffers);
    assert(is_view_of(view, other, buffers));
    let parts = parts_of(view);
    lemma_parts_of(view);
    lemma_view(view, string, buffers, parts);
    lemma_view(view, other, buffers, parts);
    if string.len() <= MAX_INLINE_VIEW_LEN {
        lemma_inline_views(view, string, buffers, view, other, buffers);
    }
}

/// `after` has the buffers of `before`, with more bytes behind those of each or more buffers
/// behind them.
pub open spec fn extends_buffers(before: Seq<Seq<u8>>, after: Seq<Seq<u8>>) -> bool {
    &&& before.len() <= after.len()
    &&& forall|i: int|
        0 <= i < before.len() ==> {
            &&& (#[trigger] before[i]).len() <= after[i].len()
            &&& after[i].take(before[i].len() as int) == before[i]
        }
}

/// A view stands for the same string when more is added to the buffers.
pub proof fn lemma_extends(view: u128, string: Seq<u8>, before: Seq<Seq<u8>>, after: Seq<Seq<u8>>)
    requires
        is_view_of(view, string, before),
        extends_buffers(before, after),
    ensures
        is_view_of(view, string, after),
{
    if string.len() > MAX_INLINE_VIEW_LEN {
        let (buffer_index, offset) = choose|buffer_index: u32, offset: u32|
            #[trigger] view_of(string, buffer_index, offset) == view && lies_at(
                string,
                before,
                buffer_index,
                offset,
            );
        let old_buffer = before[buffer_index as int];
        let buffer = after[buffer_index as int];
        assert(buffer.take(old_buffer.len() as int) == old_buffer);
        assert(buffer.subrange(offset as int, offset + string.len()) =~= buffer.take(
            old_buffer.len() as int,
        ).subrange(offset as int, offset + string.len()));
        assert(lies_at(string, after, buffer_index, offset));
        assert(view_of(string, buffer_index, offset) == view);
    }
}

} // verus!
