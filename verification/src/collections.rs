//! What the builders need of the standard collections and iterators.

use std::collections::VecDeque;
use vstd::layout::size_of;
use vstd::prelude::*;
use vstd::std_specs::iter::IteratorSpec;

verus! {

/// The item at `index` of the deque, for writing: `VecDeque`'s `IndexMut`.
///
/// Claimed of it: the reference starts at the item at `index`, and once it is given up
/// the deque differs from before only in that item. An index past the end, on which
/// `IndexMut` panics, is excluded.
#[verifier::external_body]
pub(crate) fn deque_at_mut<T>(deque: &mut VecDeque<T>, index: usize) -> (item: &mut T)
    requires
        index < old(deque)@.len(),
    ensures
        *item == old(deque)@[index as int],
        final(deque)@ == old(deque)@.update(index as int, *final(item)),
{
    &mut deque[index]
}

/// Heap bytes that the vector has allocated for its items: datafusion-common's
/// `VecAllocExt::allocated_size`, the item size times the vector's capacity.
///
/// How large the capacity is beyond the length is up to the allocator and to how the
/// vector grew; claimed is only that it covers the items, and that a vector never allocates more
/// than `isize::MAX` bytes.
#[verifier::external_body]
pub(crate) fn vec_allocated_size<T>(vec: &Vec<T>) -> (bytes: usize)
    ensures
        size_of::<T>() * vec@.len() <= bytes <= isize::MAX,
{
    datafusion_common::utils::proxy::VecAllocExt::allocated_size(vec)
}

/// How many items the deque has room for: `VecDeque::capacity`.
///
/// How far it goes beyond the length is up to the allocator; claimed is only that it covers
/// the items, and that a deque never allocates more than `isize::MAX` bytes.
#[verifier::external_body]
pub(crate) fn deque_capacity<T>(deque: &VecDeque<T>) -> (capacity: usize)
    ensures
        capacity >= deque@.len(),
        capacity * size_of::<T>() <= isize::MAX,
{
    deque.capacity()
}

/// Everything that the iterator still yields.
pub(crate) fn collect_all<I: Iterator>(iter: I) -> (items: Vec<I::Item>)
    requires
        iter.obeys_prophetic_iter_laws(),
        iter.decrease() is Some,
    ensures
        items@ == iter.remaining(),
{
    let mut iter = iter;
    let ghost all = iter.remaining();
    let mut items: Vec<I::Item> = Vec::new();
    loop
        invariant
            iter.obeys_prophetic_iter_laws(),
            iter.decrease() is Some,
            items@ + iter.remaining() == all,
        ensures
            items@ == all,
        decreases iter.decrease()->0,
    {
        match iter.next() {
            Some(item) => items.push(item),
            None => break,
        }
    }
    items
}

/// The next item that the iterator yields.
pub(crate) fn next_item<I: Iterator>(iter: &mut I) -> (next: Option<I::Item>)
    requires
        <I as IteratorSpec>::obeys_prophetic_iter_laws(old(iter)),
        <I as IteratorSpec>::decrease(old(iter)) is Some,
    ensures
        <I as IteratorSpec>::obeys_prophetic_iter_laws(final(iter)),
        <I as IteratorSpec>::decrease(final(iter)) is Some,
        match next {
            Some(item) => {
                &&& <I as IteratorSpec>::remaining(old(iter)).len() > 0
                &&& item == <I as IteratorSpec>::remaining(old(iter))[0]
                &&& <I as IteratorSpec>::remaining(final(iter)) == <I as IteratorSpec>::remaining(
                    old(iter),
                ).skip(1)
                &&& <I as IteratorSpec>::decrease(final(iter))->0 < <I as IteratorSpec>::decrease(
                    old(iter),
                )->0
            },
            None => {
                &&& <I as IteratorSpec>::remaining(old(iter)).len() == 0
                &&& <I as IteratorSpec>::remaining(final(iter)).len() == 0
            },
        },
{
    let ghost all = <I as IteratorSpec>::remaining(iter);
    let next = iter.next();
    assert(all.len() > 0 ==> all.drop_first() =~= all.skip(1));
    next
}

/// The next `n` items that the iterator yields, or all that are left if they are fewer.
pub(crate) fn take_from<I: Iterator>(iter: &mut I, n: usize) -> (items: Vec<I::Item>)
    requires
        <I as IteratorSpec>::obeys_prophetic_iter_laws(old(iter)),
    ensures
        <I as IteratorSpec>::obeys_prophetic_iter_laws(final(iter)),
        <I as IteratorSpec>::decrease(final(iter)) is Some == <I as IteratorSpec>::decrease(
            old(iter),
        ) is Some,
        items@ + <I as IteratorSpec>::remaining(final(iter)) == <I as IteratorSpec>::remaining(
            old(iter),
        ),
        items@.len() == n || <I as IteratorSpec>::remaining(final(iter)).len() == 0,
        items@.len() <= n,
        items@.len() == n && n > 0 && <I as IteratorSpec>::decrease(old(iter)) is Some
            ==> <I as IteratorSpec>::decrease(final(iter))->0 < <I as IteratorSpec>::decrease(
            old(iter),
        )->0,
{
    let ghost all = <I as IteratorSpec>::remaining(iter);
    let ghost start = <I as IteratorSpec>::decrease(iter);
    let mut items: Vec<I::Item> = Vec::new();
    while items.len() < n
        invariant_except_break
            items@.len() > 0 && start is Some ==> <I as IteratorSpec>::decrease(iter)->0 < start->0,
            items@.len() == 0 ==> <I as IteratorSpec>::decrease(iter) == start,
        invariant
            <I as IteratorSpec>::obeys_prophetic_iter_laws(iter),
            <I as IteratorSpec>::decrease(iter) is Some == start is Some,
            items@ + <I as IteratorSpec>::remaining(iter) == all,
            items@.len() <= n,
        ensures
            items@.len() == n || <I as IteratorSpec>::remaining(iter).len() == 0,
            items@.len() == n && n > 0 && start is Some ==> <I as IteratorSpec>::decrease(iter)->0
                < start->0,
        decreases n - items@.len(),
    {
        match iter.next() {
            Some(item) => items.push(item),
            None => break,
        }
    }
    items
}

/// Whether two slices have the same bytes.
pub(crate) fn bytes_equal(a: &[u8], b: &[u8]) -> (equal: bool)
    ensures
        equal == (a@ == b@),
{
    if a.len() != b.len() {
        return false;
    }
    let mut i: usize = 0;
    while i < b.len()
        invariant
            a@.len() == b@.len(),
            0 <= i <= b@.len(),
            forall|k: int| 0 <= k < i ==> a@[k] == b@[k],
        decreases b@.len() - i,
    {
        if a[i] != b[i] {
            return false;
        }
        i += 1;
    }
    assert(a@ =~= b@);
    true
}

} // verus!
