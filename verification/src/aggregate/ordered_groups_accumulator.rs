//! What an adapter from accumulators of single groups to ordered groups keeps and computes.

use crate::collections::{next_item, vec_allocated_size};
use crate::memory::covers;
use vstd::layout::size_of;
use vstd::prelude::*;
use vstd::std_specs::iter::IteratorSpec;

verus! {

/// Extension trait for vectors to account for allocations.
pub trait VecAllocExt {
    /// Item type.
    type T;

    /// The bytes that the items take.
    spec fn used_bytes(&self) -> nat;

    /// The amount of memory allocated by the vector, not counting any heap allocations contained
    /// within the items and not including the size of `self`. It covers the items; how far it
    /// goes beyond them is up to the allocator.
    fn allocated_size(&self) -> (bytes: usize)
        ensures
            covers(bytes, self.used_bytes()),
    ;
}

impl<T> VecAllocExt for Vec<T> {
    type T = T;

    open spec fn used_bytes(&self) -> nat {
        size_of::<T>() * self@.len()
    }

    fn allocated_size(&self) -> (bytes: usize) {
        vec_allocated_size(self)
    }
}

/// A running count of allocated bytes, updated with differences rather than counted anew.
#[derive(Debug, Clone, Copy)]
pub struct AllocationBytes {
    bytes: usize,
}

impl AllocationBytes {
    pub closed spec fn view(&self) -> nat {
        self.bytes as nat
    }

    pub fn new() -> (allocation: Self)
        ensures
            allocation@ == 0,
    {
        AllocationBytes { bytes: 0 }
    }

    pub fn size(&self) -> (bytes: usize)
        ensures
            bytes == self@,
    {
        self.bytes
    }

    /// Increases the count by `size`.
    pub fn add_allocation(&mut self, size: usize)
        requires
            old(self)@ + size <= usize::MAX,
        ensures
            final(self)@ == old(self)@ + size,
    {
        self.bytes = self.bytes + size;
    }

    /// Decreases the count by `size`, stopping at zero if erroneous sizes were reported.
    pub fn free_allocation(&mut self, size: usize)
        ensures
            final(self)@ == if old(self)@ >= size {
                (old(self)@ - size) as nat
            } else {
                0
            },
    {
        self.bytes = self.bytes.saturating_sub(size);
    }

    /// Adjusts the count for something that had `old_size` and now has `new_size`.
    pub fn adjust_allocation(&mut self, old_size: usize, new_size: usize)
        requires
            new_size > old_size ==> old(self)@ + new_size - old_size <= usize::MAX,
        ensures
            final(self)@ == if old(self)@ + new_size >= old_size {
                (old(self)@ + new_size - old_size) as nat
            } else {
                0
            },
    {
        if new_size > old_size {
            self.add_allocation(new_size - old_size);
        } else {
            self.free_allocation(old_size - new_size);
        }
    }
}

/// Turns the states of groups, each a value for every column, into columns with a value for
/// every group.
pub fn states_to_columns<S>(states: Vec<Vec<S>>) -> (columns: Vec<Vec<S>>)
    requires
        forall|i: int, j: int|
            0 <= i < states@.len() && 0 <= j < states@.len() ==> (#[trigger] states@[i])@.len() == (
            #[trigger] states@[j])@.len(),
    ensures
        states@.len() == 0 ==> columns@.len() == 0,
        states@.len() > 0 ==> columns@.len() == states@[0]@.len(),
        forall|c: int| 0 <= c < columns@.len() ==> (#[trigger] columns@[c])@.len() == states@.len(),
        forall|c: int, r: int|
            0 <= c < columns@.len() && 0 <= r < states@.len() ==> (#[trigger] columns@[c]@[r])
                == states@[r]@[c],
{
    let ghost all = states@;
    let mut columns: Vec<Vec<S>> = Vec::new();
    if states.len() == 0 {
        return columns;
    }
    let width: usize = states[0].len();
    let mut i: usize = 0;
    while i < width
        invariant
            0 <= i <= width,
            columns@.len() == i,
            forall|c: int| 0 <= c < i ==> (#[trigger] columns@[c])@.len() == 0,
        decreases width - i,
    {
        columns.push(Vec::new());
        i += 1;
    }
    let ghost mut done: int = 0;
    let mut rows = states.into_iter();
    loop
        invariant_except_break
            rows.remaining() == all.skip(done),
        invariant
            rows.obeys_prophetic_iter_laws(),
            rows.decrease() is Some,
            0 <= done <= all.len(),
            columns@.len() == width,
            forall|r: int| 0 <= r < all.len() ==> (#[trigger] all[r])@.len() == width,
            forall|c: int| 0 <= c < width ==> (#[trigger] columns@[c])@.len() == done,
            forall|c: int, r: int|
                0 <= c < width && 0 <= r < done ==> (#[trigger] columns@[c]@[r]) == all[r]@[c],
        ensures
            done == all.len(),
        decreases rows.decrease()->0,
    {
        match next_item(&mut rows) {
            None => break,
            Some(state) => {
                assert(state == all[done]);
                add_row(&mut columns, state, Ghost(done));
                proof {
                    assert(all.skip(done).skip(1) =~= all.skip(done + 1));
                    done = done + 1;
                }
            },
        }
    }
    columns
}

/// Adds a value to each column.
fn add_row<S>(columns: &mut Vec<Vec<S>>, row: Vec<S>, Ghost(height): Ghost<int>)
    requires
        old(columns)@.len() == row@.len(),
        forall|c: int|
            0 <= c < old(columns)@.len() ==> (#[trigger] old(columns)@[c])@.len() == height,
    ensures
        final(columns)@.len() == old(columns)@.len(),
        forall|c: int|
            0 <= c < final(columns)@.len() ==> (#[trigger] final(columns)@[c])@ == old(
                columns,
            )@[c]@.push(row@[c]),
{
    let ghost before = columns@;
    let ghost all = row@;
    let mut values = row.into_iter();
    let mut c: usize = 0;
    loop
        invariant_except_break
            values.remaining() == all.skip(c as int),
        invariant
            values.obeys_prophetic_iter_laws(),
            values.decrease() is Some,
            0 <= c <= all.len(),
            columns.len() == before.len() == all.len(),
            forall|k: int|
                0 <= k < c ==> (#[trigger] columns@[k])@ == before[k]@.push(all[k]),
            forall|k: int| c <= k < all.len() ==> #[trigger] columns@[k] == before[k],
        ensures
            c == all.len(),
        decreases values.decrease()->0,
    {
        match next_item(&mut values) {
            None => break,
            Some(value) => {
                assert(value == all[c as int]);
                assert(all.skip(c as int).skip(1) =~= all.skip(c + 1));
                columns[c].push(value);
                c += 1;
            },
        }
    }
}

} // verus!
