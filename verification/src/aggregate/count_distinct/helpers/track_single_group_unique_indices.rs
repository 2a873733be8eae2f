//! The indices that occur in one group.

use crate::collections::collect_all;
use crate::memory::{has_room, saturated};
use std::collections::HashSet;
use vstd::layout::size_of;
use vstd::prelude::*;
use vstd::std_specs::iter::IteratorSpec;

verus! {

broadcast use vstd::std_specs::hash::group_hash_axioms;

/// The indices of the values that occur in a group, each once.
pub struct SingleGroupUniqueIndices {
    unique_indices: HashSet<usize>,
}

impl SingleGroupUniqueIndices {
    pub closed spec fn view(&self) -> Set<usize> {
        self.unique_indices@
    }

    pub fn new() -> (indices: Self)
        ensures
            indices@ == Set::<usize>::empty(),
    {
        SingleGroupUniqueIndices { unique_indices: HashSet::new() }
    }

    pub fn len(&self) -> (len: usize)
        ensures
            len == self@.len(),
    {
        self.unique_indices.len()
    }

    /// The indices, in no particular order.
    pub fn indices(&self) -> (indices: Vec<usize>)
        ensures
            is_listing(indices@, self@),
    {
        let iter = self.unique_indices.iter();
        let ghost all = iter.remaining();
        let refs: Vec<&usize> = collect_all(iter);
        let mut indices: Vec<usize> = Vec::new();
        let mut i: usize = 0;
        while i < refs.len()
            invariant
                0 <= i <= refs@.len(),
                indices@ == refs@.unref().take(i as int),
            decreases refs@.len() - i,
        {
            indices.push(*refs[i]);
            assert(indices@ =~= refs@.unref().take(i + 1));
            i += 1;
        }
        proof {
            assert(indices@ =~= refs@.unref());
            assert forall|a: int, b: int|
                0 <= a < indices@.len() && 0 <= b < indices@.len() && a != b implies indices@[a]
                != indices@[b] by {
                assert(refs@[a] != refs@[b]);
            }
        }
        indices
    }

    /// Adds an index. Returns whether it is new.
    pub fn insert(&mut self, index: usize) -> (inserted: bool)
        ensures
            final(self)@ == old(self)@.insert(index),
            inserted == !old(self)@.contains(index),
    {
        self.unique_indices.insert(index)
    }

    /// Adds an index, and to `accounting_capacities` what the room in the set grew by.
    pub fn insert_accounted(
        &mut self,
        index: usize,
        accounting_capacities: &mut usize,
    ) -> (inserted: bool)
        ensures
            final(self)@ == old(self)@.insert(index),
            inserted == !old(self)@.contains(index),
            is_accounted(
                *old(accounting_capacities),
                old(self)@.len(),
                final(self)@.len(),
                *final(accounting_capacities),
            ),
    {
        let prev_capacity: usize = self.capacity();
        let inserted = self.unique_indices.insert(index);
        let capacity: usize = self.capacity();
        *accounting_capacities = account_growth(*accounting_capacities, prev_capacity, capacity);
        inserted
    }

    /// How many indices the set has room for without growing: at least those in it.
    pub fn capacity(&self) -> (capacity: usize)
        ensures
            has_room(capacity, size_of::<usize>(), self@.len()),
    {
        set_capacity(&self.unique_indices)
    }
}

impl Default for SingleGroupUniqueIndices {
    fn default() -> (indices: Self)
        ensures
            indices@ == Set::<usize>::empty(),
    {
        SingleGroupUniqueIndices::new()
    }
}

/// The capacities accounted for once a set has grown from one capacity to another.
pub open spec fn accounted(capacities: usize, prev_capacity: usize, capacity: usize) -> usize {
    if capacity > prev_capacity {
        saturated((capacities + capacity - prev_capacity) as nat)
    } else {
        capacities
    }
}

/// Adds to the capacities accounted for what a set has grown by, up to the largest number there is.
pub fn account_growth(capacities: usize, prev_capacity: usize, capacity: usize) -> (total: usize)
    ensures
        total == accounted(capacities, prev_capacity, capacity),
{
    capacities.saturating_add(capacity.saturating_sub(prev_capacity))
}

/// The capacities accounted for go from `before` to `after` because a set with `prev_len` indices
/// now has `len`: it had and has room for these.
pub open spec fn is_accounted(before: usize, prev_len: nat, len: nat, after: usize) -> bool {
    exists|prev_capacity: usize, capacity: usize|
        {
            &&& has_room(prev_capacity, size_of::<usize>(), prev_len)
            &&& has_room(capacity, size_of::<usize>(), len)
            &&& after == #[trigger] accounted(before, prev_capacity, capacity)
        }
}

/// The items list the set: each element once, in some order.
pub open spec fn is_listing<T>(items: Seq<T>, set: Set<T>) -> bool {
    &&& items.no_duplicates()
    &&& items.to_set() == set
}

/// How many elements the set has room for: `HashSet::capacity`.
///
/// How far it goes beyond the number of elements is up to the allocator; claimed is only that
/// it covers them, and that the room for them is no larger than an allocation can be, which is
/// `isize::MAX` bytes.
#[verifier::external_body]
fn set_capacity(set: &HashSet<usize>) -> (capacity: usize)
    ensures
        has_room(capacity, size_of::<usize>(), set@.len()),
{
    set.capacity()
}

} // verus!
