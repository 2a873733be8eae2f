//! The values that occur in any group, each stored once.

use crate::blocked_helpers::layout::sum;
use crate::collections::{deque_capacity, vec_allocated_size};
use crate::memory::{allocated_bytes, covers, has_room, saturated};
use std::collections::VecDeque;
use std::marker::PhantomData;
use std::ops::Deref;
use vstd::layout::size_of;
use vstd::prelude::*;

verus! {

/// Unique values with the number of groups that use each of them.
pub struct CollectSetGroupAccumulatorValues<T, GetSizeV: GetHeapAllocatedSize<T>> {
    /// The values.
    values: Vec<T>,
    /// For each value, the number of groups that use it. When it comes down to zero, the place of
    /// the value becomes available, so that no index has to change.
    unique_values_ref_count: Vec<usize>,
    /// The places that can be used again, first come first served.
    available_indices: VecDeque<usize>,
    phantom_data: PhantomData<GetSizeV>,
}

impl<T, GetSizeV: GetHeapAllocatedSize<T>> CollectSetGroupAccumulatorValues<T, GetSizeV> {
    /// The value at each place.
    pub closed spec fn values(&self) -> Seq<T> {
        self.values@
    }

    /// The number of groups that use the value at each place.
    pub closed spec fn ref_counts(&self) -> Seq<usize> {
        self.unique_values_ref_count@
    }

    /// The places that can be used again.
    pub closed spec fn available(&self) -> Seq<usize> {
        self.available_indices@
    }

    /// Only places that no group uses are available, and each only once.
    pub open spec fn wf(&self) -> bool {
        &&& self.ref_counts().len() == self.values().len()
        &&& self.available().no_duplicates()
        &&& forall|k: int|
            0 <= k < self.available().len() ==> {
                &&& (#[trigger] self.available()[k]) < self.values().len()
                &&& self.ref_counts()[self.available()[k] as int] == 0
            }
    }

    /// `after` is the same with `count` more groups that use the value at `index`.
    pub open spec fn counted_up(&self, index: usize, count: usize, after: &Self) -> bool {
        &&& self.wf() && !self.available().contains(index) ==> after.wf()
        &&& after.values() == self.values()
        &&& after.available() == self.available()
        &&& after.ref_counts() == self.ref_counts().update(
            index as int,
            (self.ref_counts()[index as int] + count) as usize,
        )
    }

    /// `after` is the same with one group less that uses the value at `index`, whose place is the
    /// last available one if it was the only group.
    pub open spec fn counted_down(&self, index: usize, after: &Self) -> bool {
        &&& self.wf() ==> after.wf()
        &&& after.values() == self.values()
        &&& after.ref_counts() == self.ref_counts().update(
            index as int,
            (self.ref_counts()[index as int] - 1) as usize,
        )
        &&& after.available() == if self.ref_counts()[index as int] == 1 {
            self.available().push(index)
        } else {
            self.available()
        }
    }

    /// The place became available between this and `after`.
    pub open spec fn is_vacated(&self, i: int, after: &Self) -> bool {
        exists|k: int|
            self.available().len() <= k < after.available().len() && (
            #[trigger] after.available()[k]) == i
    }

    /// `after` is the same with more places available. Where a blank value is given, each of these
    /// has a clone of it; all other values are the same.
    pub open spec fn vacated(&self, blank: Option<T>, after: &Self) -> bool where T: Clone {
        &&& self.available().len() <= after.available().len()
        &&& after.available().take(self.available().len() as int) == self.available()
        &&& after.values().len() == self.values().len()
        &&& forall|i: int|
            0 <= i < after.values().len() ==> {
                let value = #[trigger] after.values()[i];
                match blank {
                    Some(blank) if self.is_vacated(i, after) => cloned(blank, value),
                    _ => value == self.values()[i],
                }
            }
    }

    /// Every place has an index.
    pub proof fn lemma_len(&self)
        ensures
            self.values().len() <= usize::MAX,
            self.ref_counts().len() <= usize::MAX,
    {
        assert(self.values.len() == self.values@.len());
        assert(self.unique_values_ref_count.len() == self.unique_values_ref_count@.len());
    }

    pub fn with_capacity(capacity: usize) -> (values: Self)
        ensures
            values.wf(),
            values.values() == Seq::<T>::empty(),
            values.ref_counts() == Seq::<usize>::empty(),
            values.available() == Seq::<usize>::empty(),
    {
        CollectSetGroupAccumulatorValues {
            values: Vec::with_capacity(capacity),
            unique_values_ref_count: Vec::with_capacity(capacity),
            available_indices: VecDeque::with_capacity(capacity),
            phantom_data: PhantomData,
        }
    }

    /// Inserts a value that is known to be new at the first available place, or behind the others.
    /// Returns its index. No group uses it yet.
    pub fn insert_new_unique(&mut self, value: T) -> (index: usize)
        requires
            old(self).wf(),
        ensures
            final(self).wf(),
            old(self).available().len() > 0 ==> {
                &&& index == old(self).available()[0]
                &&& final(self).values() == old(self).values().update(index as int, value)
                &&& final(self).ref_counts() == old(self).ref_counts()
                &&& final(self).available() == old(self).available().skip(1)
            },
            old(self).available().len() == 0 ==> {
                &&& index == old(self).values().len()
                &&& final(self).values() == old(self).values().push(value)
                &&& final(self).ref_counts() == old(self).ref_counts().push(0)
                &&& final(self).available() == old(self).available()
            },
    {
        let ghost before = *self;
        match self.available_indices.pop_front() {
            Some(index) => {
                assert(before.available()[0] == index);
                self.values.set(index, value);
                proof {
                    assert(self.available() =~= before.available().skip(1));
                    assert forall|k: int| 0 <= k < self.available().len() implies {
                        &&& (#[trigger] self.available()[k]) < self.values().len()
                        &&& self.ref_counts()[self.available()[k] as int] == 0
                    } by {
                        assert(self.available()[k] == before.available()[k + 1]);
                    }
                }
                index
            },
            None => {
                let index: usize = self.values.len();
                self.values.push(value);
                self.unique_values_ref_count.push(0);
                proof {
                    assert(self.available() =~= before.available());
                }
                index
            },
        }
    }

    /// Drops all values and makes room for `capacity` new ones.
    pub fn reset(&mut self, capacity: usize)
        ensures
            final(self).wf(),
            final(self).values() == Seq::<T>::empty(),
            final(self).ref_counts() == Seq::<usize>::empty(),
            final(self).available() == Seq::<usize>::empty(),
    {
        *self = CollectSetGroupAccumulatorValues::with_capacity(capacity);
    }

    /// Claims the data of the values whose places became available, those behind the first
    /// `initial_number_of_available_indices`: each is replaced by a clone of the initial value.
    pub fn claim_data_from_added_available_indices(
        &mut self,
        initial_number_of_available_indices: usize,
        initial_value: &T,
    ) where T: Clone
        requires
            old(self).wf(),
            initial_number_of_available_indices <= old(self).available().len(),
        ensures
            final(self).wf(),
            final(self).ref_counts() == old(self).ref_counts(),
            final(self).available() == old(self).available(),
            final(self).values().len() == old(self).values().len(),
            forall|i: int|
                0 <= i < final(self).values().len() ==> {
                    let value = #[trigger] final(self).values()[i];
                    if exists|k: int|
                        initial_number_of_available_indices <= k < old(self).available().len() && (
                        #[trigger] old(self).available()[k]) == i {
                        cloned(*initial_value, value)
                    } else {
                        value == old(self).values()[i]
                    }
                },
    {
        let ghost before = *self;
        let ghost first = initial_number_of_available_indices as int;
        let mut k: usize = initial_number_of_available_indices;
        while k < self.available_indices.len()
            invariant
                before.wf(),
                first == initial_number_of_available_indices <= k <= before.available().len(),
                self.unique_values_ref_count == before.unique_values_ref_count,
                self.available_indices == before.available_indices,
                self.values@.len() == before.values().len(),
                forall|i: int|
                    0 <= i < self.values@.len() ==> {
                        let value = #[trigger] self.values@[i];
                        if exists|j: int|
                            first <= j < k && (#[trigger] before.available()[j]) == i {
                            cloned(*initial_value, value)
                        } else {
                            value == before.values()[i]
                        }
                    },
            decreases before.available().len() - k,
        {
            let ghost now = self.values@;
            let value_index: usize = self.available_indices[k];
            assert(before.available()[k as int] == value_index);
            let value = initial_value.clone();
            assert(cloned(*initial_value, value));
            self.values.set(value_index, value);
            proof {
                assert forall|i: int| 0 <= i < self.values@.len() implies {
                    let value = #[trigger] self.values@[i];
                    if exists|j: int|
                        first <= j < k + 1 && (#[trigger] before.available()[j]) == i {
                        cloned(*initial_value, value)
                    } else {
                        value == before.values()[i]
                    }
                } by {
                    if i == value_index {
                        assert(first <= k < k + 1 && before.available()[k as int] == i);
                    } else {
                        assert(self.values@[i] == now[i]);
                        assert((exists|j: int|
                            first <= j < k + 1 && (#[trigger] before.available()[j]) == i) == (
                        exists|j: int|
                            first <= j < k && (#[trigger] before.available()[j]) == i));
                    }
                }
            }
            k += 1;
        }
    }

    /// Counts `count` more groups that use the value at `index`, a place that is not available: one
    /// that is would stay so while it is in use.
    pub fn increment_ref_count_by(&mut self, index: usize, count: usize)
        requires
            index < old(self).ref_counts().len(),
            old(self).ref_counts()[index as int] + count <= usize::MAX,
        ensures
            old(self).counted_up(index, count, final(self)),
    {
        let ghost before = *self;
        let counted: usize = self.unique_values_ref_count[index] + count;
        self.unique_values_ref_count.set(index, counted);
        proof {
            if before.wf() && !before.available().contains(index) {
                assert forall|k: int| 0 <= k < self.available().len() implies {
                    &&& (#[trigger] self.available()[k]) < self.values().len()
                    &&& self.ref_counts()[self.available()[k] as int] == 0
                } by {
                    assert(before.available()[k] == self.available()[k]);
                    assert(before.available().contains(before.available()[k]));
                }
            }
        }
    }

    /// Counts one group less that uses the value at `index`. If none is left, its place becomes
    /// available.
    pub fn decrement_ref_count(&mut self, index: usize)
        requires
            index < old(self).ref_counts().len(),
            old(self).ref_counts()[index as int] > 0,
        ensures
            old(self).counted_down(index, final(self)),
    {
        let ghost before = *self;
        let counted: usize = self.unique_values_ref_count[index] - 1;
        self.unique_values_ref_count.set(index, counted);
        if counted == 0 {
            self.available_indices.push_back(index);
        }
        proof {
            if before.wf() {
                assert forall|k: int| 0 <= k < before.available().len() implies (
                #[trigger] before.available()[k]) != index by {}
                assert forall|k: int| 0 <= k < self.available().len() implies {
                    &&& (#[trigger] self.available()[k]) < self.values().len()
                    &&& self.ref_counts()[self.available()[k] as int] == 0
                } by {
                    if k < before.available().len() {
                        assert(before.available()[k] == self.available()[k]);
                    }
                }
                assert(self.available().no_duplicates());
            }
        }
    }

    /// Whether any group uses the value at `index`.
    pub fn is_used(&self, index: usize) -> (used: bool)
        requires
            index < self.ref_counts().len(),
        ensures
            used == (self.ref_counts()[index as int] > 0),
    {
        self.unique_values_ref_count[index] > 0
    }

    /// The number of groups that use each value.
    pub(crate) fn counts(&self) -> (counts: &[usize])
        ensures
            counts@ == self.ref_counts(),
    {
        self.unique_values_ref_count.as_slice()
    }

    pub fn get_number_of_available_indices(&self) -> (number: usize)
        ensures
            number == self.available().len(),
    {
        self.available_indices.len()
    }

    /// The number of bytes may be found to be the heap bytes of these values and of what is kept
    /// of them.
    pub open spec fn is_size(&self, bytes: usize) -> bool {
        exists|values: usize, counts: usize, available: usize, heap: Seq<usize>|
            {
                &&& #[trigger] covers(values, size_of::<T>() * self.values().len())
                &&& #[trigger] covers(counts, size_of::<usize>() * self.ref_counts().len())
                &&& #[trigger] has_room(available, size_of::<usize>(), self.available().len())
                &&& #[trigger] are_heap_sizes::<T, GetSizeV>(heap, self.values())
                &&& bytes == unique_values_bytes(values, counts, available, heap)
            }
    }

    /// Heap bytes that the values and what is kept of them have allocated, or the largest number
    /// there is if they are more than that.
    pub fn size(&self) -> (bytes: usize)
        ensures
            self.is_size(bytes),
    {
        let mut heap: Vec<usize> = Vec::new();
        let mut i: usize = 0;
        while i < self.values.len()
            invariant
                i == heap@.len() <= self.values@.len(),
                forall|k: int|
                    0 <= k < i ==> GetSizeV::is_heap_size(self.values@[k], #[trigger] heap@[k]),
            decreases self.values@.len() - i,
        {
            heap.push(GetSizeV::get_heap_allocated_size(&self.values[i]));
            i += 1;
        }
        let values: usize = vec_allocated_size(&self.values);
        let counts: usize = vec_allocated_size(&self.unique_values_ref_count);
        let available: usize = deque_capacity(&self.available_indices);
        let bytes: usize = unique_values_size(values, counts, available, heap.as_slice());
        assert(covers(values, size_of::<T>() * self.values().len()) && covers(
            counts,
            size_of::<usize>() * self.ref_counts().len(),
        ) && has_room(available, size_of::<usize>(), self.available().len()) && are_heap_sizes::<
            T,
            GetSizeV,
        >(heap@, self.values()));
        bytes
    }
}

/// The `i`-th values become the next ones when one group less uses the value at `index`.
pub open spec fn counts_down<T, GetSizeV: GetHeapAllocatedSize<T>>(
    all: Seq<CollectSetGroupAccumulatorValues<T, GetSizeV>>,
    index: usize,
    i: int,
) -> bool {
    all[i].counted_down(index, &all[i + 1])
}

/// From the first values to the last ones, `count` groups come to use the value at `index`, and then
/// one after the other is gone again.
pub open spec fn counts_up_and_down<T, GetSizeV: GetHeapAllocatedSize<T>>(
    start: CollectSetGroupAccumulatorValues<T, GetSizeV>,
    index: usize,
    count: usize,
    all: Seq<CollectSetGroupAccumulatorValues<T, GetSizeV>>,
) -> bool {
    &&& start.counted_up(index, count, &all[0])
    &&& all.len() == count + 1
    &&& forall|i: int| 0 <= i < count ==> #[trigger] counts_down(all, index, i)
}

proof fn lemma_counted_down<T, GetSizeV: GetHeapAllocatedSize<T>>(
    start: CollectSetGroupAccumulatorValues<T, GetSizeV>,
    index: usize,
    count: usize,
    all: Seq<CollectSetGroupAccumulatorValues<T, GetSizeV>>,
    k: int,
)
    requires
        index < start.ref_counts().len(),
        start.ref_counts()[index as int] == 0,
        count > 0,
        counts_up_and_down(start, index, count, all),
        0 <= k <= count,
    ensures
        all[k].values() == start.values(),
        all[k].ref_counts() == start.ref_counts().update(index as int, (count - k) as usize),
        all[k].available() == if k < count {
            start.available()
        } else {
            start.available().push(index)
        },
    decreases k,
{
    if k > 0 {
        lemma_counted_down(start, index, count, all, k - 1);
        assert(counts_down(all, index, k - 1));
    }
    assert(all[k].ref_counts() =~= start.ref_counts().update(index as int, (count - k) as usize));
}

/// A value that no group used stays in use from when `count` groups use it until the last of them
/// is gone. Then its place becomes available, the only one more, and not before. No value changes,
/// nor how many groups use any other.
pub proof fn law_place_is_kept_while_in_use<T, GetSizeV: GetHeapAllocatedSize<T>>(
    start: CollectSetGroupAccumulatorValues<T, GetSizeV>,
    index: usize,
    count: usize,
    all: Seq<CollectSetGroupAccumulatorValues<T, GetSizeV>>,
)
    requires
        index < start.ref_counts().len(),
        start.ref_counts()[index as int] == 0,
        count > 0,
        counts_up_and_down(start, index, count, all),
    ensures
        forall|k: int|
            0 <= k <= count ==> {
                &&& (#[trigger] all[k]).values() == start.values()
                &&& all[k].ref_counts().len() == start.ref_counts().len()
                &&& (all[k].ref_counts()[index as int] > 0) == (k < count)
                &&& all[k].available().len() == start.available().len() + if k < count {
                    0int
                } else {
                    1
                }
                &&& forall|i: int|
                    0 <= i < start.ref_counts().len() && i != index ==> (
                    #[trigger] all[k].ref_counts()[i]) == start.ref_counts()[i]
            },
        all.last().available() == start.available().push(index),
        all.last().ref_counts() == start.ref_counts(),
{
    assert forall|k: int| 0 <= k <= count implies {
        &&& (#[trigger] all[k]).values() == start.values()
        &&& all[k].ref_counts().len() == start.ref_counts().len()
        &&& (all[k].ref_counts()[index as int] > 0) == (k < count)
        &&& all[k].available().len() == start.available().len() + if k < count {
            0int
        } else {
            1
        }
        &&& forall|i: int|
            0 <= i < start.ref_counts().len() && i != index ==> (#[trigger] all[k].ref_counts()[i])
                == start.ref_counts()[i]
    } by {
        lemma_counted_down(start, index, count, all, k);
    }
    lemma_counted_down(start, index, count, all, count as int);
    assert(all.last().ref_counts() =~= start.ref_counts());
}

/// The bytes of unique values: of the places of the values and of the counts, of the room in the
/// queue of available places, and of what each value has on the heap.
pub open spec fn unique_values_bytes(
    values: usize,
    counts: usize,
    available_capacity: usize,
    heap: Seq<usize>,
) -> usize {
    saturated((values + counts + available_capacity * size_of::<usize>() + sum(heap)) as nat)
}

/// Adds up the bytes of unique values, up to the largest number there is.
pub fn unique_values_size(
    values: usize,
    counts: usize,
    available_capacity: usize,
    heap: &[usize],
) -> (bytes: usize)
    ensures
        bytes == unique_values_bytes(values, counts, available_capacity, heap@),
{
    values.saturating_add(counts).saturating_add(
        allocated_bytes(available_capacity, core::mem::size_of::<usize>(), heap),
    )
}

/// What may be found that each value has on the heap.
pub open spec fn are_heap_sizes<T, GetSizeV: GetHeapAllocatedSize<T>>(
    sizes: Seq<usize>,
    values: Seq<T>,
) -> bool {
    &&& sizes.len() == values.len()
    &&& forall|i: int|
        0 <= i < sizes.len() ==> GetSizeV::is_heap_size(values[i], #[trigger] sizes[i])
}

impl<T, GetSizeV: GetHeapAllocatedSize<T>> Deref for CollectSetGroupAccumulatorValues<
    T,
    GetSizeV,
> {
    type Target = [T];

    fn deref(&self) -> (values: &[T])
        ensures
            values@ == self.values(),
    {
        self.values.as_slice()
    }
}

impl<T, GetSizeV: GetHeapAllocatedSize<T>> AsRef<[T]> for CollectSetGroupAccumulatorValues<
    T,
    GetSizeV,
> {
    fn as_ref(&self) -> (values: &[T])
        ensures
            values@ == self.values(),
    {
        self.values.as_slice()
    }
}

/// What a value has allocated on the heap.
pub trait GetHeapAllocatedSize<T> {
    /// The number of bytes may be found to be the heap bytes of the value.
    spec fn is_heap_size(value: T, bytes: usize) -> bool;

    /// The heap bytes of the value; none that lie in the place of the value itself.
    fn get_heap_allocated_size(value: &T) -> (bytes: usize)
        ensures
            Self::is_heap_size(*value, bytes),
    ;
}

/// For values without anything on the heap.
pub struct OnlyOnStackSize;

impl<T> GetHeapAllocatedSize<T> for OnlyOnStackSize {
    open spec fn is_heap_size(value: T, bytes: usize) -> bool {
        bytes == 0
    }

    fn get_heap_allocated_size(value: &T) -> (bytes: usize) {
        let _ = value;
        0
    }
}

/// For byte strings.
pub struct GetSizeBytes;

impl GetHeapAllocatedSize<Vec<u8>> for GetSizeBytes {
    open spec fn is_heap_size(value: Vec<u8>, bytes: usize) -> bool {
        covers(bytes, value@.len())
    }

    fn get_heap_allocated_size(value: &Vec<u8>) -> (bytes: usize) {
        vec_allocated_size(value)
    }
}

} // verus!
