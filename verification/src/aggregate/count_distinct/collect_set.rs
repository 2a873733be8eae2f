//! The distinct values of each group, every value stored once for all groups.

use crate::aggregate::count_distinct::distinct_value::{DistinctValue, HashSeeds};
use crate::aggregate::count_distinct::helpers::group_accumulator_unique_values::{
    CollectSetGroupAccumulatorValues, GetHeapAllocatedSize,
};
use crate::aggregate::count_distinct::helpers::make_accumulators_if_needed;
use crate::aggregate::count_distinct::helpers::track_single_group_unique_indices::{
    is_accounted, is_listing, SingleGroupUniqueIndices,
};
use crate::aggregate::count_distinct::index_table::{
    find_index, insert_index, new_table, retain_used, table_capacity, table_entries, IndexTable,
};
use crate::blocked_helpers::layout::{sum, total_count};
use crate::collections::vec_allocated_size;
use crate::memory::{covers, has_room, items_size, saturated, total_size};
use vstd::layout::size_of;
use vstd::multiset::Multiset;
use vstd::prelude::*;
use vstd::set_lib::{lemma_len_subset, lemma_map_size};

verus! {

/// Room for this many values and groups is made at first.
pub const DEFAULT_CAPACITY: usize = 128;

/// State of a single group.
pub struct AccumulatorState {
    unique_indices: SingleGroupUniqueIndices,
    /// The size of all the values that the indices point to, or the largest number there is if
    /// it is more than that.
    size: usize,
}

impl AccumulatorState {
    /// The indices of the values in the group.
    pub closed spec fn view(&self) -> Set<usize> {
        self.unique_indices@
    }

    /// The size of the values in the group.
    pub closed spec fn spec_size(&self) -> usize {
        self.size
    }

    /// Inserting an index with the size of its value gives `inserted` and leaves `after`.
    pub open spec fn inserted(
        &self,
        index: usize,
        size: usize,
        inserted: usize,
        after: &Self,
    ) -> bool {
        &&& after@ == self@.insert(index)
        &&& inserted == if self@.contains(index) {
            0int
        } else {
            1
        }
        &&& after.spec_size() == if self@.contains(index) {
            self.spec_size()
        } else {
            saturated(self.spec_size() as nat + size as nat)
        }
    }

    pub fn len(&self) -> (len: usize)
        ensures
            len == self@.len(),
    {
        self.unique_indices.len()
    }

    /// The indices, in no particular order.
    pub fn indices(&self) -> (indices: Vec<usize>)
        ensures
            is_listing(indices@, self@),
    {
        self.unique_indices.indices()
    }

    /// Adds an index and, if it is new, the size of its value. Returns 1 if it is new, else 0.
    pub fn insert(&mut self, index: usize, size: usize) -> (inserted: usize)
        ensures
            old(self).inserted(index, size, inserted, final(self)),
    {
        if self.unique_indices.insert(index) {
            self.size = self.size.saturating_add(size);
            1
        } else {
            0
        }
    }

    /// Adds an index as [`Self::insert`] does, and to `accounting_capacities` what the set of
    /// indices grew by.
    pub fn insert_accounted(
        &mut self,
        index: usize,
        size: usize,
        accounting_capacities: &mut usize,
    ) -> (inserted: usize)
        ensures
            old(self).inserted(index, size, inserted, final(self)),
            is_accounted(
                *old(accounting_capacities),
                old(self)@.len(),
                final(self)@.len(),
                *final(accounting_capacities),
            ),
    {
        if self.unique_indices.insert_accounted(index, accounting_capacities) {
            self.size = self.size.saturating_add(size);
            1
        } else {
            0
        }
    }

    pub fn underlying_size(&self) -> (size: usize)
        ensures
            size == self.spec_size(),
    {
        self.size
    }

    /// How many indices there is room for: at least those in the group.
    pub fn capacity(&self) -> (capacity: usize)
        ensures
            has_room(capacity, size_of::<usize>(), self@.len()),
    {
        self.unique_indices.capacity()
    }
}

impl Default for AccumulatorState {
    fn default() -> (state: Self)
        ensures
            state@ == Set::<usize>::empty(),
            state.spec_size() == 0,
    {
        AccumulatorState { unique_indices: SingleGroupUniqueIndices::new(), size: 0 }
    }
}

/// The `i`-th state becomes the next one when an index is inserted, with this result.
pub open spec fn inserts(
    states: Seq<AccumulatorState>,
    indices: Seq<usize>,
    sizes: Seq<usize>,
    results: Seq<usize>,
    i: int,
) -> bool {
    states[i].inserted(indices[i], sizes[i], results[i], &states[i + 1])
}

/// The sizes, each as often as it counts.
pub open spec fn counted_sizes(results: Seq<usize>, sizes: Seq<usize>) -> Seq<nat> {
    Seq::new(results.len(), |i: int| (results[i] * sizes[i]) as nat)
}

/// However often an index is inserted, it is one index of the group, and its size is counted once:
/// the first time, when the result is 1; from then on the result is 0.
pub proof fn law_indices_count_once(
    states: Seq<AccumulatorState>,
    indices: Seq<usize>,
    sizes: Seq<usize>,
    results: Seq<usize>,
)
    requires
        states.len() == indices.len() + 1,
        sizes.len() == indices.len(),
        results.len() == indices.len(),
        states[0]@ == Set::<usize>::empty(),
        states[0].spec_size() == 0,
        forall|i: int|
            0 <= i < indices.len() ==> #[trigger] inserts(states, indices, sizes, results, i),
    ensures
        forall|i: int|
            0 <= i < indices.len() ==> (#[trigger] results[i]) == if indices.take(i).contains(
                indices[i],
            ) {
                0int
            } else {
                1
            },
        states.last()@ == indices.to_set(),
        states.last()@.finite(),
        states.last()@.len() == sum(results),
        states.last().spec_size() == saturated(total_count(counted_sizes(results, sizes))),
    decreases indices.len(),
{
    let n = indices.len() as int;
    if n == 0 {
        assert(indices.to_set() =~= Set::<usize>::empty());
    } else {
        let k = n - 1;
        let earlier = indices.drop_last();
        assert forall|i: int| 0 <= i < k implies #[trigger] inserts(
            states.drop_last(),
            earlier,
            sizes.drop_last(),
            results.drop_last(),
            i,
        ) by {
            assert(inserts(states, indices, sizes, results, i));
        }
        law_indices_count_once(
            states.drop_last(),
            earlier,
            sizes.drop_last(),
            results.drop_last(),
        );
        assert(inserts(states, indices, sizes, results, k));
        assert(indices.take(k) =~= earlier);
        assert(earlier.to_set().contains(indices[k]) == earlier.contains(indices[k]));
        assert forall|i: int| 0 <= i < n implies (#[trigger] results[i]) == if indices.take(
            i,
        ).contains(indices[i]) {
            0int
        } else {
            1
        } by {
            if i < k {
                assert(results.drop_last()[i] == results[i]);
                assert(earlier.take(i) =~= indices.take(i));
            }
        }
        assert(indices =~= earlier.push(indices[k]));
        assert(indices.to_set() =~= earlier.to_set().insert(indices[k]));
        assert(counted_sizes(results, sizes).drop_last() =~= counted_sizes(
            results.drop_last(),
            sizes.drop_last(),
        ));
        assert(results[k] * sizes[k] == if results[k] == 0 {
            0
        } else {
            sizes[k] as int
        }) by (nonlinear_arith)
            requires
                results[k] == 0 || results[k] == 1,
        ;
    }
}

/// Which groups to emit.
#[derive(Debug, Clone, Copy, PartialEq, Eq, Structural)]
pub enum EmitTo {
    /// All of them.
    All,
    /// The first `n`; the others move up.
    First(usize),
}

impl EmitTo {
    /// How many of `len` groups are emitted.
    pub open spec fn count(self, len: nat) -> nat {
        match self {
            EmitTo::All => len,
            EmitTo::First(n) => n as nat,
        }
    }
}

/// Rows of values.
pub trait DistinctRows<V: DistinctValue> {
    spec fn models(&self) -> Seq<V::Model>;

    fn row(&self, index: usize) -> (probe: &V::Probe)
        requires
            index < self.models().len(),
        ensures
            V::probe_model(probe) == self.models()[index as int],
    ;
}

/// In how many of the sets an index is.
pub open spec fn count_groups(sets: Seq<Set<usize>>, i: usize) -> nat
    decreases sets.len(),
{
    if sets.len() == 0 {
        0
    } else {
        count_groups(sets.skip(1), i) + if sets[0].contains(i) {
            1nat
        } else {
            0nat
        }
    }
}

/// The values at the indices.
pub open spec fn values_at<M>(models: Seq<M>, indices: Set<usize>) -> Set<M> {
    indices.map(|i: usize| models[i as int])
}

/// The bytes that values take in an output.
pub open spec fn output_total<V: DistinctValue>(values: Set<V::Model>) -> nat
    decreases values.len(),
{
    if values.finite() && values.len() > 0 {
        let value = values.choose();
        V::output_bytes(value) + output_total::<V>(values.remove(value))
    } else {
        0
    }
}

/// Any value can be the one that is counted first.
pub proof fn lemma_output_remove<V: DistinctValue>(values: Set<V::Model>, value: V::Model)
    requires
        values.finite(),
        values.contains(value),
    ensures
        output_total::<V>(values) == V::output_bytes(value) + output_total::<V>(
            values.remove(value),
        ),
    decreases values.len(),
{
    let first = values.choose();
    assert(values.contains(first));
    if first != value {
        let rest = values.remove(first);
        lemma_output_remove::<V>(rest, value);
        lemma_output_remove::<V>(values.remove(value), first);
        assert(rest.remove(value) =~= values.remove(value).remove(first));
    }
}

/// The groups once each value is added to its group.
pub open spec fn with_values<M>(groups: Seq<Set<M>>, added: Seq<(usize, M)>) -> Seq<Set<M>>
    decreases added.len(),
{
    if added.len() == 0 {
        groups
    } else {
        let before = with_values(groups, added.drop_last());
        let (group, value) = added.last();
        before.update(group as int, before[group as int].insert(value))
    }
}

/// The groups and empty ones behind them, `total` in all.
pub open spec fn grown<M>(groups: Seq<Set<M>>, total: nat) -> Seq<Set<M>> {
    groups + Seq::new((total - groups.len()) as nat, |i: int| Set::<M>::empty())
}

proof fn lemma_count_bound(sets: Seq<Set<usize>>, i: usize)
    ensures
        count_groups(sets, i) <= sets.len(),
    decreases sets.len(),
{
    if sets.len() > 0 {
        lemma_count_bound(sets.skip(1), i);
    }
}

proof fn lemma_count_update(sets: Seq<Set<usize>>, g: int, s: Set<usize>, i: usize)
    requires
        0 <= g < sets.len(),
    ensures
        count_groups(sets.update(g, s), i) == count_groups(sets, i) - (if sets[g].contains(i) {
            1int
        } else {
            0
        }) + (if s.contains(i) {
            1int
        } else {
            0
        }),
    decreases sets.len(),
{
    let after = sets.update(g, s);
    if g == 0 {
        assert(after.skip(1) =~= sets.skip(1));
    } else {
        assert(after.skip(1) =~= sets.skip(1).update(g - 1, s));
        lemma_count_update(sets.skip(1), g - 1, s, i);
    }
}

proof fn lemma_count_grown(sets: Seq<Set<usize>>, more: Seq<Set<usize>>, i: usize)
    requires
        forall|k: int| 0 <= k < more.len() ==> #[trigger] more[k] == Set::<usize>::empty(),
    ensures
        count_groups(sets + more, i) == count_groups(sets, i),
    decreases sets.len() + more.len(),
{
    let all = sets + more;
    if sets.len() > 0 {
        assert(all.skip(1) =~= sets.skip(1) + more);
        lemma_count_grown(sets.skip(1), more, i);
    } else if more.len() > 0 {
        assert(all =~= more);
        let rest = more.skip(1);
        assert forall|k: int| 0 <= k < rest.len() implies #[trigger] rest[k] == Set::<
            usize,
        >::empty() by {
            assert(rest[k] == more[k + 1]);
        }
        assert(sets + rest =~= more.skip(1));
        lemma_count_grown(sets, rest, i);
    }
}

/// An index is counted exactly if it is in a set.
proof fn lemma_count_zero(sets: Seq<Set<usize>>, i: usize)
    ensures
        count_groups(sets, i) == 0 <==> forall|g: int|
            0 <= g < sets.len() ==> !(#[trigger] sets[g]).contains(i),
    decreases sets.len(),
{
    if sets.len() > 0 {
        let rest = sets.skip(1);
        lemma_count_zero(rest, i);
        if count_groups(sets, i) == 0 {
            assert forall|g: int| 0 <= g < sets.len() implies !(#[trigger] sets[g]).contains(
                i,
            ) by {
                if g > 0 {
                    assert(rest[g - 1] == sets[g]);
                }
            }
        }
        if forall|g: int| 0 <= g < sets.len() ==> !(#[trigger] sets[g]).contains(i) {
            assert forall|g: int| 0 <= g < rest.len() implies !(#[trigger] rest[g]).contains(
                i,
            ) by {
                assert(rest[g] == sets[g + 1]);
            }
            assert(!sets[0].contains(i));
        }
    }
}

/// The distinct values of each group.
pub struct CollectSetGroups<V: DistinctValue, GetSizeV: GetHeapAllocatedSize<V>> {
    /// Finds the place of a value.
    map: IndexTable,
    /// All unique values.
    values: CollectSetGroupAccumulatorValues<V, GetSizeV>,
    /// For each group the indices of its values.
    states: Vec<AccumulatorState>,
    /// The sum of the capacities of all states, updated with differences.
    states_capacities: usize,
    /// What the hashes depend on.
    seeds: HashSeeds,
}

impl<V: DistinctValue, GetSizeV: GetHeapAllocatedSize<V>> CollectSetGroups<V, GetSizeV> {
    /// The indices in each group.
    spec fn sets(&self) -> Seq<Set<usize>> {
        Seq::new(self.states@.len(), |g: int| self.states@[g]@)
    }

    /// The value at each place.
    spec fn models(&self) -> Seq<V::Model> {
        Seq::new(self.values.values().len(), |i: int| self.values.values()[i].model())
    }

    /// There is a value at this place.
    spec fn live(&self, i: usize) -> bool {
        i < self.values.values().len() && !self.values.available().contains(i)
    }

    /// The values of each group.
    pub closed spec fn groups(&self) -> Seq<Set<V::Model>> {
        Seq::new(self.states@.len(), |g: int| values_at(self.models(), self.states@[g]@))
    }

    /// The values, each stored once.
    pub closed spec fn unique_values(&self) -> CollectSetGroupAccumulatorValues<V, GetSizeV> {
        self.values
    }

    /// The sum of the capacities of the sets of indices, as it was accounted for.
    pub closed spec fn accounted_capacities(&self) -> usize {
        self.states_capacities
    }

    /// `after` is this with `total` groups and with values added to their groups. The capacities
    /// accounted for can only grow, and do not where nothing is added.
    pub open spec fn added(
        &self,
        values: Seq<(usize, V::Model)>,
        total: nat,
        after: &Self,
    ) -> bool {
        &&& after.wf()
        &&& after.groups() == with_values(grown(self.groups(), total), values)
        &&& after.accounted_capacities() >= self.accounted_capacities()
        &&& values.len() == 0 ==> after.accounted_capacities() == self.accounted_capacities()
    }

    /// Everything but that every value is used by a group, which does not hold between the time a
    /// value is stored and the time it is added to a group.
    spec fn consistent(&self) -> bool {
        &&& self.values.wf()
        &&& forall|entry: (u64, usize)|
            (#[trigger] table_entries(self.map).count(entry)) == if self.live(entry.1) && entry.0
                == V::hash_of(self.seeds, self.models()[entry.1 as int]) {
                1nat
            } else {
                0nat
            }
        &&& forall|i: usize, j: usize|
            #![trigger self.live(i), self.live(j)]
            self.live(i) && self.live(j) && i != j ==> self.models()[i as int]
                != self.models()[j as int]
        &&& forall|g: int| 0 <= g < self.sets().len() ==> (#[trigger] self.sets()[g]).finite()
        &&& forall|g: int|
            0 <= g < self.states@.len() ==> (#[trigger] self.states@[g]).spec_size() == saturated(
                output_total::<V>(self.groups()[g]),
            )
        &&& forall|g: int, i: usize|
            0 <= g < self.sets().len() && (#[trigger] self.sets()[g].contains(i)) ==> self.live(i)
        &&& forall|i: int|
            0 <= i < self.values.ref_counts().len() ==> (#[trigger] self.values.ref_counts()[i])
                == count_groups(self.sets(), i as usize)
    }

    /// The place has a value that no group uses.
    spec fn unused(&self, i: usize) -> bool {
        self.live(i) && self.values.ref_counts()[i as int] == 0
    }

    pub closed spec fn wf(&self) -> bool {
        &&& self.consistent()
        &&& forall|i: usize| !#[trigger] self.unused(i)
    }

    /// No groups yet.
    pub fn new() -> (groups: Self)
        ensures
            groups.wf(),
            groups.groups() == Seq::<Set<V::Model>>::empty(),
            groups.accounted_capacities() == 0,
    {
        let groups = CollectSetGroups {
            map: new_table(DEFAULT_CAPACITY),
            values: CollectSetGroupAccumulatorValues::with_capacity(DEFAULT_CAPACITY),
            states: Vec::with_capacity(DEFAULT_CAPACITY),
            states_capacities: 0,
            seeds: HashSeeds::random(),
        };
        assert(groups.groups() =~= Seq::<Set<V::Model>>::empty());
        groups
    }

    /// The number of groups.
    pub fn len(&self) -> (len: usize)
        ensures
            len == self.groups().len(),
    {
        self.states.len()
    }

    /// Adds empty groups until there are `total_num_groups`.
    pub fn make_groups(&mut self, total_num_groups: usize)
        requires
            old(self).wf(),
            total_num_groups >= old(self).groups().len(),
        ensures
            final(self).wf(),
            final(self).groups() == grown(old(self).groups(), total_num_groups as nat),
            final(self).accounted_capacities() == old(self).accounted_capacities(),
    {
        let ghost before = *self;
        make_accumulators_if_needed(&mut self.states, total_num_groups);
        proof {
            let more = Seq::new(
                (total_num_groups - before.states@.len()) as nat,
                |i: int| Set::<usize>::empty(),
            );
            assert forall|g: int| before.states@.len() <= g < self.states@.len() implies (
            #[trigger] self.states@[g])@ == Set::<usize>::empty() by {}
            assert(self.sets() =~= before.sets() + more);
            assert forall|i: int| 0 <= i < self.values.ref_counts().len() implies (
            #[trigger] self.values.ref_counts()[i]) == count_groups(self.sets(), i as usize) by {
                lemma_count_grown(before.sets(), more, i as usize);
            }
            assert forall|g: int, i: usize|
                0 <= g < self.sets().len() && (
                #[trigger] self.sets()[g].contains(i)) implies self.live(i) by {
                if g < before.sets().len() {
                    assert(before.sets()[g].contains(i));
                }
            }
            assert(self.models() =~= before.models());
            assert forall|i: usize| (#[trigger] self.live(i)) == before.live(i) by {}
            before.lemma_table_same(self);
            assert forall|i: usize| !#[trigger] self.unused(i) by {
                assert(!before.unused(i));
            }
            let empty = values_at(self.models(), Set::<usize>::empty());
            assert(empty =~= Set::<V::Model>::empty());
            assert(self.groups() =~= grown(before.groups(), total_num_groups as nat));
        }
    }

    /// The place of a value, which is stored if it is new.
    fn index_of(&mut self, probe: &V::Probe) -> (index: usize)
        requires
            old(self).consistent(),
        ensures
            final(self).consistent(),
            final(self).live(index),
            final(self).models()[index as int] == V::probe_model(probe),
            final(self).states == old(self).states,
            final(self).states_capacities == old(self).states_capacities,
            final(self).seeds == old(self).seeds,
            forall|i: usize| #[trigger]
                old(self).live(i) ==> final(self).live(i) && final(self).models()[i as int] == old(self).models()[i as int],
            forall|i: usize| #[trigger]
                final(self).unused(i) ==> i == index || old(self).unused(i),
    {
        let ghost before = *self;
        let ghost model = V::probe_model(probe);
        let hash: u64 = V::hash(probe, &self.seeds);
        proof {
            assert forall|entry: (u64, usize)| #[trigger]
                table_entries(self.map).contains(entry) implies entry.1
                < self.values.values().len() by {
                assert(table_entries(self.map).count(entry) > 0);
            }
        }
        match find_index(&self.map, hash, &*self.values, probe) {
            Some(index) => {
                proof {
                    assert(table_entries(self.map).count((hash, index)) > 0);
                }
                index
            },
            None => {
                proof {
                    assert forall|i: usize| #[trigger] before.live(i) implies before.models()[i as int]
                        != model by {
                        if before.models()[i as int] == model {
                            assert(table_entries(before.map).count((hash, i)) == 1);
                            assert(table_entries(before.map).contains((hash, i)));
                        }
                    }
                }
                let index: usize = self.values.insert_new_unique(V::from_probe(probe));
                insert_index(&mut self.map, hash, index);
                proof {
                    before.lemma_inserted(model, index, self);
                }
                index
            },
        }
    }

    /// What the table holds and that the values are distinct depends on the places with a value
    /// alone.
    proof fn lemma_table_same(&self, after: &Self)
        requires
            self.consistent(),
            after.map == self.map,
            after.seeds == self.seeds,
            forall|i: usize| (#[trigger] after.live(i)) == self.live(i),
            forall|i: usize| #[trigger]
                self.live(i) ==> after.models()[i as int] == self.models()[i as int],
        ensures
            forall|entry: (u64, usize)|
                (#[trigger] table_entries(after.map).count(entry)) == if after.live(entry.1)
                    && entry.0 == V::hash_of(after.seeds, after.models()[entry.1 as int]) {
                    1nat
                } else {
                    0nat
                },
            forall|i: usize, j: usize|
                #![trigger after.live(i), after.live(j)]
                after.live(i) && after.live(j) && i != j ==> after.models()[i as int]
                    != after.models()[j as int],
    {
        assert forall|entry: (u64, usize)|
            (#[trigger] table_entries(after.map).count(entry)) == if after.live(entry.1) && entry.0
                == V::hash_of(after.seeds, after.models()[entry.1 as int]) {
                1nat
            } else {
                0nat
            } by {
            assert(after.live(entry.1) == self.live(entry.1));
            assert(table_entries(self.map).count(entry) == if self.live(entry.1) && entry.0
                == V::hash_of(self.seeds, self.models()[entry.1 as int]) {
                1nat
            } else {
                0nat
            });
        }
        assert forall|i: usize, j: usize|
            #![trigger after.live(i), after.live(j)]
            after.live(i) && after.live(j) && i != j implies after.models()[i as int]
            != after.models()[j as int] by {
            assert(self.live(i) && self.live(j));
        }
    }

    /// The values of a group are the same where those at its places are.
    proof fn lemma_same_group(&self, after: &Self, g: int, h: int)
        requires
            0 <= g < self.states@.len(),
            0 <= h < after.states@.len(),
            after.states@[h]@ == self.states@[g]@,
            forall|i: usize| #[trigger]
                self.states@[g]@.contains(i) ==> after.models()[i as int]
                    == self.models()[i as int],
        ensures
            after.groups()[h] == self.groups()[g],
    {
        let set = self.states@[g]@;
        let a = values_at(after.models(), set);
        let b = values_at(self.models(), set);
        assert forall|m: V::Model| a.contains(m) == b.contains(m) by {
            if a.contains(m) {
                let i = choose|i: usize| set.contains(i) && m == after.models()[i as int];
                assert(set.contains(i) && m == self.models()[i as int]);
            }
            if b.contains(m) {
                let i = choose|i: usize| set.contains(i) && m == self.models()[i as int];
                assert(set.contains(i) && m == after.models()[i as int]);
            }
        }
        assert(a =~= b);
    }

    /// Storing a new value at a place that had none keeps everything consistent.
    proof fn lemma_inserted(&self, model: V::Model, index: usize, after: &Self)
        requires
            self.consistent(),
            forall|i: usize| #[trigger] self.live(i) ==> self.models()[i as int] != model,
            after.seeds == self.seeds,
            after.states == self.states,
            after.values.wf(),
            table_entries(after.map) == table_entries(self.map).insert(
                (V::hash_of(self.seeds, model), index),
            ),
            self.values.available().len() > 0 ==> {
                &&& index == self.values.available()[0]
                &&& after.values.values().len() == self.values.values().len()
                &&& after.values.ref_counts() == self.values.ref_counts()
                &&& after.values.available() == self.values.available().skip(1)
            },
            self.values.available().len() == 0 ==> {
                &&& index == self.values.values().len()
                &&& after.values.values().len() == self.values.values().len() + 1
                &&& after.values.ref_counts() == self.values.ref_counts().push(0)
                &&& after.values.available() == self.values.available()
            },
            forall|i: int|
                0 <= i < self.values.values().len() && i != index ==> (
                #[trigger] after.values.values()[i]) == self.values.values()[i],
            after.values.values()[index as int].model() == model,
        ensures
            after.consistent(),
            after.live(index),
            after.models()[index as int] == model,
            forall|i: usize| #[trigger]
                self.live(i) ==> after.live(i) && after.models()[i as int]
                    == self.models()[i as int],
            forall|i: usize| #[trigger] after.unused(i) ==> i == index || self.unused(i),
    {
        let old_available = self.values.available();
        let new_available = after.values.available();
        assert(!self.live(index)) by {
            if old_available.len() > 0 {
                assert(old_available.contains(old_available[0]));
            }
        }
        assert forall|i: usize| (#[trigger] after.live(i)) == (self.live(i) || i == index) by {
            if old_available.len() > 0 {
                if new_available.contains(i) {
                    let k = choose|k: int| 0 <= k < new_available.len() && new_available[k] == i;
                    assert(old_available[k + 1] == i);
                    assert(old_available.contains(i));
                    assert(i != index);
                }
                if old_available.contains(i) && i != index {
                    let k = choose|k: int| 0 <= k < old_available.len() && old_available[k] == i;
                    assert(new_available[k - 1] == i);
                }
            }
        }
        assert forall|i: usize| #[trigger] self.live(i) implies after.live(i)
            && after.models()[i as int] == self.models()[i as int] by {
            assert(after.live(i));
            assert(after.values.values()[i as int] == self.values.values()[i as int]);
        }
        assert forall|i: usize| #[trigger] after.unused(i) implies i == index || self.unused(i) by {
            assert(after.live(i));
        }
        assert(after.sets() =~= self.sets());
        assert forall|g: int, i: usize|
            0 <= g < after.sets().len() && (#[trigger] after.sets()[g].contains(i)) implies after.live(
            i,
        ) by {
            assert(self.sets()[g].contains(i));
            assert(self.live(i));
        }
        assert forall|g: int| 0 <= g < after.states@.len() implies (
        #[trigger] after.states@[g]).spec_size() == saturated(
            output_total::<V>(after.groups()[g]),
        ) by {
            assert forall|i: usize| #[trigger] self.states@[g]@.contains(i) implies after.models()[i as int]
                == self.models()[i as int] by {
                assert(self.sets()[g].contains(i));
                assert(self.live(i));
            }
            self.lemma_same_group(after, g, g);
        }
        assert forall|i: int| 0 <= i < after.values.ref_counts().len() implies (
        #[trigger] after.values.ref_counts()[i]) == count_groups(after.sets(), i as usize) by {
            if i == self.values.values().len() {
                lemma_count_zero(self.sets(), i as usize);
                if count_groups(self.sets(), i as usize) != 0 {
                    let g = choose|g: int|
                        0 <= g < self.sets().len() && (#[trigger] self.sets()[g]).contains(
                            i as usize,
                        );
                    assert(self.sets()[g].contains(i as usize));
                    assert(self.live(i as usize));
                }
            } else {
                assert(self.values.ref_counts()[i] == count_groups(self.sets(), i as usize));
            }
        }
        assert forall|entry: (u64, usize)|
            (#[trigger] table_entries(after.map).count(entry)) == if after.live(entry.1) && entry.0
                == V::hash_of(after.seeds, after.models()[entry.1 as int]) {
                1nat
            } else {
                0nat
            } by {
            assert(table_entries(self.map).count(entry) == if self.live(entry.1) && entry.0
                == V::hash_of(self.seeds, self.models()[entry.1 as int]) {
                1nat
            } else {
                0nat
            });
            assert(after.live(entry.1) == (self.live(entry.1) || entry.1 == index));
        }
        assert forall|i: usize, j: usize|
            #![trigger after.live(i), after.live(j)]
            after.live(i) && after.live(j) && i != j implies after.models()[i as int]
            != after.models()[j as int] by {
            assert(after.live(i) == (self.live(i) || i == index));
            assert(after.live(j) == (self.live(j) || j == index));
        }
    }

    /// The values of the groups depend on the values at the places that they use alone.
    proof fn lemma_groups_same(&self, after: &Self)
        requires
            self.consistent(),
            after.states == self.states,
            forall|i: usize| #[trigger]
                self.live(i) ==> after.models()[i as int] == self.models()[i as int],
        ensures
            after.groups() == self.groups(),
    {
        assert forall|g: int| 0 <= g < self.states@.len() implies after.groups()[g]
            == self.groups()[g] by {
            let set = self.states@[g]@;
            let a = values_at(after.models(), set);
            let b = values_at(self.models(), set);
            assert forall|i: usize| #[trigger] set.contains(i) implies after.models()[i as int]
                == self.models()[i as int] by {
                assert(self.sets()[g].contains(i));
                assert(self.live(i));
            }
            assert forall|m: V::Model| a.contains(m) == b.contains(m) by {
                if a.contains(m) {
                    let i = choose|i: usize| set.contains(i) && m == after.models()[i as int];
                    assert(set.contains(i) && m == self.models()[i as int]);
                }
                if b.contains(m) {
                    let i = choose|i: usize| set.contains(i) && m == self.models()[i as int];
                    assert(set.contains(i) && m == after.models()[i as int]);
                }
            }
            assert(a =~= b);
        }
        assert(after.groups() =~= self.groups());
    }

    /// Stores the values of the given rows, each if it is new. Returns where each of them is:
    /// `mappings[k] == i` means that the value of row `items[k]` is the one at place `i`.
    fn update_hashes<R: DistinctRows<V>>(&mut self, rows: &R, items: &[usize]) -> (mappings: Vec<
        usize,
    >)
        requires
            old(self).wf(),
            forall|k: int|
                0 <= k < items@.len() ==> (#[trigger] items@[k]) < rows.models().len(),
        ensures
            final(self).consistent(),
            final(self).states == old(self).states,
            final(self).states_capacities == old(self).states_capacities,
            final(self).groups() == old(self).groups(),
            mappings@.len() == items@.len(),
            forall|k: int|
                0 <= k < items@.len() ==> {
                    &&& final(self).live(#[trigger] mappings@[k])
                    &&& final(self).models()[mappings@[k] as int]
                        == rows.models()[items@[k] as int]
                },
            forall|i: usize| #[trigger] final(self).unused(i) ==> mappings@.contains(i),
    {
        let ghost before = *self;
        let mut mappings: Vec<usize> = Vec::with_capacity(items.len());
        let mut k: usize = 0;
        while k < items.len()
            invariant
                before.wf(),
                self.consistent(),
                self.states == before.states,
                self.states_capacities == before.states_capacities,
                forall|k: int|
                    0 <= k < items@.len() ==> (#[trigger] items@[k]) < rows.models().len(),
                0 <= k <= items@.len(),
                mappings@.len() == k,
                forall|j: int|
                    0 <= j < k ==> {
                        &&& self.live(#[trigger] mappings@[j])
                        &&& self.models()[mappings@[j] as int] == rows.models()[items@[j] as int]
                    },
                forall|i: usize| #[trigger] self.unused(i) ==> mappings@.contains(i),
                forall|i: usize| #[trigger]
                    before.live(i) ==> self.live(i) && self.models()[i as int]
                        == before.models()[i as int],
            decreases items@.len() - k,
        {
            let ghost now = *self;
            let ghost done = mappings@;
            let index: usize = self.index_of(rows.row(items[k]));
            mappings.push(index);
            proof {
                assert forall|j: int| 0 <= j < k + 1 implies {
                    &&& self.live(#[trigger] mappings@[j])
                    &&& self.models()[mappings@[j] as int] == rows.models()[items@[j] as int]
                } by {
                    if j < k {
                        assert(done[j] == mappings@[j]);
                        assert(now.live(done[j]));
                    }
                }
                assert forall|i: usize| #[trigger] self.unused(i) implies mappings@.contains(i) by {
                    if i == index {
                        assert(mappings@[k as int] == i);
                    } else {
                        assert(now.unused(i));
                        let j = choose|j: int| 0 <= j < done.len() && done[j] == i;
                        assert(mappings@[j] == i);
                    }
                }
                assert forall|i: usize| #[trigger] before.live(i) implies self.live(i)
                    && self.models()[i as int] == before.models()[i as int] by {
                    assert(now.live(i));
                }
            }
            k += 1;
        }
        proof {
            before.lemma_groups_same(self);
        }
        mappings
    }

    /// Adds the value at a place to a group.
    fn add_to_group(&mut self, group_index: usize, value_index: usize)
        requires
            old(self).consistent(),
            group_index < old(self).states@.len(),
            old(self).live(value_index),
        ensures
            final(self).consistent(),
            final(self).states@.len() == old(self).states@.len(),
            final(self).models() == old(self).models(),
            forall|i: usize| (#[trigger] final(self).live(i)) == old(self).live(i),
            forall|i: usize| #[trigger]
                final(self).unused(i) ==> i != value_index && old(self).unused(i),
            final(self).groups() == old(self).groups().update(
                group_index as int,
                old(self).groups()[group_index as int].insert(
                    old(self).models()[value_index as int],
                ),
            ),
            is_accounted(
                old(self).states_capacities,
                old(self).states@[group_index as int]@.len(),
                final(self).states@[group_index as int]@.len(),
                final(self).states_capacities,
            ),
    {
        let ghost before = *self;
        let ghost g = group_index as int;
        let size: usize = self.values[value_index].underlying_size();
        let inserted: usize = self.states[group_index].insert_accounted(
            value_index,
            size,
            &mut self.states_capacities,
        );
        proof {
            assert(before.values.ref_counts()[value_index as int] == count_groups(
                before.sets(),
                value_index,
            ));
            lemma_count_bound(before.sets(), value_index);
            if before.sets()[g].contains(value_index) {
                assert(inserted == 0);
            } else {
                let smaller = before.sets().update(g, before.sets()[g].insert(value_index));
                lemma_count_update(
                    before.sets(),
                    g,
                    before.sets()[g].insert(value_index),
                    value_index,
                );
                lemma_count_bound(smaller, value_index);
            }
            assert(before.states@.len() <= usize::MAX) by {
                assert(before.states.len() == before.states@.len());
            }
        }
        self.values.increment_ref_count_by(value_index, inserted);
        proof {
            before.lemma_added(g, value_index, self);
        }
    }

    /// Adding a value to a group and counting it keeps everything consistent.
    proof fn lemma_added(&self, g: int, index: usize, after: &Self)
        requires
            self.consistent(),
            0 <= g < self.states@.len(),
            self.live(index),
            after.map == self.map,
            after.seeds == self.seeds,
            after.values.wf(),
            after.values.values() == self.values.values(),
            after.values.available() == self.values.available(),
            after.values.ref_counts() == self.values.ref_counts().update(
                index as int,
                (self.values.ref_counts()[index as int] + (if self.sets()[g].contains(index) {
                    0int
                } else {
                    1
                })) as usize,
            ),
            self.values.ref_counts()[index as int] < usize::MAX || self.sets()[g].contains(index),
            after.states@.len() == self.states@.len(),
            after.states@[g]@ == self.states@[g]@.insert(index),
            after.states@[g].spec_size() == if self.states@[g]@.contains(index) {
                self.states@[g].spec_size()
            } else {
                saturated(
                    self.states@[g].spec_size() as nat + V::output_bytes(
                        self.models()[index as int],
                    ),
                )
            },
            forall|k: int|
                0 <= k < self.states@.len() && k != g ==> (#[trigger] after.states@[k])
                    == self.states@[k],
        ensures
            after.consistent(),
            after.models() == self.models(),
            forall|i: usize| (#[trigger] after.live(i)) == self.live(i),
            forall|i: usize| #[trigger] after.unused(i) ==> i != index && self.unused(i),
            after.groups() == self.groups().update(
                g,
                self.groups()[g].insert(self.models()[index as int]),
            ),
    {
        let set = self.sets()[g];
        after.values.lemma_len();
        assert(after.models() =~= self.models());
        assert forall|i: usize| (#[trigger] after.live(i)) == self.live(i) by {}
        self.lemma_table_same(after);
        assert(after.sets() =~= self.sets().update(g, set.insert(index)));
        assert forall|k: int, i: usize|
            0 <= k < after.sets().len() && (#[trigger] after.sets()[k].contains(i)) implies after.live(
            i,
        ) by {
            if k == g {
                if i != index {
                    assert(self.sets()[g].contains(i));
                }
            } else {
                assert(self.sets()[k].contains(i));
            }
        }
        assert forall|i: int| 0 <= i < after.values.ref_counts().len() implies (
        #[trigger] after.values.ref_counts()[i]) == count_groups(after.sets(), i as usize) by {
            lemma_count_update(self.sets(), g, set.insert(index), i as usize);
            assert(self.values.ref_counts()[i] == count_groups(self.sets(), i as usize));
        }
        assert forall|i: usize| #[trigger] after.unused(i) implies i != index && self.unused(i) by {
            assert(after.live(i));
            if i == index {
                lemma_count_zero(after.sets(), i);
                assert(after.values.ref_counts()[i as int] == count_groups(after.sets(), i));
                assert(after.sets()[g].contains(i));
            }
        }
        let model = self.models()[index as int];
        let a = values_at(self.models(), set.insert(index));
        let b = values_at(self.models(), set).insert(model);
        assert forall|m: V::Model| a.contains(m) == b.contains(m) by {
            if a.contains(m) {
                let i = choose|i: usize|
                    set.insert(index).contains(i) && m == self.models()[i as int];
                if i != index {
                    assert(set.contains(i) && m == self.models()[i as int]);
                }
            }
            if b.contains(m) {
                if m == model {
                    assert(set.insert(index).contains(index) && m == self.models()[index as int]);
                } else {
                    let i = choose|i: usize| set.contains(i) && m == self.models()[i as int];
                    assert(set.insert(index).contains(i) && m == self.models()[i as int]);
                }
            }
        }
        assert(a =~= b);
        assert(after.groups() =~= self.groups().update(g, self.groups()[g].insert(model)));
        self.lemma_grown_size(g, index);
        assert forall|k: int| 0 <= k < after.states@.len() implies (
        #[trigger] after.states@[k]).spec_size() == saturated(
            output_total::<V>(after.groups()[k]),
        ) by {
            if k != g {
                assert(after.states@[k] == self.states@[k]);
            }
        }
    }

    /// What a group takes in an output once a value is added to it.
    proof fn lemma_grown_size(&self, g: int, index: usize)
        requires
            self.consistent(),
            0 <= g < self.states@.len(),
            self.live(index),
        ensures
            ({
                let group = self.groups()[g];
                let model = self.models()[index as int];
                output_total::<V>(group.insert(model)) == if self.states@[g]@.contains(index) {
                    output_total::<V>(group)
                } else {
                    output_total::<V>(group) + V::output_bytes(model)
                }
            }),
    {
        let set = self.sets()[g];
        let group = self.groups()[g];
        let model = self.models()[index as int];
        if set.contains(index) {
            assert(group.contains(model));
            assert(group.insert(model) =~= group);
        } else {
            assert(!group.contains(model)) by {
                if group.contains(model) {
                    let i = choose|i: usize| set.contains(i) && model == self.models()[i as int];
                    assert(self.sets()[g].contains(i));
                    assert(self.live(i) && self.live(index));
                }
            }
            set.lemma_map_finite(|i: usize| self.models()[i as int]);
            lemma_output_remove::<V>(group.insert(model), model);
            assert(group.insert(model).remove(model) =~= group);
        }
    }

    /// Adds the values at the given places to the given groups.
    fn add_batch(&mut self, group_indices: &[usize], mappings: &[usize])
        requires
            old(self).consistent(),
            group_indices@.len() == mappings@.len(),
            forall|k: int|
                0 <= k < group_indices@.len() ==> (#[trigger] group_indices@[k])
                    < old(self).states@.len(),
            forall|k: int| 0 <= k < mappings@.len() ==> old(self).live(#[trigger] mappings@[k]),
            forall|i: usize| #[trigger] old(self).unused(i) ==> mappings@.contains(i),
        ensures
            final(self).wf(),
            final(self).groups() == with_values(
                old(self).groups(),
                Seq::new(
                    mappings@.len(),
                    |k: int| (group_indices@[k], old(self).models()[mappings@[k] as int]),
                ),
            ),
            final(self).states_capacities >= old(self).states_capacities,
            mappings@.len() == 0 ==> final(self).states_capacities == old(self).states_capacities,
    {
        let ghost before = *self;
        let ghost added = Seq::new(
            mappings@.len(),
            |k: int| (group_indices@[k], before.models()[mappings@[k] as int]),
        );
        let mut k: usize = 0;
        assert(added.take(0) =~= Seq::<(usize, V::Model)>::empty());
        while k < mappings.len()
            invariant
                self.consistent(),
                group_indices@.len() == mappings@.len(),
                self.states@.len() == before.states@.len(),
                forall|k: int|
                    0 <= k < group_indices@.len() ==> (#[trigger] group_indices@[k])
                        < before.states@.len(),
                forall|k: int|
                    0 <= k < mappings@.len() ==> before.live(#[trigger] mappings@[k]),
                0 <= k <= mappings@.len(),
                added == Seq::new(
                    mappings@.len(),
                    |k: int| (group_indices@[k], before.models()[mappings@[k] as int]),
                ),
                self.models() == before.models(),
                forall|i: usize| (#[trigger] self.live(i)) == before.live(i),
                forall|i: usize| #[trigger]
                    self.unused(i) ==> exists|j: int|
                        k <= j < mappings@.len() && #[trigger] mappings@[j] == i,
                self.groups() == with_values(before.groups(), added.take(k as int)),
                self.states_capacities >= before.states_capacities,
                k == 0 ==> self.states_capacities == before.states_capacities,
            decreases mappings@.len() - k,
        {
            let ghost now = *self;
            assert(before.live(mappings@[k as int]));
            self.add_to_group(group_indices[k], mappings[k]);
            proof {
                assert(added.take(k + 1).drop_last() =~= added.take(k as int));
                assert(added.take(k + 1).last() == added[k as int]);
                assert forall|i: usize| #[trigger] self.unused(i) implies exists|j: int|
                    k + 1 <= j < mappings@.len() && #[trigger] mappings@[j] == i by {
                    assert(now.unused(i));
                    let j = choose|j: int|
                        k <= j < mappings@.len() && #[trigger] mappings@[j] == i;
                    assert(j != k);
                    assert(k + 1 <= j < mappings@.len() && mappings@[j] == i);
                }
                assert forall|i: usize| (#[trigger] self.live(i)) == before.live(i) by {
                    assert(self.live(i) == now.live(i));
                }
            }
            k += 1;
        }
        assert(added.take(k as int) =~= added);
    }

    /// Adds the values of rows to groups: that of row `items[k]` to group `group_indices[k]`.
    pub fn add_rows<R: DistinctRows<V>>(
        &mut self,
        rows: &R,
        items: &[usize],
        group_indices: &[usize],
    )
        requires
            old(self).wf(),
            items@.len() == group_indices@.len(),
            forall|k: int|
                0 <= k < items@.len() ==> (#[trigger] items@[k]) < rows.models().len(),
            forall|k: int|
                0 <= k < group_indices@.len() ==> (#[trigger] group_indices@[k]) < old(self).groups().len(),
        ensures
            final(self).wf(),
            final(self).groups() == with_values(
                old(self).groups(),
                Seq::new(
                    items@.len(),
                    |k: int| (group_indices@[k], rows.models()[items@[k] as int]),
                ),
            ),
            final(self).accounted_capacities() >= old(self).accounted_capacities(),
            items@.len() == 0 ==> final(self).accounted_capacities()
                == old(self).accounted_capacities(),
    {
        let mappings: Vec<usize> = self.update_hashes(rows, items);
        let ghost mid = *self;
        self.add_batch(group_indices, mappings.as_slice());
        assert(Seq::new(
            mappings@.len(),
            |k: int| (group_indices@[k], mid.models()[mappings@[k] as int]),
        ) =~= Seq::new(
            items@.len(),
            |k: int| (group_indices@[k], rows.models()[items@[k] as int]),
        ));
    }

    /// There is a value at this place.
    pub closed spec fn has(&self, i: usize) -> bool {
        self.live(i)
    }

    /// The value at a place.
    pub closed spec fn model_at(&self, i: usize) -> V::Model {
        self.models()[i as int]
    }

    /// The lists name the places of the values of the first groups.
    pub closed spec fn is_group_lists(&self, lists: Seq<Vec<usize>>) -> bool {
        &&& lists.len() <= self.sets().len()
        &&& forall|g: int|
            0 <= g < lists.len() ==> is_listing((#[trigger] lists[g])@, self.sets()[g])
    }

    /// A group has as many values as indices.
    proof fn lemma_group_len(&self, g: int)
        requires
            self.wf(),
            0 <= g < self.groups().len(),
        ensures
            self.groups()[g].len() == self.states@[g]@.len(),
    {
        let set = self.sets()[g];
        let f = |i: usize| self.models()[i as int];
        assert forall|a: usize, b: usize|
            set.contains(a) && set.contains(b) && #[trigger] f(a) == #[trigger] f(
                b,
            ) implies a == b by {
            assert(self.live(a) && self.live(b));
        }
        lemma_map_size(set, values_at(self.models(), set), f);
    }

    /// The number of values in a group.
    pub fn group_len(&self, group_index: usize) -> (len: usize)
        requires
            self.wf(),
            group_index < self.groups().len(),
        ensures
            len == self.groups()[group_index as int].len(),
    {
        proof {
            self.lemma_group_len(group_index as int);
        }
        self.states[group_index].len()
    }

    /// The bytes that the values of a group take in an output, or the largest number there is if
    /// they are more than that.
    pub fn group_size(&self, group_index: usize) -> (bytes: usize)
        requires
            self.wf(),
            group_index < self.groups().len(),
        ensures
            bytes == saturated(output_total::<V>(self.groups()[group_index as int])),
    {
        self.states[group_index].underlying_size()
    }

    /// The places of the values of the first `n` groups, those of a group in no particular order.
    pub(crate) fn group_lists(&self, n: usize) -> (lists: Vec<Vec<usize>>)
        requires
            self.wf(),
            n <= self.groups().len(),
        ensures
            lists@.len() == n,
            self.is_group_lists(lists@),
            forall|g: int, k: int|
                0 <= g < n && 0 <= k < lists@[g]@.len() ==> self.has(#[trigger] lists@[g]@[k]),
            forall|g: int|
                0 <= g < n ==> is_listing(
                    self.models_at((#[trigger] lists@[g])@),
                    self.groups()[g],
                ),
    {
        let mut lists: Vec<Vec<usize>> = Vec::new();
        let mut g: usize = 0;
        while g < n
            invariant
                self.wf(),
                0 <= g <= n <= self.states@.len(),
                lists@.len() == g,
                forall|h: int|
                    0 <= h < g ==> is_listing((#[trigger] lists@[h])@, self.sets()[h]),
            decreases n - g,
        {
            let indices: Vec<usize> = self.states[g].indices();
            lists.push(indices);
            g += 1;
        }
        proof {
            assert forall|g: int, k: int| 0 <= g < n && 0 <= k < lists@[g]@.len() implies self.has(
                #[trigger] lists@[g]@[k],
            ) by {
                let list = lists@[g]@;
                assert(is_listing(list, self.sets()[g]));
                assert(list.to_set().contains(list[k]));
                assert(self.sets()[g].contains(list[k]));
            }
            assert forall|g: int| 0 <= g < n implies is_listing(
                self.models_at((#[trigger] lists@[g])@),
                self.groups()[g],
            ) by {
                self.lemma_listing(lists@[g]@, g);
            }
        }
        lists
    }

    /// The values at some places.
    pub open spec fn models_at(&self, indices: Seq<usize>) -> Seq<V::Model> {
        Seq::new(indices.len(), |k: int| self.model_at(indices[k]))
    }

    /// A list of the places of a group lists its values.
    proof fn lemma_listing(&self, list: Seq<usize>, g: int)
        requires
            self.consistent(),
            0 <= g < self.states@.len(),
            is_listing(list, self.sets()[g]),
        ensures
            is_listing(self.models_at(list), self.groups()[g]),
    {
        let models = self.models_at(list);
        let set = self.sets()[g];
        assert forall|k: int| 0 <= k < list.len() implies self.live(#[trigger] list[k]) by {
            assert(list.to_set().contains(list[k]));
            assert(self.sets()[g].contains(list[k]));
        }
        assert forall|a: int, b: int|
            0 <= a < models.len() && 0 <= b < models.len() && a != b implies models[a]
            != models[b] by {
            assert(self.live(list[a]) && self.live(list[b]));
            assert(list[a] != list[b]);
        }
        let group = self.groups()[g];
        assert forall|m: V::Model| models.to_set().contains(m) == group.contains(m) by {
            if models.to_set().contains(m) {
                let k = choose|k: int| 0 <= k < models.len() && models[k] == m;
                assert(list.to_set().contains(list[k]));
                assert(set.contains(list[k]) && m == self.models()[list[k] as int]);
            }
            if group.contains(m) {
                let i = choose|i: usize| set.contains(i) && m == self.models()[i as int];
                assert(list.to_set().contains(i));
                let k = choose|k: int| 0 <= k < list.len() && list[k] == i;
                assert(models[k] == m);
            }
        }
        assert(models.to_set() =~= group);
    }

    /// The value at a place.
    pub(crate) fn value_at(&self, index: usize) -> (value: &V)
        requires
            self.has(index),
        ensures
            value.model() == self.model_at(index),
    {
        &self.values[index]
    }

    /// Drops the first groups, whose places `lists` names. The values that no other group uses
    /// go with them; where a blank value is given, it takes their places.
    pub(crate) fn release_first(&mut self, lists: &Vec<Vec<usize>>, blank: Option<&V>) where
        V: Clone,

        requires
            old(self).wf(),
            old(self).is_group_lists(lists@),
        ensures
            final(self).wf(),
            final(self).groups() == old(self).groups().skip(lists@.len() as int),
            is_left_accounted(
                old(self).accounted_capacities(),
                old(self).groups(),
                lists@.len() as int,
                final(self).accounted_capacities(),
            ),
            if lists@.len() == old(self).groups().len() {
                final(self).unique_values().values() == Seq::<V>::empty()
            } else {
                old(self).unique_values().vacated(
                    match blank {
                        Some(blank) => Some(*blank),
                        None => None,
                    },
                    &final(self).unique_values(),
                )
            },
    {
        let n: usize = lists.len();
        if n == self.states.len() {
            // Nothing is left: no use counting down.
            self.values.reset(DEFAULT_CAPACITY);
            self.states = Vec::with_capacity(DEFAULT_CAPACITY);
            self.states_capacities = 0;
            self.map = new_table(DEFAULT_CAPACITY);
            assert(self.groups() =~= Seq::<Set<V::Model>>::empty());
            return;
        }
        let ghost before = *self;
        let mut emitted: Vec<AccumulatorState> = self.states.split_off(n);
        core::mem::swap(&mut self.states, &mut emitted);
        proof {
            before.lemma_group_sizes(emitted@);
        }
        self.release_capacities(&emitted, Ghost(before.groups().take(n as int)));
        let initial_number_of_available_indices: usize =
            self.values.get_number_of_available_indices();
        self.count_down(lists, Ghost(before));
        let ghost counted = *self;
        proof {
            self.values.lemma_len();
            assert forall|entry: (u64, usize)| #[trigger]
                table_entries(self.map).contains(entry) implies entry.1
                < self.values.ref_counts().len() by {
                assert(table_entries(before.map).count(entry) > 0);
                assert(before.live(entry.1));
            }
        }
        if initial_number_of_available_indices != self.values.get_number_of_available_indices() {
            // Some values are no longer used: the table must not find them any more.
            retain_used(&mut self.map, self.values.counts());
            if let Some(blank) = blank {
                self.values.claim_data_from_added_available_indices(
                    initial_number_of_available_indices,
                    blank,
                );
            }
        } else {
            assert(counted.values.available() =~= before.values.available());
        }
        proof {
            let counts = counted.values.ref_counts();
            assert forall|i: int| 0 <= i < counts.len() && counts[i] > 0 implies (
            #[trigger] self.values.values()[i]) == before.values.values()[i] by {
                if exists|k: int|
                    initial_number_of_available_indices <= k < counted.values.available().len() && (
                    #[trigger] counted.values.available()[k]) == i {
                    let k = choose|k: int|
                        initial_number_of_available_indices <= k < counted.values.available().len()
                            && (#[trigger] counted.values.available()[k]) == i;
                    assert(counts[counted.values.available()[k] as int] == 0);
                }
            }
            assert forall|entry: (u64, usize)|
                (#[trigger] table_entries(self.map).count(entry)) == if table_entries(
                    before.map,
                ).count(entry) > 0 && counts[entry.1 as int] > 0 {
                    table_entries(before.map).count(entry)
                } else {
                    0
                } by {
                if table_entries(before.map).count(entry) > 0 {
                    assert(table_entries(before.map).contains(entry));
                    assert(before.live(entry.1));
                    if counts[entry.1 as int] == 0 {
                        assert(counted.values.available().contains(entry.1));
                    }
                }
            }
            before.lemma_released(self, n as int);
        }
    }

    /// Takes the room in the given states off the capacities accounted for.
    fn release_capacities(
        &mut self,
        emitted: &Vec<AccumulatorState>,
        Ghost(groups): Ghost<Seq<Set<V::Model>>>,
    )
        requires
            groups.len() == emitted@.len(),
            forall|g: int|
                0 <= g < groups.len() ==> (#[trigger] groups[g]).len() == emitted@[g]@.len(),
        ensures
            final(self).map == old(self).map,
            final(self).values == old(self).values,
            final(self).states == old(self).states,
            final(self).seeds == old(self).seeds,
            is_released(old(self).states_capacities, groups, final(self).states_capacities),
    {
        let mut rooms: Vec<usize> = Vec::new();
        let mut i: usize = 0;
        while i < emitted.len()
            invariant
                groups.len() == emitted@.len(),
                forall|g: int|
                    0 <= g < groups.len() ==> (#[trigger] groups[g]).len() == emitted@[g]@.len(),
                i == rooms@.len() <= emitted@.len(),
                forall|g: int|
                    0 <= g < i ==> has_room(
                        rooms@[g],
                        size_of::<usize>(),
                        (#[trigger] groups[g]).len(),
                    ),
            decreases emitted@.len() - i,
        {
            assert(groups[i as int].len() == emitted@[i as int]@.len());
            rooms.push(emitted[i].capacity());
            i += 1;
        }
        let before: usize = self.states_capacities;
        self.states_capacities = account_release(before, rooms.as_slice());
        assert(has_rooms(rooms@, groups));
    }

    /// The groups have as many values as their states have indices.
    proof fn lemma_group_sizes(&self, states: Seq<AccumulatorState>)
        requires
            self.wf(),
            states.len() <= self.states@.len(),
            states == self.states@.take(states.len() as int),
        ensures
            forall|g: int|
                0 <= g < states.len() ==> (#[trigger] self.groups().take(
                    states.len() as int,
                )[g]).len() == states[g]@.len(),
    {
        assert forall|g: int| 0 <= g < states.len() implies (#[trigger] self.groups().take(
            states.len() as int,
        )[g]).len() == states[g]@.len() by {
            self.lemma_group_len(g);
        }
    }

    /// Counts the groups that `lists` names off the values that they use.
    fn count_down(&mut self, lists: &Vec<Vec<usize>>, Ghost(before): Ghost<Self>)
        requires
            before.wf(),
            before.is_group_lists(lists@),
            old(self).values == before.values,
            old(self).map == before.map,
            old(self).seeds == before.seeds,
        ensures
            final(self).map == before.map,
            final(self).seeds == before.seeds,
            final(self).states == old(self).states,
            final(self).states_capacities == old(self).states_capacities,
            final(self).values.wf(),
            final(self).values.values() == before.values.values(),
            before.values.available().len() <= final(self).values.available().len(),
            final(self).values.available().take(before.values.available().len() as int)
                == before.values.available(),
            forall|i: int|
                0 <= i < final(self).values.ref_counts().len() ==> (
                #[trigger] final(self).values.ref_counts()[i]) == count_groups(
                    before.sets().skip(lists@.len() as int),
                    i as usize,
                ),
            forall|i: int|
                0 <= i < final(self).values.ref_counts().len() && (
                #[trigger] final(self).values.ref_counts()[i]) == 0
                    ==> final(self).values.available().contains(i as usize),
    {
        let ghost sets = before.sets();
        let ghost first = before.values.available();
        let mut g: usize = 0;
        proof {
            before.values.lemma_len();
            assert(sets.skip(0) =~= sets);
            assert forall|i: int|
                0 <= i < before.values.ref_counts().len() && (
                #[trigger] before.values.ref_counts()[i]) == 0 implies before.values.available().contains(
                i as usize,
            ) by {
                assert(!before.unused(i as usize));
            }
            assert(first.take(first.len() as int) =~= first);
        }
        while g < lists.len()
            invariant
                before.wf(),
                before.is_group_lists(lists@),
                sets == before.sets(),
                first == before.values.available(),
                0 <= g <= lists@.len(),
                self.map == before.map,
                self.seeds == before.seeds,
                self.states == old(self).states,
                self.states_capacities == old(self).states_capacities,
                self.values.wf(),
                self.values.values() == before.values.values(),
                before.values.values().len() <= usize::MAX,
                first.len() <= self.values.available().len(),
                self.values.available().take(first.len() as int) == first,
                forall|i: int|
                    0 <= i < self.values.ref_counts().len() ==> (
                    #[trigger] self.values.ref_counts()[i]) == count_groups(
                        sets.skip(g as int),
                        i as usize,
                    ),
                forall|i: int|
                    0 <= i < self.values.ref_counts().len() && (
                    #[trigger] self.values.ref_counts()[i]) == 0
                        ==> self.values.available().contains(i as usize),
            decreases lists@.len() - g,
        {
            let ghost list = lists@[g as int]@;
            let ghost set = sets[g as int];
            let ghost rest = sets.skip(g + 1);
            let mut k: usize = 0;
            proof {
                assert(sets.skip(g as int).skip(1) =~= rest);
                assert(sets.skip(g as int)[0] == set);
                assert(is_listing(list, set));
                assert forall|i: int| 0 <= i < self.values.ref_counts().len() implies (
                #[trigger] self.values.ref_counts()[i]) == count_groups(rest, i as usize) + (
                if list.skip(0).contains(i as usize) {
                    1int
                } else {
                    0
                }) by {
                    assert(list.skip(0) =~= list);
                    assert(list.to_set().contains(i as usize) == list.contains(i as usize));
                }
            }
            while k < lists[g as usize].len()
                invariant
                    before.wf(),
                    g < lists@.len(),
                    lists@.len() <= sets.len(),
                    sets == before.sets(),
                    list == lists@[g as int]@,
                    set == sets[g as int],
                    is_listing(list, set),
                    first == before.values.available(),
                    0 <= k <= list.len(),
                    self.map == before.map,
                    self.seeds == before.seeds,
                    self.states == old(self).states,
                    self.states_capacities == old(self).states_capacities,
                    self.values.wf(),
                    self.values.values() == before.values.values(),
                    before.values.values().len() <= usize::MAX,
                    first.len() <= self.values.available().len(),
                    self.values.available().take(first.len() as int) == first,
                    forall|i: int|
                        0 <= i < self.values.ref_counts().len() ==> (
                        #[trigger] self.values.ref_counts()[i]) == count_groups(rest, i as usize)
                            + (if list.skip(k as int).contains(i as usize) {
                            1int
                        } else {
                            0
                        }),
                    forall|i: int|
                        0 <= i < self.values.ref_counts().len() && (
                        #[trigger] self.values.ref_counts()[i]) == 0
                            ==> self.values.available().contains(i as usize),
                decreases list.len() - k,
            {
                let ghost now = self.values;
                let index: usize = lists[g][k];
                proof {
                    assert(list.to_set().contains(list[k as int]));
                    assert(before.sets()[g as int].contains(index));
                    assert(before.live(index));
                    assert(list.skip(k as int)[0] == index);
                    assert(now.ref_counts()[index as int] == count_groups(rest, index) + 1);
                }
                self.values.decrement_ref_count(index);
                proof {
                    let left = list.skip(k + 1);
                    assert forall|i: usize| (#[trigger] left.contains(i)) == (list.skip(
                        k as int,
                    ).contains(i) && i != index) by {
                        lemma_skip_contains(list, k as int, i);
                    }
                    assert forall|i: int| 0 <= i < self.values.ref_counts().len() implies (
                    #[trigger] self.values.ref_counts()[i]) == count_groups(rest, i as usize) + (
                    if left.contains(i as usize) {
                        1int
                    } else {
                        0
                    }) by {
                        assert(now.ref_counts()[i] == count_groups(rest, i as usize) + (
                        if list.skip(k as int).contains(i as usize) {
                            1int
                        } else {
                            0
                        }));
                    }
                    assert forall|i: int|
                        0 <= i < self.values.ref_counts().len() && (
                        #[trigger] self.values.ref_counts()[i])
                            == 0 implies self.values.available().contains(i as usize) by {
                        if i == index {
                            assert(self.values.available().last() == index);
                        } else {
                            assert(now.ref_counts()[i] == 0);
                            let j = choose|j: int|
                                0 <= j < now.available().len() && now.available()[j] == i;
                            assert(self.values.available()[j] == i);
                        }
                    }
                    assert(self.values.available().take(first.len() as int) =~= first) by {
                        assert(now.available().take(first.len() as int) =~= first);
                        assert forall|j: int| 0 <= j < first.len() implies self.values.available()[j]
                            == first[j] by {
                            assert(now.available().take(first.len() as int)[j] == first[j]);
                        }
                    }
                }
                k += 1;
            }
            proof {
                assert forall|i: int| 0 <= i < self.values.ref_counts().len() implies (
                #[trigger] self.values.ref_counts()[i]) == count_groups(rest, i as usize) by {
                    assert(!list.skip(list.len() as int).contains(i as usize));
                }
            }
            g += 1;
        }
    }

    /// What is left once the first `n` groups are counted off.
    proof fn lemma_released(&self, after: &Self, n: int)
        requires
            self.wf(),
            0 <= n <= self.states@.len(),
            after.seeds == self.seeds,
            after.states@ == self.states@.skip(n),
            after.values.wf(),
            after.values.values().len() == self.values.values().len(),
            forall|i: int|
                0 <= i < after.values.ref_counts().len() ==> (
                #[trigger] after.values.ref_counts()[i]) == count_groups(
                    self.sets().skip(n),
                    i as usize,
                ),
            forall|i: int|
                0 <= i < after.values.ref_counts().len() && (
                #[trigger] after.values.ref_counts()[i]) == 0
                    ==> after.values.available().contains(i as usize),
            forall|i: int|
                0 <= i < after.values.ref_counts().len() && after.values.ref_counts()[i] > 0 ==> (
                #[trigger] after.values.values()[i]) == self.values.values()[i],
            forall|entry: (u64, usize)|
                (#[trigger] table_entries(after.map).count(entry)) == if table_entries(
                    self.map,
                ).count(entry) > 0 && after.values.ref_counts()[entry.1 as int] > 0 {
                    table_entries(self.map).count(entry)
                } else {
                    0
                },
        ensures
            after.wf(),
            after.groups() == self.groups().skip(n),
    {
        after.values.lemma_len();
        let rest = self.sets().skip(n);
        assert(after.sets() =~= rest);
        assert forall|i: usize| (#[trigger] after.live(i)) == (i < after.values.values().len()
            && after.values.ref_counts()[i as int] > 0) by {
            if i < after.values.values().len() {
                if after.values.available().contains(i) {
                    let k = choose|k: int|
                        0 <= k < after.values.available().len() && after.values.available()[k]
                            == i;
                    assert(after.values.ref_counts()[after.values.available()[k] as int] == 0);
                } else {
                    assert(after.values.ref_counts()[i as int] != 0);
                }
            }
        }
        assert forall|i: usize| #[trigger] after.live(i) implies self.live(i)
            && after.models()[i as int] == self.models()[i as int] by {
            lemma_count_zero(rest, i);
            let g = choose|g: int| 0 <= g < rest.len() && (#[trigger] rest[g]).contains(i);
            assert(self.sets()[g + n].contains(i));
            assert(self.live(i));
            assert(after.values.values()[i as int] == self.values.values()[i as int]);
        }
        assert forall|g: int, i: usize|
            0 <= g < after.sets().len() && (#[trigger] after.sets()[g].contains(i)) implies after.live(
            i,
        ) by {
            assert(self.sets()[g + n].contains(i));
            assert(self.live(i));
            lemma_count_zero(rest, i);
            assert(rest[g].contains(i));
            assert(after.values.ref_counts()[i as int] == count_groups(rest, i));
        }
        assert forall|entry: (u64, usize)|
            (#[trigger] table_entries(after.map).count(entry)) == if after.live(entry.1) && entry.0
                == V::hash_of(after.seeds, after.models()[entry.1 as int]) {
                1nat
            } else {
                0nat
            } by {
            let before = table_entries(self.map).count(entry);
            assert(before == if self.live(entry.1) && entry.0 == V::hash_of(
                self.seeds,
                self.models()[entry.1 as int],
            ) {
                1nat
            } else {
                0nat
            });
            assert(after.live(entry.1) == (entry.1 < after.values.values().len()
                && after.values.ref_counts()[entry.1 as int] > 0));
        }
        assert forall|i: usize, j: usize|
            #![trigger after.live(i), after.live(j)]
            after.live(i) && after.live(j) && i != j implies after.models()[i as int]
            != after.models()[j as int] by {
            assert(self.live(i) && self.live(j));
        }
        assert forall|i: usize| !#[trigger] after.unused(i) by {
            assert(after.live(i) ==> after.values.ref_counts()[i as int] > 0);
        }
        assert forall|g: int| 0 <= g < after.states@.len() implies #[trigger] after.groups()[g]
            == self.groups()[g + n] by {
            assert forall|i: usize| #[trigger]
                self.states@[g + n]@.contains(i) implies after.models()[i as int]
                == self.models()[i as int] by {
                assert(after.sets()[g].contains(i));
                assert(after.live(i));
            }
            self.lemma_same_group(after, g + n, g);
        }
        assert forall|g: int| 0 <= g < after.states@.len() implies (
        #[trigger] after.states@[g]).spec_size() == saturated(
            output_total::<V>(after.groups()[g]),
        ) by {
            assert(after.states@[g] == self.states@[g + n]);
            assert(after.groups()[g] == self.groups()[g + n]);
        }
        assert(after.groups() =~= self.groups().skip(n));
    }

    /// Heap bytes that the values, the groups and the table have allocated, or the largest number
    /// there is if they are more than that.
    pub fn size(&self) -> (bytes: usize)
        requires
            self.wf(),
        ensures
            self.is_size(bytes),
    {
        let states: usize = vec_allocated_size(&self.states);
        let entries: usize = table_capacity(&self.map);
        let values: usize = self.values.size();
        proof {
            self.lemma_entries();
            assert(self.groups().len() == self.states@.len());
            assert(has_room(entries, size_of::<(u64, usize)>(), all_values(self.groups()).len()));
            assert(covers(states, size_of::<AccumulatorState>() * self.groups().len()));
            assert(self.unique_values().is_size(values));
        }
        sets_size(states, self.states_capacities, entries, values)
    }

    /// The number of bytes may be found to be the heap bytes of the values, the groups and the
    /// table.
    pub open spec fn is_size(&self, bytes: usize) -> bool {
        exists|states: usize, entries: usize, values: usize|
            {
                &&& #[trigger] covers(states, size_of::<AccumulatorState>() * self.groups().len())
                &&& #[trigger] has_room(
                    entries,
                    size_of::<(u64, usize)>(),
                    all_values(self.groups()).len(),
                )
                &&& #[trigger] self.unique_values().is_size(values)
                &&& bytes == sets_bytes(states, self.accounted_capacities(), entries, values)
            }
    }

    /// Every value of a group has a place, and an entry in the table.
    proof fn lemma_entries(&self)
        requires
            self.wf(),
        ensures
            all_values(self.groups()).finite(),
            all_values(self.groups()).len() <= table_entries(self.map).len(),
            all_values(self.groups()).len() <= self.values.values().len(),
            forall|m: V::Model| #[trigger]
                all_values(self.groups()).contains(m) ==> exists|i: usize| #[trigger]
                    self.live(i) && self.models()[i as int] == m,
    {
        let all = all_values(self.groups());
        let models = self.models();
        assert forall|m: V::Model| #[trigger] all.contains(m) implies exists|i: usize| #[trigger]
            self.live(i) && models[i as int] == m by {
            let g = choose|g: int|
                0 <= g < self.groups().len() && (#[trigger] self.groups()[g]).contains(m);
            let i = choose|i: usize| self.states@[g]@.contains(i) && m == models[i as int];
            assert(self.sets()[g].contains(i));
            assert(self.live(i));
        }
        models.lemma_cardinality_of_set();
        assert(all.subset_of(models.to_set()));
        lemma_len_subset(all, models.to_set());
        let f = |m: V::Model|
            (
                V::hash_of(self.seeds, m),
                choose|i: usize| #[trigger] self.live(i) && models[i as int] == m,
            );
        let entries = all.map(f);
        assert(vstd::relations::injective_on(f, all)) by {
            assert forall|a: V::Model, b: V::Model|
                all.contains(a) && all.contains(b) && #[trigger] f(a) == #[trigger] f(
                    b,
                ) implies a == b by {
                assert(models[f(a).1 as int] == a);
                assert(models[f(b).1 as int] == b);
            }
        }
        lemma_map_size(all, entries, f);
        assert forall|entry: (u64, usize)| #[trigger] entries.contains(entry) implies table_entries(
            self.map,
        ).count(entry) > 0 by {
            let m = choose|m: V::Model| all.contains(m) && entry == f(m);
            assert(self.live(entry.1) && models[entry.1 as int] == m);
        }
        lemma_within_multiset(entries, table_entries(self.map));
    }

    /// There is a place for every value that a group has.
    pub proof fn law_values_have_places(&self)
        requires
            self.wf(),
        ensures
            forall|m: V::Model| #[trigger]
                all_values(self.groups()).contains(m) ==> exists|i: int|
                    0 <= i < self.unique_values().values().len() && (
                    #[trigger] self.unique_values().values()[i]).model() == m,
            all_values(self.groups()).len() <= self.unique_values().values().len(),
    {
        self.lemma_entries();
        assert forall|m: V::Model| #[trigger]
            all_values(self.groups()).contains(m) implies exists|i: int|
            0 <= i < self.unique_values().values().len() && (
            #[trigger] self.unique_values().values()[i]).model() == m by {
            let i = choose|i: usize| #[trigger] self.live(i) && self.models()[i as int] == m;
            assert(self.unique_values().values()[i as int].model() == m);
        }
    }
}

/// The values that any group has.
pub open spec fn all_values<M>(groups: Seq<Set<M>>) -> Set<M> {
    Set::new(
        |m: M| exists|g: int| 0 <= g < groups.len() && (#[trigger] groups[g]).contains(m),
    )
}

/// A multiset has at least as many elements as a set of which it has every element.
proof fn lemma_within_multiset<A>(set: Set<A>, all: Multiset<A>)
    requires
        set.finite(),
        forall|a: A| #[trigger] set.contains(a) ==> all.count(a) > 0,
    ensures
        set.len() <= all.len(),
    decreases set.len(),
{
    if set.len() > 0 {
        let a = set.choose();
        assert(set.contains(a));
        let rest = set.remove(a);
        let others = all.remove(a);
        assert forall|b: A| #[trigger] rest.contains(b) implies others.count(b) > 0 by {
            assert(set.contains(b));
        }
        lemma_within_multiset(rest, others);
        assert(others.insert(a) =~= all);
    }
}

/// The bytes of sets: of the states, of the room in their sets of indices, of the room for entries
/// in the table, and of the unique values.
pub open spec fn sets_bytes(
    states: usize,
    states_capacities: usize,
    table_capacity: usize,
    values: usize,
) -> usize {
    saturated(
        (states + states_capacities * size_of::<usize>() + table_capacity * size_of::<
            (u64, usize),
        >() + values) as nat,
    )
}

/// Adds up the bytes of sets, up to the largest number there is.
pub fn sets_size(
    states: usize,
    states_capacities: usize,
    table_capacity: usize,
    values: usize,
) -> (bytes: usize)
    ensures
        bytes == sets_bytes(states, states_capacities, table_capacity, values),
{
    let indices: usize = items_size(states_capacities, core::mem::size_of::<usize>());
    let entries: usize = items_size(table_capacity, core::mem::size_of::<(u64, usize)>());
    assert(states_capacities * size_of::<usize>() >= 0) by (nonlinear_arith);
    assert(table_capacity * size_of::<(u64, usize)>() >= 0) by (nonlinear_arith);
    states.saturating_add(indices).saturating_add(entries).saturating_add(values)
}

/// The capacities that are left of those accounted for once sets with so much room are gone.
pub open spec fn left_accounted(capacities: usize, rooms: Seq<usize>) -> usize {
    if sum(rooms) < capacities {
        (capacities - sum(rooms)) as usize
    } else {
        0
    }
}

/// Takes the room in sets that are gone off the capacities accounted for.
pub fn account_release(capacities: usize, rooms: &[usize]) -> (left: usize)
    ensures
        left == left_accounted(capacities, rooms@),
{
    capacities.saturating_sub(total_size(rooms))
}

/// The room that there may be in sets that have these values.
pub open spec fn has_rooms<M>(rooms: Seq<usize>, groups: Seq<Set<M>>) -> bool {
    &&& rooms.len() == groups.len()
    &&& forall|g: int|
        0 <= g < groups.len() ==> has_room(
            rooms[g],
            size_of::<usize>(),
            (#[trigger] groups[g]).len(),
        )
}

/// The capacities accounted for go from `before` to `after` because the first groups are gone:
/// none is accounted for once there are no groups.
pub open spec fn is_left_accounted<M>(
    before: usize,
    groups: Seq<Set<M>>,
    first: int,
    after: usize,
) -> bool {
    if first == groups.len() {
        after == 0
    } else {
        is_released(before, groups.take(first), after)
    }
}

/// The capacities accounted for go from `before` to `after` because these groups are gone.
pub open spec fn is_released<M>(before: usize, groups: Seq<Set<M>>, after: usize) -> bool {
    exists|rooms: Seq<usize>| #[trigger]
        has_rooms(rooms, groups) && after == left_accounted(before, rooms)
}

/// What a list without its first items has, compared to one item more.
proof fn lemma_skip_contains(list: Seq<usize>, k: int, i: usize)
    requires
        0 <= k < list.len(),
        list.no_duplicates(),
    ensures
        list.skip(k + 1).contains(i) == (list.skip(k).contains(i) && i != list[k]),
{
    let a = list.skip(k + 1);
    let b = list.skip(k);
    if a.contains(i) {
        let j = choose|j: int| 0 <= j < a.len() && a[j] == i;
        assert(b[j + 1] == i);
        assert(list[k + 1 + j] == i);
    }
    if b.contains(i) && i != list[k] {
        let j = choose|j: int| 0 <= j < b.len() && b[j] == i;
        assert(a[j - 1] == i);
    }
}

} // verus!
