//! The distinct values of groups of primitive values.

use crate::aggregate::count_distinct::batches::{BatchError, ListRows};
use crate::aggregate::count_distinct::collect_set::{
    is_left_accounted, CollectSetGroups, DistinctRows, EmitTo,
};
use crate::aggregate::count_distinct::distinct_value::PrimitiveKey;
use crate::aggregate::count_distinct::helpers::group_accumulator_unique_values::OnlyOnStackSize;
use crate::aggregate::count_distinct::helpers::row_filter::{
    fits_batch, is_kept, kept_mask, selected, RowFilter,
};
use crate::aggregate::count_distinct::lists::{
    build_list_offsets, group_sizes, is_lists_of, lemma_lists, lists_fit,
};
use crate::blocked_helpers::layout::{concat, lemma_concat_push};
use crate::blocked_helpers::offset_size::total;
use crate::memory::saturated;
use arrow::buffer::NullBuffer;
use vstd::layout::size_of;
use vstd::prelude::*;

verus! {

impl<'a, N: PrimitiveKey> DistinctRows<N> for &'a [N] {
    open spec fn models(&self) -> Seq<N> {
        self@
    }

    fn row(&self, index: usize) -> (probe: &N) {
        &self[index]
    }
}

/// Lists of primitive values.
pub struct PrimitiveLists<N> {
    pub offsets: Vec<i32>,
    pub values: Vec<N>,
}

/// Collects the distinct primitive values of each group.
pub struct CountDistinctPrimitiveGroupsAccumulator<N: PrimitiveKey> {
    groups: CollectSetGroups<N, OnlyOnStackSize>,
}

impl<N: PrimitiveKey> CountDistinctPrimitiveGroupsAccumulator<N> {
    /// The values of each group.
    pub open spec fn groups(&self) -> Seq<Set<N>> {
        self.sets().groups()
    }

    /// The groups with what is kept for them.
    pub closed spec fn sets(&self) -> CollectSetGroups<N, OnlyOnStackSize> {
        self.groups
    }

    pub closed spec fn wf(&self) -> bool {
        self.groups.wf()
    }

    /// No groups yet.
    pub fn new() -> (accumulator: Self)
        ensures
            accumulator.wf(),
            accumulator.groups() == Seq::<Set<N>>::empty(),
            accumulator.sets().accounted_capacities() == 0,
    {
        CountDistinctPrimitiveGroupsAccumulator { groups: CollectSetGroups::new() }
    }

    /// The number of groups.
    pub fn len(&self) -> (len: usize)
        ensures
            len == self.groups().len(),
    {
        self.groups.len()
    }

    /// Adds the value of each row to the row's group, but for rows that are null or do not pass
    /// the filter. There are `total_num_groups` groups afterwards.
    pub fn update_batch(
        &mut self,
        values: &[N],
        nulls: Option<&NullBuffer>,
        group_indices: &[usize],
        opt_filter: Option<&RowFilter>,
        total_num_groups: usize,
    ) -> (result: Result<(), BatchError>)
        requires
            old(self).wf(),
            old(self).groups().len() <= total_num_groups,
            values@.len() == group_indices@.len(),
            fits_batch(opt_filter, nulls, group_indices@.len()),
            forall|i: int|
                0 <= i < group_indices@.len() && is_kept(opt_filter, nulls, i) ==> (
                #[trigger] group_indices@[i]) < total_num_groups,
        ensures
            result is Ok,
            final(self).wf(),
            old(self).sets().added(
                selected(
                    Seq::new(group_indices@.len(), |i: int| (group_indices@[i], values@[i])),
                    kept_mask(opt_filter, nulls, group_indices@.len()),
                ),
                total_num_groups as nat,
                &final(self).sets(),
            ),
    {
        self.groups.update_batch(&values, nulls, group_indices, opt_filter, total_num_groups);
        Ok(())
    }

    /// Adds the values of each list to the list's group, but for lists that are null or do not
    /// pass the filter. There are `total_num_groups` groups afterwards. If one of the lists has a
    /// null in it, nothing is added.
    pub fn merge_batch(
        &mut self,
        values: &[N],
        lists: &ListRows<'_>,
        group_indices: &[usize],
        opt_filter: Option<&RowFilter>,
        total_num_groups: usize,
    ) -> (result: Result<(), BatchError>)
        requires
            old(self).wf(),
            old(self).groups().len() <= total_num_groups,
            lists.within(values@.len()),
            lists.len() == group_indices@.len(),
            fits_batch(opt_filter, lists.nulls, group_indices@.len()),
            forall|i: int|
                0 <= i < group_indices@.len() && is_kept(opt_filter, lists.nulls, i) ==> (
                #[trigger] group_indices@[i]) < total_num_groups,
        ensures
            final(self).wf(),
            result is Err <==> exists|i: int|
                0 <= i < lists.len() && is_kept(opt_filter, lists.nulls, i)
                    && #[trigger] lists.has_null(i),
            old(self).sets().added(
                if result is Err {
                    Seq::empty()
                } else {
                    concat(
                        selected(
                            Seq::new(lists.len(), |i: int| lists.pairs(values@, group_indices@, i)),
                            kept_mask(opt_filter, lists.nulls, lists.len()),
                        ),
                    )
                },
                total_num_groups as nat,
                &final(self).sets(),
            ),
    {
        self.groups.merge_batch(&values, lists, group_indices, opt_filter, total_num_groups)
    }

    /// Whether [`Self::evaluate`] and [`Self::state`] can emit these groups.
    pub fn can_emit(&self, emit_to: EmitTo) -> (fit: bool)
        requires
            self.wf(),
        ensures
            fit == lists_fit(self.groups(), emit_to),
    {
        self.groups.lists_fit(emit_to)
    }

    /// Emits groups: a list of the values of each. The groups that are left move up.
    pub fn evaluate(&mut self, emit_to: EmitTo) -> (lists: PrimitiveLists<N>)
        requires
            old(self).wf(),
            lists_fit(old(self).groups(), emit_to),
        ensures
            final(self).wf(),
            is_lists_of(
                lists.offsets@,
                lists.values@,
                old(self).groups().take(emit_to.count(old(self).groups().len()) as int),
            ),
            final(self).groups() == old(self).groups().skip(
                emit_to.count(old(self).groups().len()) as int,
            ),
            is_left_accounted(
                old(self).sets().accounted_capacities(),
                old(self).groups(),
                emit_to.count(old(self).groups().len()) as int,
                final(self).sets().accounted_capacities(),
            ),
            if emit_to.count(old(self).groups().len()) == old(self).groups().len() {
                final(self).sets().unique_values().values() == Seq::<N>::empty()
            } else {
                old(self).sets().unique_values().vacated(
                    None,
                    &final(self).sets().unique_values(),
                )
            },
    {
        let n: usize = match emit_to {
            EmitTo::All => self.groups.len(),
            EmitTo::First(n) => n,
        };
        let indices: Vec<Vec<usize>> = self.groups.group_lists(n);
        let lists = self.build_list(&indices, Ghost(self.groups().take(n as int)));
        self.groups.release_first(&indices, None);
        lists
    }

    /// Emits groups as [`Self::evaluate`] does, as the one column of a state.
    pub fn state(&mut self, emit_to: EmitTo) -> (columns: Vec<PrimitiveLists<N>>)
        requires
            old(self).wf(),
            lists_fit(old(self).groups(), emit_to),
        ensures
            final(self).wf(),
            columns@.len() == 1,
            is_lists_of(
                columns@[0].offsets@,
                columns@[0].values@,
                old(self).groups().take(emit_to.count(old(self).groups().len()) as int),
            ),
            final(self).groups() == old(self).groups().skip(
                emit_to.count(old(self).groups().len()) as int,
            ),
            is_left_accounted(
                old(self).sets().accounted_capacities(),
                old(self).groups(),
                emit_to.count(old(self).groups().len()) as int,
                final(self).sets().accounted_capacities(),
            ),
            if emit_to.count(old(self).groups().len()) == old(self).groups().len() {
                final(self).sets().unique_values().values() == Seq::<N>::empty()
            } else {
                old(self).sets().unique_values().vacated(
                    None,
                    &final(self).sets().unique_values(),
                )
            },
    {
        let lists = self.evaluate(emit_to);
        let mut columns: Vec<PrimitiveLists<N>> = Vec::new();
        columns.push(lists);
        columns
    }

    /// The values at the given places, a list for each group.
    fn build_list(&self, indices: &Vec<Vec<usize>>, Ghost(groups): Ghost<Seq<Set<N>>>) -> (lists:
        PrimitiveLists<N>)
        requires
            self.wf(),
            self.groups.are_lists(indices@, groups),
            total(group_sizes(groups)) <= i32::MAX,
        ensures
            is_lists_of(lists.offsets@, lists.values@, groups),
    {
        let ghost all = self.groups.lists_at(indices@);
        proof {
            self.groups.lemma_list_lens(indices@, groups);
        }
        let offsets: Vec<i32> = build_list_offsets(indices);
        let mut values: Vec<N> = Vec::with_capacity(offsets[indices.len()] as usize);
        let mut g: usize = 0;
        assert(all.take(0) =~= Seq::<Seq<N>>::empty());
        while g < indices.len()
            invariant
                self.groups.are_lists(indices@, groups),
                all == self.groups.lists_at(indices@),
                0 <= g <= indices@.len(),
                values@ == concat(all.take(g as int)),
            decreases indices@.len() - g,
        {
            let mut k: usize = 0;
            proof {
                lemma_concat_push(all.take(g as int), all[g as int]);
                assert(all.take(g + 1) =~= all.take(g as int).push(all[g as int]));
                assert(concat(all.take(g as int)) + all[g as int].take(0) =~= values@);
            }
            while k < indices[g].len()
                invariant
                    self.groups.are_lists(indices@, groups),
                    all == self.groups.lists_at(indices@),
                    0 <= g < indices@.len(),
                    0 <= k <= indices@[g as int]@.len(),
                    values@ == concat(all.take(g as int)) + all[g as int].take(k as int),
                decreases indices@[g as int]@.len() - k,
            {
                assert(self.groups.has(indices@[g as int]@[k as int]));
                values.push(*self.groups.value_at(indices[g][k]));
                proof {
                    assert(all[g as int].take(k + 1) =~= all[g as int].take(k as int).push(
                        all[g as int][k as int],
                    ));
                }
                k += 1;
            }
            assert(all[g as int].take(k as int) =~= all[g as int]);
            g += 1;
        }
        proof {
            assert(all.take(g as int) =~= all);
            lemma_lists(offsets@, all, groups);
        }
        PrimitiveLists { offsets, values }
    }

    /// Bytes that the accumulator takes, or the largest number there is if they are more than that.
    pub fn size(&self) -> (bytes: usize)
        requires
            self.wf(),
        ensures
            exists|sets: usize| #[trigger]
                self.sets().is_size(sets) && bytes == saturated(size_of::<Self>() + sets as nat),
    {
        let sets: usize = self.groups.size();
        assert(self.sets().is_size(sets));
        core::mem::size_of::<Self>().saturating_add(sets)
    }
}

} // verus!
