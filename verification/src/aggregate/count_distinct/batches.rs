//! Adding batches of rows to the groups.

use crate::aggregate::count_distinct::collect_set::{grown, CollectSetGroups, DistinctRows};
use crate::aggregate::count_distinct::distinct_value::DistinctValue;
use crate::aggregate::count_distinct::helpers::group_accumulator_unique_values::GetHeapAllocatedSize;
use crate::aggregate::count_distinct::helpers::row_filter::{
    fits_batch, is_kept, kept_mask, kept_rows, lemma_selected, lemma_selects, row_numbers, selected, RowFilter,
};
use crate::arrow_buffers::{is_valid_at, validity};
use crate::blocked_helpers::layout::{concat, lemma_concat_push};
use crate::blocked_helpers::blocked_offset_buffer_builder::ascending;
use arrow::buffer::NullBuffer;
use vstd::prelude::*;

verus! {

/// Why a batch is refused.
#[derive(Debug, Clone, Copy, PartialEq, Eq, Structural)]
pub enum BatchError {
    /// A list that is to be merged has a null in it.
    NullsNotFiltered,
}

impl BatchError {
    pub fn message(&self) -> (message: &'static str)
        ensures
            message@ == "nulls should be filtered before updating hashes"@,
    {
        match self {
            BatchError::NullsNotFiltered => "nulls should be filtered before updating hashes",
        }
    }
}

/// Lists of values: row `i` has the values from `offsets[i]` up to `offsets[i + 1]`.
pub struct ListRows<'a> {
    pub offsets: &'a [i32],
    /// Which of the lists are null.
    pub nulls: Option<&'a NullBuffer>,
    /// Which of the values are null.
    pub value_nulls: Option<&'a NullBuffer>,
}

impl<'a> ListRows<'a> {
    /// The number of lists.
    pub open spec fn len(&self) -> nat {
        (self.offsets@.len() - 1) as nat
    }

    /// The lists are within the given number of values.
    pub open spec fn within(&self, values: nat) -> bool {
        &&& ascending(self.offsets@)
        &&& self.offsets@.last() <= values
        &&& self.value_nulls matches Some(nulls) ==> validity(*nulls).len() == values
    }

    /// There is a null in a list.
    pub open spec fn has_null(&self, row: int) -> bool {
        match self.value_nulls {
            Some(nulls) => exists|j: int|
                self.offsets@[row] <= j < self.offsets@[row + 1] && !#[trigger] validity(*nulls)[j],
            None => false,
        }
    }

    /// Each value of a list with the group that the list goes to.
    pub open spec fn pairs<M>(&self, models: Seq<M>, group_indices: Seq<usize>, row: int) -> Seq<
        (usize, M),
    > {
        Seq::new(
            (self.offsets@[row + 1] - self.offsets@[row]) as nat,
            |j: int| (group_indices[row], models[self.offsets@[row] + j]),
        )
    }

    /// Whether there is a null in a list.
    fn find_null(&self, row: usize, Ghost(values): Ghost<nat>) -> (found: bool)
        requires
            self.within(values),
            row < self.len(),
        ensures
            found == self.has_null(row as int),
    {
        match self.value_nulls {
            Some(nulls) => {
                assert(self.offsets@.len() == self.offsets.len());
                assert(0 <= self.offsets@[row as int] <= self.offsets@[row + 1]
                    <= self.offsets@[self.offsets@.len() - 1]);
                let from: usize = self.offsets[row] as usize;
                let to: usize = self.offsets[row + 1] as usize;
                let mut j: usize = from;
                while j < to
                    invariant
                        from <= j <= to,
                        self.within(values),
                        row < self.len(),
                        self.value_nulls == Some(nulls),
                        from == self.offsets@[row as int],
                        to == self.offsets@[row + 1],
                        to <= validity(*nulls).len(),
                        forall|k: int| from <= k < j ==> #[trigger] validity(*nulls)[k],
                    decreases to - j,
                {
                    if !is_valid_at(nulls, j) {
                        assert(!validity(*nulls)[j as int]);
                        return true;
                    }
                    j += 1;
                }
                false
            },
            None => false,
        }
    }
}

impl<V: DistinctValue, GetSizeV: GetHeapAllocatedSize<V>> CollectSetGroups<V, GetSizeV> {
    /// Adds the value of each row to the row's group, but for rows that are null or do not pass
    /// the filter. There are `total_num_groups` groups afterwards.
    pub fn update_batch<R: DistinctRows<V>>(
        &mut self,
        rows: &R,
        nulls: Option<&NullBuffer>,
        group_indices: &[usize],
        opt_filter: Option<&RowFilter>,
        total_num_groups: usize,
    )
        requires
            old(self).wf(),
            old(self).groups().len() <= total_num_groups,
            rows.models().len() == group_indices@.len(),
            fits_batch(opt_filter, nulls, group_indices@.len()),
            forall|i: int|
                0 <= i < group_indices@.len() && is_kept(opt_filter, nulls, i) ==> (
                #[trigger] group_indices@[i]) < total_num_groups,
        ensures
            old(self).added(
                selected(
                    Seq::new(group_indices@.len(), |i: int| (group_indices@[i], rows.models()[i])),
                    kept_mask(opt_filter, nulls, group_indices@.len()),
                ),
                total_num_groups as nat,
                final(self),
            ),
    {
        self.make_groups(total_num_groups);
        let items: Vec<usize> = kept_rows(opt_filter, nulls, group_indices.len());
        let ghost pairs = Seq::new(
            group_indices@.len(),
            |i: int| (group_indices@[i], rows.models()[i]),
        );
        let ghost mask = kept_mask(opt_filter, nulls, group_indices@.len());
        proof {
            lemma_selected(pairs, mask);
        }
        let mut groups: Vec<usize> = Vec::with_capacity(items.len());
        let mut k: usize = 0;
        while k < items.len()
            invariant
                0 <= k <= items@.len(),
                groups@.len() == k,
                mask == kept_mask(opt_filter, nulls, group_indices@.len()),
                forall|k: int|
                    0 <= k < items@.len() ==> (#[trigger] items@[k]) < group_indices@.len()
                        && mask[items@[k] as int],
                forall|i: int| 0 <= i < k ==> #[trigger] groups@[i] == group_indices@[items@[i] as int],
            decreases items@.len() - k,
        {
            groups.push(group_indices[items[k]]);
            k += 1;
        }
        self.add_rows(rows, items.as_slice(), groups.as_slice());
        assert(Seq::new(
            items@.len(),
            |k: int| (groups@[k], rows.models()[items@[k] as int]),
        ) =~= selected(pairs, mask));
    }

    /// Adds the values of each list to the list's group, but for lists that are null or do not
    /// pass the filter. There are `total_num_groups` groups afterwards. If one of the lists has a
    /// null in it, nothing is added.
    pub fn merge_batch<R: DistinctRows<V>>(
        &mut self,
        rows: &R,
        lists: &ListRows<'_>,
        group_indices: &[usize],
        opt_filter: Option<&RowFilter>,
        total_num_groups: usize,
    ) -> (result: Result<(), BatchError>)
        requires
            old(self).wf(),
            old(self).groups().len() <= total_num_groups,
            lists.within(rows.models().len()),
            lists.len() == group_indices@.len(),
            fits_batch(opt_filter, lists.nulls, group_indices@.len()),
            forall|i: int|
                0 <= i < group_indices@.len() && is_kept(opt_filter, lists.nulls, i) ==> (
                #[trigger] group_indices@[i]) < total_num_groups,
        ensures
            result is Err <==> exists|i: int|
                0 <= i < lists.len() && is_kept(opt_filter, lists.nulls, i)
                    && #[trigger] lists.has_null(i),
            old(self).added(
                if result is Err {
                    Seq::empty()
                } else {
                    concat(
                        selected(
                            Seq::new(
                                lists.len(),
                                |i: int| lists.pairs(rows.models(), group_indices@, i),
                            ),
                            kept_mask(opt_filter, lists.nulls, lists.len()),
                        ),
                    )
                },
                total_num_groups as nat,
                final(self),
            ),
    {
        self.make_groups(total_num_groups);
        let kept: Vec<usize> = kept_rows(opt_filter, lists.nulls, group_indices.len());
        let ghost models = rows.models();
        let ghost all = Seq::new(
            lists.len(),
            |i: int| lists.pairs(models, group_indices@, i),
        );
        let ghost mask = kept_mask(opt_filter, lists.nulls, lists.len());
        proof {
            assert(lists.offsets@.len() == lists.offsets.len());
            lemma_selected(all, mask);
        }
        let ghost chosen = selected(all, mask);
        let mut k: usize = 0;
        while k < kept.len()
            invariant
                0 <= k <= kept@.len(),
                lists.within(models.len()),
                forall|k: int| 0 <= k < kept@.len() ==> (#[trigger] kept@[k]) < lists.len(),
                forall|i: int| 0 <= i < k ==> !lists.has_null(#[trigger] kept@[i] as int),
                forall|k: int|
                    0 <= k < kept@.len() ==> is_kept(
                        opt_filter,
                        lists.nulls,
                        #[trigger] kept@[k] as int,
                    ),
                self.wf(),
                self.groups() == grown(old(self).groups(), total_num_groups as nat),
                self.accounted_capacities() == old(self).accounted_capacities(),
            decreases kept@.len() - k,
        {
            if lists.find_null(kept[k], Ghost(models.len())) {
                assert(lists.has_null(kept@[k as int] as int));
                return Err(BatchError::NullsNotFiltered);
            }
            k += 1;
        }
        proof {
            assert forall|i: int|
                0 <= i < lists.len() && is_kept(
                    opt_filter,
                    lists.nulls,
                    i,
                ) implies !#[trigger] lists.has_null(i) by {
                lemma_selects(row_numbers(lists.len()), mask, i);
                let k = choose|k: int| 0 <= k < kept@.len() && kept@[k] == i;
                assert(!lists.has_null(kept@[k] as int));
            }
        }
        let mut items: Vec<usize> = Vec::new();
        let mut groups: Vec<usize> = Vec::new();
        k = 0;
        assert(chosen.take(0) =~= Seq::<Seq<(usize, V::Model)>>::empty());
        while k < kept.len()
            invariant
                0 <= k <= kept@.len(),
                models == rows.models(),
                lists.within(models.len()),
                lists.offsets@.len() == lists.offsets.len(),
                lists.len() == group_indices@.len(),
                kept@.len() == chosen.len(),
                forall|k: int|
                    0 <= k < kept@.len() ==> (#[trigger] kept@[k]) < lists.len() && chosen[k]
                        == lists.pairs(models, group_indices@, kept@[k] as int)
                        && group_indices@[kept@[k] as int] < total_num_groups,
                items@.len() == groups@.len(),
                forall|i: int| 0 <= i < items@.len() ==> (#[trigger] items@[i]) < models.len(),
                forall|i: int| 0 <= i < groups@.len() ==> (#[trigger] groups@[i]) < total_num_groups,
                paired(groups@, items@, models) == concat(chosen.take(k as int)),
            decreases kept@.len() - k,
        {
            let row: usize = kept[k];
            proof {
                assert(0 <= lists.offsets@[row as int] <= lists.offsets@[row + 1]
                    <= lists.offsets@[lists.offsets@.len() - 1]);
                lemma_concat_push(chosen.take(k as int), chosen[k as int]);
                assert(chosen.take(k + 1) =~= chosen.take(k as int).push(chosen[k as int]));
                assert(paired(groups@, items@, models) + chosen[k as int].take(0) =~= paired(
                    groups@,
                    items@,
                    models,
                ));
            }
            let from: usize = lists.offsets[row] as usize;
            let to: usize = lists.offsets[row + 1] as usize;
            let group: usize = group_indices[row];
            let mut j: usize = from;
            while j < to
                invariant
                    from <= j <= to <= models.len(),
                    0 <= k < kept@.len() == chosen.len(),
                    row < lists.len() == group_indices@.len(),
                    from == lists.offsets@[row as int],
                    to == lists.offsets@[row + 1],
                    group == group_indices@[row as int],
                    group < total_num_groups,
                    chosen[k as int] == lists.pairs(models, group_indices@, row as int),
                    items@.len() == groups@.len(),
                    forall|i: int|
                        0 <= i < items@.len() ==> (#[trigger] items@[i]) < models.len(),
                    forall|i: int|
                        0 <= i < groups@.len() ==> (#[trigger] groups@[i]) < total_num_groups,
                    paired(groups@, items@, models) == concat(chosen.take(k as int))
                        + chosen[k as int].take(j - from),
                decreases to - j,
            {
                let ghost so_far = paired(groups@, items@, models);
                items.push(j);
                groups.push(group);
                proof {
                    let pair = chosen[k as int][j - from];
                    assert(pair == (group, models[j as int]));
                    assert(paired(groups@, items@, models) =~= so_far.push(pair));
                    assert(chosen[k as int].take(j - from + 1) =~= chosen[k as int].take(
                        j - from,
                    ).push(pair));
                    assert(paired(groups@, items@, models) =~= concat(chosen.take(k as int))
                        + chosen[k as int].take(j - from + 1));
                }
                j += 1;
            }
            assert(chosen[k as int].take(to - from) =~= chosen[k as int]);
            k += 1;
        }
        assert(chosen.take(k as int) =~= chosen);
        self.add_rows(rows, items.as_slice(), groups.as_slice());
        assert(Seq::new(
            items@.len(),
            |k: int| (groups@[k], rows.models()[items@[k] as int]),
        ) =~= paired(groups@, items@, models));
        Ok(())
    }
}

/// The value at each place with its group.
spec fn paired<M>(groups: Seq<usize>, items: Seq<usize>, models: Seq<M>) -> Seq<(usize, M)> {
    Seq::new(items.len(), |k: int| (groups[k], models[items[k] as int]))
}

} // verus!
