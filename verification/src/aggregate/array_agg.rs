//! The values of each group in a list, in the order in which they came.

use crate::aggregate::count_distinct::batches::ListRows;
use crate::aggregate::count_distinct::collect_set::EmitTo;
use crate::aggregate::count_distinct::helpers::make_accumulators_if_needed;
use crate::aggregate::count_distinct::helpers::row_filter::{
    fits_batch, is_kept, kept_mask, kept_rows, lemma_selected, selected, RowFilter,
};
use crate::aggregate::count_distinct::lists::lens_of;
use crate::arrow_buffers::offsets_from_lengths;
use crate::blocked_helpers::blocked_offset_buffer_builder::ascending;
use crate::blocked_helpers::layout::{concat, lemma_concat_push, sum};
use crate::blocked_helpers::offset_size::{
    is_offsets_of, lemma_total_part, lemma_total_push, total,
};
use crate::collections::vec_allocated_size;
use crate::memory::{cover, covers, items_bytes, saturated, total_size};
use arrow::buffer::NullBuffer;
use vstd::layout::size_of;
use vstd::prelude::*;

verus! {

/// Room for this many groups is made at first.
const DEFAULT_CAPACITY: usize = 128;

/// An array that values are taken from.
pub struct Input<A> {
    array: A,
    /// The bytes that the array takes.
    memory_size: usize,
    /// The index of the last group that has a value of the array.
    max_group_index: usize,
}

/// Collects the values of each group.
///
/// The rows that count come in as arrays, which are kept; a group is a list of places in them. To
/// emit groups, the values at those places are put together.
pub struct CollectListGroupsAccumulator<A> {
    /// For each group the places of its values: the index of the input and the row in it.
    states: Vec<Vec<(usize, usize)>>,
    /// The arrays. One that no group uses any more is gone, but keeps its place.
    inputs: Vec<Option<Input<A>>>,
    /// The size of the arrays, or the largest number there is if it is more than that. Not
    /// accurate if arrays share memory.
    estimated_inputs_size: usize,
}

/// The groups and empty ones behind them, `total` in all.
pub open spec fn grown_lists<T>(groups: Seq<Seq<T>>, total: nat) -> Seq<Seq<T>> {
    groups + Seq::new((total - groups.len()) as nat, |i: int| Seq::<T>::empty())
}

/// The groups once each item is added behind those of its group.
pub open spec fn with_items<T>(groups: Seq<Seq<T>>, added: Seq<(usize, T)>) -> Seq<Seq<T>>
    decreases added.len(),
{
    if added.len() == 0 {
        groups
    } else {
        let before = with_items(groups, added.drop_last());
        let (group, item) = added.last();
        before.update(group as int, before[group as int].push(item))
    }
}

/// How to put emitted groups together: the places of all the values, and where the list of each
/// group starts and ends.
pub struct ListPlan {
    pub offsets: Vec<i32>,
    pub places: Vec<(usize, usize)>,
}

/// The groups exist, and lists of their values have 32 bit offsets.
pub open spec fn emittable<T>(groups: Seq<Seq<T>>, emit_to: EmitTo) -> bool {
    let n = emit_to.count(groups.len());
    &&& n <= groups.len()
    &&& total(lens_of(groups.take(n as int))) <= i32::MAX
}

/// The bytes that each array takes, none where it is gone.
spec fn memory_sizes<A>(inputs: Seq<Option<Input<A>>>) -> Seq<usize> {
    Seq::new(
        inputs.len(),
        |i: int|
            match inputs[i] {
                Some(input) => input.memory_size,
                None => 0,
            },
    )
}

/// The row of an array.
pub open spec fn row_of<A>(inputs: Seq<Option<A>>, place: (usize, usize)) -> (A, usize) {
    (inputs[place.0 as int]->0, place.1)
}

impl<A> CollectListGroupsAccumulator<A> {
    /// The arrays.
    pub closed spec fn spec_inputs(&self) -> Seq<Option<A>> {
        Seq::new(
            self.inputs@.len(),
            |i: int|
                match self.inputs@[i] {
                    Some(input) => Some(input.array),
                    None => None,
                },
        )
    }

    /// The bytes that each array takes, none where it is gone.
    pub closed spec fn input_sizes(&self) -> Seq<usize> {
        memory_sizes(self.inputs@)
    }

    /// The bytes that the arrays take together.
    pub open spec fn inputs_bytes(&self) -> nat {
        sum(self.input_sizes())
    }

    /// For each group the places of its values: the index of the array and the row in it.
    pub closed spec fn places(&self) -> Seq<Seq<(usize, usize)>> {
        Seq::new(self.states@.len(), |g: int| self.states@[g]@)
    }

    /// A group from `n` on has a value of an array.
    pub open spec fn is_needed(&self, n: int, i: int) -> bool {
        exists|g: int, k: int|
            n <= g < self.places().len() && 0 <= k < self.places()[g].len() && (
            #[trigger] self.places()[g][k]).0 == i
    }

    /// The values of each group, in order: each an array and a row in it.
    pub closed spec fn groups(&self) -> Seq<Seq<(A, usize)>> {
        Seq::new(
            self.states@.len(),
            |g: int| self.states@[g]@.map_values(|place| row_of(self.spec_inputs(), place)),
        )
    }

    /// `after` is this accumulator with `total` groups and with the given rows of an array added to
    /// their groups. The array is kept if there are such rows.
    pub open spec fn added(
        &self,
        rows: Seq<(usize, (A, usize))>,
        total: nat,
        array: A,
        memory_size: usize,
        after: &Self,
    ) -> bool {
        &&& after.groups() == with_items(grown_lists(self.groups(), total), rows)
        &&& after.spec_inputs() == if rows.len() == 0 {
            self.spec_inputs()
        } else {
            self.spec_inputs().push(Some(array))
        }
        &&& after.input_sizes() == if rows.len() == 0 {
            self.input_sizes()
        } else {
            self.input_sizes().push(memory_size)
        }
        &&& after.inputs_bytes() == self.inputs_bytes() + if rows.len() == 0 {
            0
        } else {
            memory_size as nat
        }
    }

    /// The arrays are there that the groups use, and the last group that has a value of an array
    /// is known.
    pub closed spec fn wf(&self) -> bool {
        &&& self.consistent()
        &&& self.estimated_inputs_size == saturated(self.inputs_bytes())
        &&& forall|i: int|
            0 <= i < self.inputs@.len() && (#[trigger] self.inputs@[i]) is Some ==> self.uses(
                self.inputs@[i]->0.max_group_index as int,
                i,
            )
    }

    /// A group has a value of an array.
    spec fn uses(&self, g: int, i: int) -> bool {
        &&& 0 <= g < self.states@.len()
        &&& exists|k: int| 0 <= k < self.states@[g]@.len() && (#[trigger] self.states@[g]@[k]).0 == i
    }

    /// The arrays are there that the groups use, and no array is used by a group behind the last
    /// one that it knows of.
    spec fn consistent(&self) -> bool {
        forall|g: int, k: int|
            0 <= g < self.states@.len() && 0 <= k < self.states@[g]@.len() ==> self.known(
                g,
                #[trigger] self.states@[g]@[k],
            )
    }

    spec fn known(&self, g: int, place: (usize, usize)) -> bool {
        &&& place.0 < self.inputs@.len()
        &&& self.inputs@[place.0 as int] is Some
        &&& g <= self.inputs@[place.0 as int]->0.max_group_index
    }

    /// No groups yet.
    pub fn new() -> (accumulator: Self)
        ensures
            accumulator.wf(),
            accumulator.groups() == Seq::<Seq<(A, usize)>>::empty(),
            accumulator.spec_inputs() == Seq::<Option<A>>::empty(),
            accumulator.inputs_bytes() == 0,
    {
        let accumulator = CollectListGroupsAccumulator {
            states: Vec::with_capacity(DEFAULT_CAPACITY),
            inputs: Vec::new(),
            estimated_inputs_size: 0,
        };
        assert(accumulator.groups() =~= Seq::<Seq<(A, usize)>>::empty());
        assert(accumulator.spec_inputs() =~= Seq::<Option<A>>::empty());
        accumulator
    }

    /// The number of groups.
    pub fn len(&self) -> (len: usize)
        ensures
            len == self.groups().len(),
    {
        self.states.len()
    }

    /// Adds empty groups until there are `total_num_groups`.
    fn make_groups(&mut self, total_num_groups: usize)
        requires
            old(self).wf(),
            old(self).groups().len() <= total_num_groups,
        ensures
            final(self).wf(),
            final(self).inputs == old(self).inputs,
            final(self).groups() == grown_lists(old(self).groups(), total_num_groups as nat),
    {
        let ghost before = *self;
        make_accumulators_if_needed(&mut self.states, total_num_groups);
        proof {
            assert forall|g: int| 0 <= g < before.states@.len() implies self.states@[g]
                == before.states@[g] by {
                assert(self.states@.take(before.states@.len() as int)[g] == before.states@[g]);
            }
            assert forall|g: int| before.states@.len() <= g < self.states@.len() implies (
            #[trigger] self.states@[g])@ == Seq::<(usize, usize)>::empty() by {}
            assert(self.spec_inputs() =~= before.spec_inputs());
            assert forall|g: int, k: int|
                0 <= g < self.states@.len() && 0 <= k < self.states@[g]@.len() implies self.known(
                g,
                #[trigger] self.states@[g]@[k],
            ) by {
                assert(before.known(g, before.states@[g]@[k]));
            }
            assert(self.groups() =~= grown_lists(before.groups(), total_num_groups as nat)) by {
                assert forall|g: int| 0 <= g < self.groups().len() implies (
                #[trigger] self.groups()[g]) =~= grown_lists(
                    before.groups(),
                    total_num_groups as nat,
                )[g] by {}
            }
        }
    }

    /// Adds the rows of an array: row `k` to group `group_indices[k]`.
    fn add_new_batch(&mut self, array: A, memory_size: usize, group_indices: &[usize])
        requires
            old(self).wf(),
            group_indices@.len() > 0,
            forall|k: int|
                0 <= k < group_indices@.len() ==> (#[trigger] group_indices@[k]) < old(
                    self,
                ).groups().len(),
        ensures
            final(self).wf(),
            final(self).groups() == with_items(
                old(self).groups(),
                numbered(group_indices@, array),
            ),
            final(self).spec_inputs() == old(self).spec_inputs().push(Some(array)),
            final(self).input_sizes() == old(self).input_sizes().push(memory_size),
            final(self).inputs_bytes() == old(self).inputs_bytes() + memory_size,
    {
        let ghost before = *self;
        let array_index: usize = self.inputs.len();
        let mut max_group_index: usize = group_indices[0];
        let mut k: usize = 0;
        while k < group_indices.len()
            invariant
                0 <= k <= group_indices@.len(),
                group_indices@.contains(max_group_index),
                forall|j: int|
                    0 <= j < k ==> (#[trigger] group_indices@[j]) <= max_group_index,
            decreases group_indices@.len() - k,
        {
            if group_indices[k] > max_group_index {
                max_group_index = group_indices[k];
            }
            k += 1;
        }
        self.estimated_inputs_size = self.estimated_inputs_size.saturating_add(memory_size);
        self.inputs.push(Some(Input { array, memory_size, max_group_index }));
        let ghost added = numbered(group_indices@, array);
        proof {
            assert forall|g: int, k: int|
                0 <= g < self.states@.len() && 0 <= k < self.states@[g]@.len() implies self.known(
                g,
                #[trigger] self.states@[g]@[k],
            ) by {
                assert(before.known(g, before.states@[g]@[k]));
            }
            assert forall|g: int| 0 <= g < before.groups().len() implies (
            #[trigger] self.groups()[g]) =~= before.groups()[g] by {
                assert forall|k: int| 0 <= k < before.states@[g]@.len() implies row_of(
                    self.spec_inputs(),
                    before.states@[g]@[k],
                ) == row_of(before.spec_inputs(), before.states@[g]@[k]) by {
                    assert(before.known(g, before.states@[g]@[k]));
                }
            }
            assert(self.groups() =~= before.groups());
            assert(self.spec_inputs() =~= before.spec_inputs().push(Some(array)));
            assert(self.input_sizes() =~= before.input_sizes().push(memory_size));
            assert(self.input_sizes().drop_last() =~= before.input_sizes());
            assert(added.take(0) =~= Seq::<(usize, (A, usize))>::empty());
        }
        let ghost pushed = *self;
        k = 0;
        while k < group_indices.len()
            invariant
                self.consistent(),
                self.inputs == pushed.inputs,
                self.estimated_inputs_size == pushed.estimated_inputs_size,
                forall|g: int, i: int| #[trigger] pushed.uses(g, i) ==> self.uses(g, i),
                forall|j: int|
                    0 <= j < k ==> self.uses(
                        #[trigger] group_indices@[j] as int,
                        array_index as int,
                    ),
                0 <= k <= group_indices@.len(),
                forall|j: int|
                    0 <= j < group_indices@.len() ==> (#[trigger] group_indices@[j]) <= max_group_index
                        && group_indices@[j] < self.states@.len(),
                array_index < self.inputs@.len(),
                self.inputs@[array_index as int] is Some,
                self.inputs@[array_index as int]->0.max_group_index == max_group_index,
                self.inputs@[array_index as int]->0.array == array,
                added == numbered(group_indices@, array),
                self.groups() == with_items(before.groups(), added.take(k as int)),
            decreases group_indices@.len() - k,
        {
            let ghost now = *self;
            let group: usize = group_indices[k];
            assert(group_indices@[k as int] < self.states@.len());
            self.states[group].push((array_index, k));
            proof {
                let place = (array_index, k);
                assert(self.spec_inputs() =~= now.spec_inputs());
                assert forall|g: int, j: int|
                    0 <= g < self.states@.len() && 0 <= j < self.states@[g]@.len() implies self.known(
                    g,
                    #[trigger] self.states@[g]@[j],
                ) by {
                    if g == group && j == now.states@[g]@.len() {
                    } else {
                        assert(now.known(g, now.states@[g]@[j]));
                    }
                }
                assert forall|g: int, i: int| #[trigger] now.uses(g, i) implies self.uses(
                    g,
                    i,
                ) by {
                    let j = choose|j: int|
                        0 <= j < now.states@[g]@.len() && (#[trigger] now.states@[g]@[j]).0 == i;
                    assert(self.states@[g]@[j].0 == i);
                }
                assert(self.states@[group as int]@.last() == place);
                assert(self.uses(group as int, array_index as int)) by {
                    let j = now.states@[group as int]@.len() as int;
                    assert(self.states@[group as int]@[j].0 == array_index);
                }
                let next = now.groups().update(
                    group as int,
                    now.groups()[group as int].push((array, k)),
                );
                assert forall|g: int| 0 <= g < next.len() implies (#[trigger] self.groups()[g])
                    =~= next[g] by {}
                assert(self.groups() =~= next);
                assert(added.take(k + 1).drop_last() =~= added.take(k as int));
                assert(added.take(k + 1).last() == added[k as int]);
            }
            k += 1;
        }
        proof {
            assert(added.take(k as int) =~= added);
            assert forall|i: int|
                0 <= i < self.inputs@.len() && (
                #[trigger] self.inputs@[i]) is Some implies self.uses(
                self.inputs@[i]->0.max_group_index as int,
                i,
            ) by {
                if i < array_index {
                    assert(before.inputs@[i] is Some);
                    let g = before.inputs@[i]->0.max_group_index as int;
                    assert(before.uses(g, i));
                    assert(pushed.uses(g, i)) by {
                        let j = choose|j: int|
                            0 <= j < before.states@[g]@.len() && (
                            #[trigger] before.states@[g]@[j]).0 == i;
                        assert(pushed.states@[g]@[j].0 == i);
                    }
                } else {
                    let j = choose|j: int|
                        0 <= j < group_indices@.len() && group_indices@[j] == max_group_index;
                    assert(self.uses(group_indices@[j] as int, array_index as int));
                }
            }
        }
    }

    /// Adds each row of a batch to the row's group, but for rows that are null or do not pass the
    /// filter. There are `total_num_groups` groups afterwards.
    ///
    /// `array` has the rows that are added, and no others; see [`kept_rows`] for which those are.
    pub fn update_batch(
        &mut self,
        array: A,
        memory_size: usize,
        nulls: Option<&NullBuffer>,
        group_indices: &[usize],
        opt_filter: Option<&RowFilter>,
        total_num_groups: usize,
    )
        requires
            old(self).wf(),
            old(self).groups().len() <= total_num_groups,
            fits_batch(opt_filter, nulls, group_indices@.len()),
            forall|i: int|
                0 <= i < group_indices@.len() && is_kept(opt_filter, nulls, i) ==> (
                #[trigger] group_indices@[i]) < total_num_groups,
        ensures
            final(self).wf(),
            old(self).added(
                numbered(
                    selected(
                        group_indices@,
                        kept_mask(opt_filter, nulls, group_indices@.len()),
                    ),
                    array,
                ),
                total_num_groups as nat,
                array,
                memory_size,
                final(self),
            ),
    {
        self.make_groups(total_num_groups);
        let items: Vec<usize> = kept_rows(opt_filter, nulls, group_indices.len());
        let ghost mask = kept_mask(opt_filter, nulls, group_indices@.len());
        let ghost chosen = selected(group_indices@, mask);
        proof {
            assert(group_indices@.len() == group_indices.len());
            lemma_selected(group_indices@, mask);
        }
        if items.len() == 0 {
            // Nothing is kept.
            assert(numbered(chosen, array) =~= Seq::<(usize, (A, usize))>::empty());
            return;
        }
        let mut groups: Vec<usize> = Vec::with_capacity(items.len());
        let mut k: usize = 0;
        while k < items.len()
            invariant
                0 <= k <= items@.len(),
                groups@.len() == k,
                mask == kept_mask(opt_filter, nulls, group_indices@.len()),
                forall|k: int|
                    0 <= k < items@.len() ==> (#[trigger] items@[k]) < group_indices@.len()
                        && mask[items@[k] as int],
                forall|i: int|
                    0 <= i < k ==> #[trigger] groups@[i] == group_indices@[items@[i] as int],
            decreases items@.len() - k,
        {
            groups.push(group_indices[items[k]]);
            k += 1;
        }
        assert(groups@ =~= chosen);
        self.add_new_batch(array, memory_size, groups.as_slice());
    }

    /// Adds the values of each list to the list's group, but for lists that are null or do not
    /// pass the filter. There are `total_num_groups` groups afterwards.
    ///
    /// `values` has the values of the lists that are added, one list after the other, and no others;
    /// see [`kept_rows`] for which lists those are.
    pub fn merge_batch(
        &mut self,
        values: A,
        memory_size: usize,
        lists: &ListRows<'_>,
        group_indices: &[usize],
        opt_filter: Option<&RowFilter>,
        total_num_groups: usize,
    )
        requires
            old(self).wf(),
            old(self).groups().len() <= total_num_groups,
            ascending(lists.offsets@),
            lists.len() == group_indices@.len(),
            fits_batch(opt_filter, lists.nulls, group_indices@.len()),
            forall|i: int|
                0 <= i < group_indices@.len() && is_kept(opt_filter, lists.nulls, i) ==> (
                #[trigger] group_indices@[i]) < total_num_groups,
        ensures
            final(self).wf(),
            old(self).added(
                numbered(
                    concat(
                        selected(
                            Seq::new(
                                lists.len(),
                                |i: int| groups_of_values(lists.offsets@, group_indices@, i),
                            ),
                            kept_mask(opt_filter, lists.nulls, lists.len()),
                        ),
                    ),
                    values,
                ),
                total_num_groups as nat,
                values,
                memory_size,
                final(self),
            ),
    {
        self.make_groups(total_num_groups);
        let kept: Vec<usize> = kept_rows(opt_filter, lists.nulls, group_indices.len());
        let ghost offsets = lists.offsets@;
        let ghost all = Seq::new(
            lists.len(),
            |i: int| groups_of_values(offsets, group_indices@, i),
        );
        let ghost mask = kept_mask(opt_filter, lists.nulls, lists.len());
        proof {
            assert(lists.offsets@.len() == lists.offsets.len());
            lemma_selected(all, mask);
        }
        let ghost chosen = selected(all, mask);
        let mut groups: Vec<usize> = Vec::new();
        let mut k: usize = 0;
        assert(chosen.take(0) =~= Seq::<Seq<usize>>::empty());
        while k < kept.len()
            invariant
                0 <= k <= kept@.len(),
                offsets == lists.offsets@,
                ascending(offsets),
                lists.offsets@.len() == lists.offsets.len(),
                lists.len() == group_indices@.len(),
                kept@.len() == chosen.len(),
                forall|k: int|
                    0 <= k < kept@.len() ==> (#[trigger] kept@[k]) < lists.len() && chosen[k]
                        == groups_of_values(offsets, group_indices@, kept@[k] as int)
                        && group_indices@[kept@[k] as int] < total_num_groups,
                forall|i: int|
                    0 <= i < groups@.len() ==> (#[trigger] groups@[i]) < total_num_groups,
                groups@ == concat(chosen.take(k as int)),
            decreases kept@.len() - k,
        {
            let row: usize = kept[k];
            let ghost before = groups@;
            proof {
                assert(0 <= offsets[0] <= offsets[row as int] <= offsets[row + 1]);
                lemma_concat_push(chosen.take(k as int), chosen[k as int]);
                assert(chosen.take(k + 1) =~= chosen.take(k as int).push(chosen[k as int]));
                assert(before + chosen[k as int].take(0) =~= before);
            }
            let len: usize = (lists.offsets[row + 1] - lists.offsets[row]) as usize;
            let group: usize = group_indices[row];
            let mut j: usize = 0;
            while j < len
                invariant
                    0 <= j <= len,
                    group < total_num_groups,
                    0 <= k < chosen.len(),
                    chosen[k as int] == Seq::new(len as nat, |j: int| group),
                    forall|i: int|
                        0 <= i < groups@.len() ==> (#[trigger] groups@[i]) < total_num_groups,
                    groups@ == before + chosen[k as int].take(j as int),
                decreases len - j,
            {
                groups.push(group);
                assert(chosen[k as int].take(j + 1) =~= chosen[k as int].take(j as int).push(group));
                j += 1;
            }
            assert(chosen[k as int].take(j as int) =~= chosen[k as int]);
            k += 1;
        }
        assert(chosen.take(k as int) =~= chosen);
        if groups.len() == 0 {
            // Nothing is kept, or only empty lists.
            assert(numbered(groups@, values) =~= Seq::<(usize, (A, usize))>::empty());
            return;
        }
        self.add_new_batch(values, memory_size, groups.as_slice());
    }

    /// The number of arrays, those that are gone included.
    pub fn num_inputs(&self) -> (num: usize)
        ensures
            num == self.spec_inputs().len(),
    {
        self.inputs.len()
    }

    /// An array, or none if no group uses it any more.
    pub fn input(&self, index: usize) -> (array: Option<&A>)
        requires
            index < self.spec_inputs().len(),
        ensures
            self.spec_inputs()[index as int] == match array {
                Some(array) => Some(*array),
                None => None,
            },
    {
        match &self.inputs[index] {
            Some(input) => Some(&input.array),
            None => None,
        }
    }

    /// Whether these groups exist and lists of their values have 32 bit offsets.
    pub fn can_emit(&self, emit_to: EmitTo) -> (can: bool)
        ensures
            can == emittable(self.groups(), emit_to),
    {
        let n: usize = match emit_to {
            EmitTo::All => self.states.len(),
            EmitTo::First(n) => n,
        };
        if n > self.states.len() {
            return false;
        }
        let ghost lens = lens_of(self.groups().take(n as int));
        let mut left: usize = i32::MAX as usize;
        let mut g: usize = 0;
        assert(lens.take(0) =~= Seq::<int>::empty());
        while g < n
            invariant
                0 <= g <= n <= self.states@.len(),
                n == emit_to.count(self.groups().len()),
                lens == lens_of(self.groups().take(n as int)),
                left == i32::MAX - total(lens.take(g as int)),
            decreases n - g,
        {
            let len: usize = self.states[g].len();
            proof {
                assert(lens.take(g + 1) =~= lens.take(g as int).push(len as int));
                lemma_total_push(lens.take(g as int), len as int);
                lemma_total_part(lens, 0, g + 1);
                assert(lens.subrange(0, g + 1) =~= lens.take(g + 1));
            }
            if len > left {
                return false;
            }
            left -= len;
            g += 1;
        }
        assert(lens.take(n as int) =~= lens);
        true
    }

    /// How to put the groups together that are to be emitted. Changes nothing.
    pub fn build_list(&self, emit_to: EmitTo) -> (plan: ListPlan)
        requires
            self.wf(),
            emittable(self.groups(), emit_to),
        ensures
            ({
                let groups = self.groups().take(emit_to.count(self.groups().len()) as int);
                &&& is_offsets_of(plan.offsets@, lens_of(groups))
                &&& plan.places@.map_values(|place| row_of(self.spec_inputs(), place)) == concat(
                    groups,
                )
            }),
            forall|k: int|
                0 <= k < plan.places@.len() ==> {
                    let place = #[trigger] plan.places@[k];
                    place.0 < self.spec_inputs().len() && self.spec_inputs()[place.0 as int] is Some
                },
    {
        let n: usize = match emit_to {
            EmitTo::All => self.states.len(),
            EmitTo::First(n) => n,
        };
        let ghost groups = self.groups().take(n as int);
        let ghost f = |place| row_of(self.spec_inputs(), place);
        let mut places: Vec<(usize, usize)> = Vec::new();
        let mut lengths: Vec<usize> = Vec::with_capacity(n);
        let mut g: usize = 0;
        assert(groups.take(0) =~= Seq::<Seq<(A, usize)>>::empty());
        assert(places@.map_values(f) =~= Seq::<(A, usize)>::empty());
        while g < n
            invariant
                self.wf(),
                0 <= g <= n <= self.states@.len(),
                groups == self.groups().take(n as int),
                f == (|place| row_of(self.spec_inputs(), place)),
                lengths@.len() == g,
                forall|i: int| 0 <= i < g ==> (#[trigger] lengths@[i]) == groups[i].len(),
                places@.map_values(f) == concat(groups.take(g as int)),
                forall|k: int|
                    0 <= k < places@.len() ==> {
                        let place = #[trigger] places@[k];
                        place.0 < self.spec_inputs().len()
                            && self.spec_inputs()[place.0 as int] is Some
                    },
            decreases n - g,
        {
            let ghost before = places@;
            let state: &Vec<(usize, usize)> = &self.states[g];
            lengths.push(state.len());
            let mut k: usize = 0;
            assert(before + state@.take(0) =~= before);
            while k < state.len()
                invariant
                    0 <= k <= state@.len(),
                    places@ == before + state@.take(k as int),
                decreases state@.len() - k,
            {
                places.push(state[k]);
                assert(state@.take(k + 1) =~= state@.take(k as int).push(state@[k as int]));
                k += 1;
            }
            proof {
                assert(state@.take(k as int) =~= state@);
                lemma_concat_push(groups.take(g as int), groups[g as int]);
                assert(groups.take(g + 1) =~= groups.take(g as int).push(groups[g as int]));
                assert(places@.map_values(f) =~= before.map_values(f) + state@.map_values(f));
                assert forall|k: int| 0 <= k < places@.len() implies ({
                    let place = #[trigger] places@[k];
                    place.0 < self.spec_inputs().len() && self.spec_inputs()[place.0 as int] is Some
                }) by {
                    if k >= before.len() {
                        assert(self.known(g as int, self.states@[g as int]@[k - before.len()]));
                    }
                }
            }
            g += 1;
        }
        proof {
            assert(groups.take(g as int) =~= groups);
            assert(lengths@.map_values(|len: usize| len as int) =~= lens_of(groups));
        }
        ListPlan { offsets: offsets_from_lengths(lengths), places }
    }

    /// Drops the groups that were emitted. The others move up, and the arrays that only emitted
    /// groups used are gone.
    pub fn release(&mut self, emit_to: EmitTo)
        requires
            old(self).wf(),
            emit_to.count(old(self).groups().len()) <= old(self).groups().len(),
        ensures
            final(self).wf(),
            final(self).groups() == old(self).groups().skip(
                emit_to.count(old(self).groups().len()) as int,
            ),
            final(self).spec_inputs().len() == if final(self).groups().len() == 0 {
                0
            } else {
                old(self).spec_inputs().len()
            },
            forall|i: int|
                0 <= i < final(self).spec_inputs().len() ==> {
                    let n = emit_to.count(old(self).groups().len()) as int;
                    (#[trigger] final(self).spec_inputs()[i], final(self).input_sizes()[i])
                        == if old(self).is_needed(n, i) {
                        (old(self).spec_inputs()[i], old(self).input_sizes()[i])
                    } else {
                        (None, 0usize)
                    }
                },
            final(self).groups().len() == 0 ==> final(self).inputs_bytes() == 0,
    {
        let n: usize = match emit_to {
            EmitTo::All => self.states.len(),
            EmitTo::First(n) => n,
        };
        if n == self.states.len() {
            // Nothing is left.
            self.states = Vec::with_capacity(DEFAULT_CAPACITY);
            self.reset_inputs();
            assert(self.groups() =~= old(self).groups().skip(n as int));
            return;
        }
        let ghost before = *self;
        let mut emitted: Vec<Vec<(usize, usize)>> = self.states.split_off(n);
        core::mem::swap(&mut self.states, &mut emitted);
        assert(self.states@ == before.states@.skip(n as int));
        self.reclaim_unused_inputs(n);
        proof {
            assert forall|g: int, k: int|
                0 <= g < self.states@.len() && 0 <= k < self.states@[g]@.len() implies self.known(
                g,
                #[trigger] self.states@[g]@[k],
            ) by {
                assert(before.known(g + n, before.states@[g + n]@[k]));
            }
            assert forall|i: int|
                0 <= i < self.inputs@.len() && (
                #[trigger] self.inputs@[i]) is Some implies self.uses(
                self.inputs@[i]->0.max_group_index as int,
                i,
            ) by {
                assert(before.inputs@[i] is Some);
                let g = before.inputs@[i]->0.max_group_index as int;
                assert(before.uses(g, i));
                let k = choose|k: int|
                    0 <= k < before.states@[g]@.len() && (#[trigger] before.states@[g]@[k]).0 == i;
                assert(self.states@[g - n]@[k].0 == i);
            }
            let rest = before.groups().skip(n as int);
            assert forall|g: int| 0 <= g < rest.len() implies (#[trigger] self.groups()[g])
                =~= rest[g] by {
                assert forall|k: int| 0 <= k < self.states@[g]@.len() implies row_of(
                    self.spec_inputs(),
                    self.states@[g]@[k],
                ) == row_of(before.spec_inputs(), self.states@[g]@[k]) by {
                    assert(before.known(g + n, before.states@[g + n]@[k]));
                }
            }
            assert(self.groups() =~= rest);
            assert forall|i: int| 0 <= i < before.inputs@.len() && before.is_needed(
                n as int,
                i,
            ) implies before.inputs@[i] is Some && before.inputs@[i]->0.max_group_index >= n by {
                let (g, k) = choose|g: int, k: int|
                    n <= g < before.places().len() && 0 <= k < before.places()[g].len() && (
                    #[trigger] before.places()[g][k]).0 == i;
                assert(before.known(g, before.states@[g]@[k]));
            }
            assert forall|i: int|
                0 <= i < before.inputs@.len() && before.inputs@[i] is Some
                    && before.inputs@[i]->0.max_group_index >= n implies #[trigger] before.is_needed(
                n as int,
                i,
            ) by {
                let g = before.inputs@[i]->0.max_group_index as int;
                assert(before.uses(g, i));
                let k = choose|k: int|
                    0 <= k < before.states@[g]@.len() && (#[trigger] before.states@[g]@[k]).0 == i;
                assert(before.places()[g][k].0 == i);
            }
        }
    }

    /// Forgets all arrays.
    fn reset_inputs(&mut self)
        ensures
            final(self).states == old(self).states,
            final(self).inputs@ == Seq::<Option<Input<A>>>::empty(),
            final(self).estimated_inputs_size == 0,
    {
        self.inputs = Vec::with_capacity(DEFAULT_CAPACITY);
        self.estimated_inputs_size = 0;
    }

    /// After the first `n` groups have gone: forgets the arrays that only they used. For the
    /// others, the groups have moved up.
    fn reclaim_unused_inputs(&mut self, n: usize)
        ensures
            final(self).states == old(self).states,
            final(self).estimated_inputs_size == saturated(final(self).inputs_bytes()),
            final(self).inputs@.len() == old(self).inputs@.len(),
            forall|i: int|
                0 <= i < old(self).inputs@.len() ==> match old(self).inputs@[i] {
                    Some(input) => if input.max_group_index < n {
                        (#[trigger] final(self).inputs@[i]) is None
                    } else {
                        final(self).inputs@[i] == Some(
                            Input {
                                max_group_index: (input.max_group_index - n) as usize,
                                ..input
                            },
                        )
                    },
                    None => final(self).inputs@[i] is None,
                },
    {
        let ghost before = self.inputs@;
        let ghost states = self.states;
        let mut inputs: Vec<Option<Input<A>>> = Vec::new();
        core::mem::swap(&mut self.inputs, &mut inputs);
        let mut left: Vec<Option<Input<A>>> = Vec::with_capacity(inputs.len());
        let mut size: usize = 0;
        assert(memory_sizes(left@) =~= Seq::<usize>::empty());
        for input in it: inputs
            invariant
                it.seq() == before,
                self.states == states,
                left@.len() == it.index@,
                size == saturated(sum(memory_sizes(left@))),
                forall|i: int|
                    0 <= i < left@.len() ==> match before[i] {
                        Some(input) => if input.max_group_index < n {
                            (#[trigger] left@[i]) is None
                        } else {
                            left@[i] == Some(
                                Input {
                                    max_group_index: (input.max_group_index - n) as usize,
                                    ..input
                                },
                            )
                        },
                        None => left@[i] is None,
                    },
        {
            let ghost kept = left@;
            match input {
                Some(input) => {
                    if input.max_group_index < n {
                        left.push(None);
                    } else {
                        let max_group_index: usize = input.max_group_index - n;
                        size = size.saturating_add(input.memory_size);
                        left.push(
                            Some(
                                Input {
                                    array: input.array,
                                    memory_size: input.memory_size,
                                    max_group_index,
                                },
                            ),
                        );
                    }
                },
                None => left.push(None),
            }
            assert(memory_sizes(left@).drop_last() =~= memory_sizes(kept));
        }
        self.inputs = left;
        self.estimated_inputs_size = size;
    }

    /// An array is held only as long as a group has a value of it.
    pub proof fn law_inputs_are_used(&self, i: int)
        requires
            self.wf(),
            0 <= i < self.spec_inputs().len(),
            self.spec_inputs()[i] is Some,
        ensures
            exists|g: int, k: int|
                0 <= g < self.groups().len() && 0 <= k < self.groups()[g].len() && (
                #[trigger] self.groups()[g][k]).0 == self.spec_inputs()[i]->0,
    {
        assert(self.inputs@[i] is Some);
        let g = self.inputs@[i]->0.max_group_index as int;
        assert(self.uses(g, i));
        let k = choose|k: int|
            0 <= k < self.states@[g]@.len() && (#[trigger] self.states@[g]@[k]).0 == i;
        assert(self.groups()[g][k].0 == self.spec_inputs()[i]->0);
    }

    /// Bytes that the accumulator takes, or the largest number there is if they are more than
    /// that.
    pub fn size(&self) -> (bytes: usize)
        requires
            self.wf(),
        ensures
            exists|states: usize, lists: Seq<usize>, inputs: usize|
                {
                    &&& #[trigger] covers(
                        states,
                        size_of::<Vec<(usize, usize)>>() * self.groups().len(),
                    )
                    &&& #[trigger] cover(
                        lists,
                        items_bytes(size_of::<(usize, usize)>(), self.groups()),
                    )
                    &&& #[trigger] covers(
                        inputs,
                        size_of::<Option<Input<A>>>() * self.spec_inputs().len(),
                    )
                    &&& bytes == saturated(
                        size_of::<Self>() + states as nat + sum(lists) + inputs as nat
                            + self.inputs_bytes(),
                    )
                },
    {
        let ghost used = items_bytes(size_of::<(usize, usize)>(), self.groups());
        let mut lists: Vec<usize> = Vec::new();
        let mut g: usize = 0;
        while g < self.states.len()
            invariant
                used == items_bytes(size_of::<(usize, usize)>(), self.groups()),
                g == lists@.len() <= self.states@.len(),
                forall|k: int| 0 <= k < g ==> used[k] <= #[trigger] lists@[k] <= isize::MAX,
            decreases self.states@.len() - g,
        {
            lists.push(vec_allocated_size(&self.states[g]));
            g += 1;
        }
        let states: usize = vec_allocated_size(&self.states);
        let inputs: usize = vec_allocated_size(&self.inputs);
        assert(covers(states, size_of::<Vec<(usize, usize)>>() * self.groups().len()));
        assert(cover(lists@, used));
        assert(covers(inputs, size_of::<Option<Input<A>>>() * self.spec_inputs().len()));
        lists_size(
            core::mem::size_of::<Self>(),
            states,
            lists.as_slice(),
            inputs,
            self.estimated_inputs_size,
        )
    }
}

/// Adds up the bytes of lists, up to the largest number there is: of the accumulator itself, of the
/// room for groups, of each group, of the room for arrays, and of the arrays.
pub fn lists_size(
    own: usize,
    states: usize,
    lists: &[usize],
    inputs: usize,
    arrays: usize,
) -> (bytes: usize)
    ensures
        bytes == saturated((own + states + sum(lists@) + inputs + arrays) as nat),
{
    own.saturating_add(states).saturating_add(total_size(lists)).saturating_add(
        inputs,
    ).saturating_add(arrays)
}

/// The group of each value of a list: that of the list.
pub open spec fn groups_of_values(
    offsets: Seq<i32>,
    group_indices: Seq<usize>,
    row: int,
) -> Seq<usize> {
    Seq::new((offsets[row + 1] - offsets[row]) as nat, |j: int| group_indices[row])
}

/// The rows of an array in order, each with its group.
pub open spec fn numbered<A>(groups: Seq<usize>, array: A) -> Seq<(usize, (A, usize))> {
    Seq::new(groups.len(), |k: int| (groups[k], (array, k as usize)))
}

/// The items that are added to a group, in order.
pub open spec fn items_for<T>(added: Seq<(usize, T)>, g: int) -> Seq<T>
    decreases added.len(),
{
    if added.len() == 0 {
        Seq::empty()
    } else if added.last().0 == g {
        items_for(added.drop_last(), g).push(added.last().1)
    } else {
        items_for(added.drop_last(), g)
    }
}

/// After items were added, a group has its items from before and behind them those that were added
/// to it, in the order in which they came.
pub proof fn law_group_keeps_the_order<T>(groups: Seq<Seq<T>>, added: Seq<(usize, T)>, g: int)
    requires
        0 <= g < groups.len(),
        forall|k: int| 0 <= k < added.len() ==> (#[trigger] added[k]).0 < groups.len(),
    ensures
        with_items(groups, added).len() == groups.len(),
        with_items(groups, added)[g] == groups[g] + items_for(added, g),
    decreases added.len(),
{
    if added.len() == 0 {
        assert(groups[g] + items_for(added, g) =~= groups[g]);
    } else {
        let init = added.drop_last();
        assert forall|k: int| 0 <= k < init.len() implies (#[trigger] init[k]).0
            < groups.len() by {
            assert(init[k] == added[k]);
        }
        law_group_keeps_the_order(groups, init, g);
        assert(added[added.len() - 1].0 < groups.len());
        assert(with_items(groups, added)[g] =~= groups[g] + items_for(added, g));
    }
}

/// Adding one batch after another is adding both.
pub proof fn law_batches_can_be_split<T>(
    groups: Seq<Seq<T>>,
    a: Seq<(usize, T)>,
    b: Seq<(usize, T)>,
)
    ensures
        with_items(with_items(groups, a), b) == with_items(groups, a + b),
    decreases b.len(),
{
    if b.len() == 0 {
        assert(a + b =~= a);
    } else {
        law_batches_can_be_split(groups, a, b.drop_last());
        assert((a + b).drop_last() =~= a + b.drop_last());
    }
}

} // verus!
