//! What batches do to the lists of the groups, and what is emitted of them, value by value.

use crate::aggregate::array_agg::{
    emittable, groups_of_values, grown_lists, items_for, law_group_keeps_the_order, numbered,
    row_of, with_items, CollectListGroupsAccumulator, ListPlan,
};
use crate::aggregate::count_distinct::batch_laws::law_selection_keeps_the_order;
use crate::aggregate::count_distinct::batches::ListRows;
use crate::aggregate::count_distinct::collect_set::EmitTo;
use crate::aggregate::count_distinct::helpers::row_filter::{
    is_kept, kept_mask, selected, RowFilter,
};
use crate::aggregate::count_distinct::emit_laws::emitted;
use crate::aggregate::count_distinct::lists::{lemma_concat_len, lens_of};
use crate::blocked_helpers::item_laws::law_offsets_of_lengths;
use crate::blocked_helpers::layout::{concat, lemma_concat_at, lemma_concat_push, sum};
use crate::blocked_helpers::offset_size::{is_offsets_of, lemma_offset_is_total};
use arrow::buffer::NullBuffer;
use vstd::prelude::*;

verus! {

/// The numbers are those, in order, that are less than `len` and of which the group is `g`.
pub open spec fn are_numbers_of(
    numbers: Seq<int>,
    len: nat,
    group_of: spec_fn(int) -> int,
    g: int,
) -> bool {
    &&& forall|j: int|
        0 <= j < numbers.len() ==> 0 <= #[trigger] numbers[j] < len && group_of(numbers[j]) == g
    &&& forall|a: int, b: int|
        0 <= a < b < numbers.len() ==> #[trigger] numbers[a] < #[trigger] numbers[b]
    &&& forall|k: int| 0 <= k < len && #[trigger] group_of(k) == g ==> numbers.contains(k)
}

/// The rows of a batch that count, in order.
pub open spec fn are_counted(
    counted: Seq<int>,
    opt_filter: Option<&RowFilter>,
    nulls: Option<&NullBuffer>,
    len: nat,
) -> bool {
    &&& forall|k: int|
        0 <= k < counted.len() ==> 0 <= #[trigger] counted[k] < len && is_kept(
            opt_filter,
            nulls,
            counted[k],
        )
    &&& forall|a: int, b: int|
        0 <= a < b < counted.len() ==> #[trigger] counted[a] < #[trigger] counted[b]
    &&& forall|i: int|
        0 <= i < len && #[trigger] is_kept(opt_filter, nulls, i) ==> counted.contains(i)
}

proof fn lemma_numbers_of<A>(kept: Seq<usize>, array: A, g: int) -> (numbers: Seq<int>)
    ensures
        are_numbers_of(numbers, kept.len(), |k: int| kept[k] as int, g),
        items_for(numbered(kept, array), g) == Seq::new(
            numbers.len(),
            |j: int| (array, numbers[j] as usize),
        ),
    decreases kept.len(),
{
    let all = numbered(kept, array);
    if kept.len() == 0 {
        let numbers = Seq::<int>::empty();
        assert(items_for(all, g) =~= Seq::new(
            numbers.len(),
            |j: int| (array, numbers[j] as usize),
        ));
        numbers
    } else {
        let n = kept.len() - 1;
        let init = kept.drop_last();
        let before = lemma_numbers_of(init, array, g);
        assert(all.drop_last() =~= numbered(init, array));
        let f = |k: int| kept[k] as int;
        let e = |k: int| init[k] as int;
        if kept[n] == g {
            let numbers = before.push(n);
            assert(items_for(all, g) =~= Seq::new(
                numbers.len(),
                |j: int| (array, numbers[j] as usize),
            ));
            assert forall|j: int| 0 <= j < numbers.len() implies 0 <= #[trigger] numbers[j]
                < kept.len() && f(numbers[j]) == g by {
                if j < before.len() {
                    assert(e(before[j]) == g);
                }
            }
            assert forall|k: int| 0 <= k < kept.len() && #[trigger] f(k)
                == g implies numbers.contains(k) by {
                if k == n {
                    assert(numbers[before.len() as int] == n);
                } else {
                    assert(e(k) == g);
                    let j = choose|j: int| 0 <= j < before.len() && before[j] == k;
                    assert(numbers[j] == k);
                }
            }
            numbers
        } else {
            assert forall|j: int| 0 <= j < before.len() implies 0 <= #[trigger] before[j]
                < kept.len() && f(before[j]) == g by {
                assert(e(before[j]) == g);
            }
            assert forall|k: int| 0 <= k < kept.len() && #[trigger] f(k)
                == g implies before.contains(k) by {
                assert(e(k) == g);
            }
            before
        }
    }
}

/// The numbers of the rows of the array are added behind those of the group.
pub open spec fn is_list_with<A>(
    before: Seq<Seq<(A, usize)>>,
    g: int,
    array: A,
    numbers: Seq<int>,
    after: Seq<(A, usize)>,
) -> bool {
    after == (if g < before.len() {
        before[g]
    } else {
        Seq::empty()
    }) + Seq::new(numbers.len(), |j: int| (array, numbers[j] as usize))
}

/// What is said of the arrays after `len` rows of an array were added.
pub open spec fn has_array_added<A>(
    before: CollectListGroupsAccumulator<A>,
    array: A,
    memory_size: usize,
    len: nat,
    after: CollectListGroupsAccumulator<A>,
) -> bool {
    &&& len == 0 ==> {
        &&& after.spec_inputs() == before.spec_inputs()
        &&& after.input_sizes() == before.input_sizes()
        &&& after.inputs_bytes() == before.inputs_bytes()
    }
    &&& len > 0 ==> {
        &&& after.spec_inputs() == before.spec_inputs().push(Some(array))
        &&& after.input_sizes() == before.input_sizes().push(memory_size)
        &&& after.inputs_bytes() == before.inputs_bytes() + memory_size
    }
}

/// Rows with the given groups are added behind their groups.
proof fn lemma_rows_added<A>(
    before: CollectListGroupsAccumulator<A>,
    kept: Seq<usize>,
    array: A,
    memory_size: usize,
    total: nat,
    after: CollectListGroupsAccumulator<A>,
    g: int,
) -> (numbers: Seq<int>)
    requires
        before.groups().len() <= total,
        forall|k: int| 0 <= k < kept.len() ==> (#[trigger] kept[k]) < total,
        before.added(numbered(kept, array), total, array, memory_size, &after),
        0 <= g < total,
    ensures
        after.groups().len() == total,
        are_numbers_of(numbers, kept.len(), |k: int| kept[k] as int, g),
        is_list_with(before.groups(), g, array, numbers, after.groups()[g]),
        concat(after.groups()).len() == concat(before.groups()).len() + kept.len(),
        has_array_added(before, array, memory_size, kept.len(), after),
{
    let larger = grown_lists(before.groups(), total);
    let added = numbered(kept, array);
    assert forall|k: int| 0 <= k < added.len() implies (#[trigger] added[k]).0 < larger.len() by {
        assert(kept[k] < total);
    }
    law_group_keeps_the_order(larger, added, g);
    let numbers = lemma_numbers_of(kept, array, g);
    lemma_all_items(larger, added);
    lemma_grown_items(before.groups(), total);
    numbers
}

/// With every item that is added there is one item more.
proof fn lemma_all_items<T>(groups: Seq<Seq<T>>, added: Seq<(usize, T)>)
    requires
        forall|k: int| 0 <= k < added.len() ==> (#[trigger] added[k]).0 < groups.len(),
    ensures
        with_items(groups, added).len() == groups.len(),
        concat(with_items(groups, added)).len() == concat(groups).len() + added.len(),
    decreases added.len(),
{
    if added.len() > 0 {
        let init = added.drop_last();
        assert forall|k: int| 0 <= k < init.len() implies (#[trigger] init[k]).0
            < groups.len() by {
            assert(init[k] == added[k]);
        }
        lemma_all_items(groups, init);
        let before = with_items(groups, init);
        let (group, item) = added.last();
        assert(added[added.len() - 1].0 < groups.len());
        let i = group as int;
        let after = before.update(i, before[i].push(item));
        lemma_concat_at(before, i);
        lemma_concat_at(after, i);
        assert(after.take(i) =~= before.take(i));
        assert(after.skip(i + 1) =~= before.skip(i + 1));
    }
}

/// Empty groups have no items.
proof fn lemma_grown_items<T>(groups: Seq<Seq<T>>, total: nat)
    requires
        groups.len() <= total,
    ensures
        concat(grown_lists(groups, total)).len() == concat(groups).len(),
    decreases total - groups.len(),
{
    if groups.len() < total {
        let more = groups.push(Seq::<T>::empty());
        lemma_grown_items(more, total);
        lemma_concat_push(groups, Seq::<T>::empty());
        assert(grown_lists(more, total) =~= grown_lists(groups, total));
    } else {
        assert(grown_lists(groups, total) =~= groups);
    }
}

/// After a batch of rows there are as many groups as asked for. Row `k` of the array is the `k`-th
/// row of the batch that counts; behind the list of a group come, in order, exactly the rows of the
/// array of which the group is that one. All lists together have grown by the rows that count. The
/// array is kept if there are any.
pub proof fn law_rows_go_behind_their_groups<A>(
    before: CollectListGroupsAccumulator<A>,
    array: A,
    memory_size: usize,
    nulls: Option<&NullBuffer>,
    group_indices: Seq<usize>,
    opt_filter: Option<&RowFilter>,
    total: usize,
    after: CollectListGroupsAccumulator<A>,
    g: int,
) -> (found: (Seq<int>, Seq<int>))
    requires
        before.groups().len() <= total,
        forall|i: int|
            0 <= i < group_indices.len() && is_kept(opt_filter, nulls, i) ==> (
            #[trigger] group_indices[i]) < total,
        before.added(
            numbered(
                selected(group_indices, kept_mask(opt_filter, nulls, group_indices.len())),
                array,
            ),
            total as nat,
            array,
            memory_size,
            &after,
        ),
        0 <= g < total,
    ensures
        after.groups().len() == total,
        are_counted(found.0, opt_filter, nulls, group_indices.len()),
        are_numbers_of(
            found.1,
            found.0.len(),
            |k: int| group_indices[found.0[k]] as int,
            g,
        ),
        is_list_with(before.groups(), g, array, found.1, after.groups()[g]),
        concat(after.groups()).len() == concat(before.groups()).len() + found.0.len(),
        has_array_added(before, array, memory_size, found.0.len(), after),
{
    let mask = kept_mask(opt_filter, nulls, group_indices.len());
    let kept = selected(group_indices, mask);
    let counted = law_selection_keeps_the_order(group_indices, mask);
    assert forall|k: int| 0 <= k < kept.len() implies (#[trigger] kept[k]) < total by {
        assert(mask[counted[k]]);
        assert(group_indices[counted[k]] < total);
    }
    assert forall|i: int|
        0 <= i < group_indices.len() && #[trigger] is_kept(
            opt_filter,
            nulls,
            i,
        ) implies counted.contains(i) by {
        assert(mask[i]);
    }
    let numbers = lemma_rows_added(before, kept, array, memory_size, total as nat, after, g);
    let f = |k: int| kept[k] as int;
    let e = |k: int| group_indices[counted[k]] as int;
    assert forall|j: int| 0 <= j < numbers.len() implies 0 <= #[trigger] numbers[j]
        < counted.len() && e(numbers[j]) == g by {
        assert(f(numbers[j]) == g);
        assert(0 <= counted[numbers[j]]);
    }
    assert forall|k: int| 0 <= k < counted.len() && #[trigger] e(k)
        == g implies numbers.contains(k) by {
        assert(0 <= counted[k]);
        assert(f(k) == g);
    }
    (counted, numbers)
}

/// Where the values of each list start among those of the lists that count, and where the last one
/// ends.
pub open spec fn are_starts(starts: Seq<int>, offsets: Seq<i32>, counted: Seq<int>) -> bool {
    &&& starts.len() == counted.len() + 1
    &&& starts[0] == 0
    &&& forall|c: int|
        0 <= c < counted.len() ==> starts[c + 1] - starts[c] == offsets[(#[trigger] counted[c]) + 1]
            - offsets[counted[c]]
}

/// The list that counts that a value comes from.
pub open spec fn is_from_list(starts: Seq<int>, c: int, k: int) -> bool {
    0 <= c < starts.len() - 1 && starts[c] <= k < starts[c + 1]
}

/// After a batch of lists there are as many groups as asked for. The values of the array are those
/// of the lists that count, one list after the other; behind the list of a group come, in order,
/// exactly the values of the lists that go to that group. All lists together have grown by all the
/// values. The array is kept if there are any.
pub proof fn law_values_go_behind_their_groups<A>(
    before: CollectListGroupsAccumulator<A>,
    array: A,
    memory_size: usize,
    lists: ListRows<'_>,
    group_indices: Seq<usize>,
    opt_filter: Option<&RowFilter>,
    total: usize,
    after: CollectListGroupsAccumulator<A>,
    g: int,
) -> (found: (Seq<int>, Seq<int>, Seq<int>))
    requires
        before.groups().len() <= total,
        lists.offsets@.len() > 0,
        forall|i: int, j: int|
            0 <= i <= j < lists.offsets@.len() ==> #[trigger] lists.offsets@[i]
                <= #[trigger] lists.offsets@[j],
        lists.offsets@.len() - 1 == group_indices.len(),
        forall|i: int|
            0 <= i < group_indices.len() && is_kept(opt_filter, lists.nulls, i) ==> (
            #[trigger] group_indices[i]) < total,
        before.added(
            numbered(
                concat(
                    selected(
                        Seq::new(
                            lists.len(),
                            |i: int| groups_of_values(lists.offsets@, group_indices, i),
                        ),
                        kept_mask(opt_filter, lists.nulls, lists.len()),
                    ),
                ),
                array,
            ),
            total as nat,
            array,
            memory_size,
            &after,
        ),
        0 <= g < total,
    ensures
        after.groups().len() == total,
        are_counted(found.0, opt_filter, lists.nulls, group_indices.len()),
        are_starts(found.1, lists.offsets@, found.0),
        forall|j: int|
            0 <= j < found.2.len() ==> goes_to(
                found.0,
                found.1,
                group_indices,
                #[trigger] found.2[j],
                g,
            ),
        forall|a: int, b: int|
            0 <= a < b < found.2.len() ==> #[trigger] found.2[a] < #[trigger] found.2[b],
        forall|k: int|
            #[trigger] goes_to(found.0, found.1, group_indices, k, g) ==> found.2.contains(k),
        is_list_with(before.groups(), g, array, found.2, after.groups()[g]),
        concat(after.groups()).len() == concat(before.groups()).len() + found.1.last(),
        has_array_added(before, array, memory_size, found.1.last() as nat, after),
{
    let offsets = lists.offsets@;
    let all = Seq::new(lists.len(), |i: int| groups_of_values(offsets, group_indices, i));
    let mask = kept_mask(opt_filter, lists.nulls, lists.len());
    let chosen = selected(all, mask);
    let kept = concat(chosen);
    let counted = law_selection_keeps_the_order(all, mask);
    let starts = Seq::new(counted.len() + 1, |c: int| concat(chosen.take(c)).len() as int);
    assert(chosen.take(0) =~= Seq::<Seq<usize>>::empty());
    assert forall|i: int|
        0 <= i < group_indices.len() && #[trigger] is_kept(
            opt_filter,
            lists.nulls,
            i,
        ) implies counted.contains(i) by {
        assert(mask[i]);
    }
    assert forall|c: int| 0 <= c < counted.len() implies starts[c + 1] - starts[c] == offsets[(
    #[trigger] counted[c]) + 1] - offsets[counted[c]] by {
        assert(chosen.take(c + 1) =~= chosen.take(c).push(chosen[c]));
        lemma_concat_push(chosen.take(c), chosen[c]);
        assert(chosen[c] == all[counted[c]]);
        assert(offsets[counted[c]] <= offsets[counted[c] + 1]);
    }
    assert(chosen.take(chosen.len() as int) =~= chosen);
    assert(starts.last() == kept.len());
    assert forall|c: int, k: int| #[trigger] is_from_list(starts, c, k) implies 0 <= k < kept.len()
        && kept[k] == group_indices[counted[c]] by {
        lemma_concat_at(chosen, c);
        assert(chosen.take(c + 1) =~= chosen.take(c).push(chosen[c]));
        lemma_concat_push(chosen.take(c), chosen[c]);
        assert(chosen[c] == all[counted[c]]);
        assert(kept[k] == chosen[c][k - starts[c]]);
    }
    assert forall|k: int| 0 <= k < kept.len() implies (#[trigger] kept[k]) < total by {
        let c = lemma_from_some_list(chosen, starts, k);
        assert(is_from_list(starts, c, k));
        assert(mask[counted[c]]);
        assert(group_indices[counted[c]] < total);
    }
    let numbers = lemma_rows_added(before, kept, array, memory_size, total as nat, after, g);
    let f = |k: int| kept[k] as int;
    assert forall|j: int| 0 <= j < numbers.len() implies goes_to(
        counted,
        starts,
        group_indices,
        #[trigger] numbers[j],
        g,
    ) by {
        let k = numbers[j];
        assert(f(k) == g);
        let c = lemma_from_some_list(chosen, starts, k);
        assert(is_from_list(starts, c, k));
    }
    assert forall|k: int| #[trigger]
        goes_to(counted, starts, group_indices, k, g) implies numbers.contains(k) by {
        let c = choose|c: int| #[trigger]
            is_from_list(starts, c, k) && group_indices[counted[c]] == g;
        assert(f(k) == g);
    }
    (counted, starts, numbers)
}

/// The value comes from a list that goes to the group.
pub open spec fn goes_to(
    counted: Seq<int>,
    starts: Seq<int>,
    group_indices: Seq<usize>,
    k: int,
    g: int,
) -> bool {
    exists|c: int| #[trigger] is_from_list(starts, c, k) && group_indices[counted[c]] == g
}

/// Every value comes from one of the lists.
proof fn lemma_from_some_list<T>(chosen: Seq<Seq<T>>, starts: Seq<int>, k: int) -> (c: int)
    requires
        starts == Seq::new(chosen.len() + 1, |c: int| concat(chosen.take(c)).len() as int),
        0 <= k < concat(chosen).len(),
    ensures
        is_from_list(starts, c, k),
    decreases chosen.len(),
{
    let n = chosen.len() - 1;
    let init = chosen.drop_last();
    assert(chosen.take(n) =~= init);
    assert(chosen.take(n + 1) =~= chosen);
    if k < concat(init).len() {
        let part = starts.drop_last();
        assert forall|c: int| 0 <= c <= n implies (#[trigger] init.take(c)) == chosen.take(c) by {
            assert(init.take(c) =~= chosen.take(c));
        }
        assert(part =~= Seq::new(init.len() + 1, |c: int| concat(init.take(c)).len() as int));
        lemma_from_some_list(init, part, k)
    } else {
        n
    }
}

/// The plan for emitted groups has the places of the values of each, in order, between its offsets.
pub proof fn law_plan_has_the_values<A>(
    accumulator: CollectListGroupsAccumulator<A>,
    emit_to: EmitTo,
    plan: ListPlan,
    g: int,
    j: int,
)
    requires
        emit_to.count(accumulator.groups().len()) <= accumulator.groups().len(),
        is_offsets_of(
            plan.offsets@,
            lens_of(
                accumulator.groups().take(emit_to.count(accumulator.groups().len()) as int),
            ),
        ),
        plan.places@.map_values(|place| row_of(accumulator.spec_inputs(), place)) == concat(
            accumulator.groups().take(emit_to.count(accumulator.groups().len()) as int),
        ),
        0 <= g < emitted(accumulator.groups(), emit_to),
        0 <= j < accumulator.groups()[g].len(),
    ensures
        plan.offsets@.len() == emitted(accumulator.groups(), emit_to) + 1,
        plan.offsets@[0] == 0,
        plan.offsets@.last() == plan.places@.len(),
        plan.offsets@[g + 1] - plan.offsets@[g] == accumulator.groups()[g].len(),
        0 <= plan.offsets@[g] + j < plan.places@.len(),
        ({
            let place = plan.places@[plan.offsets@[g] + j];
            let (array, row) = accumulator.groups()[g][j];
            accumulator.spec_inputs()[place.0 as int]->0 == array && place.1 == row
        }),
{
    let groups = accumulator.groups().take(emit_to.count(accumulator.groups().len()) as int);
    let f = |place| row_of(accumulator.spec_inputs(), place);
    law_offsets_of_lengths(plan.offsets@, lens_of(groups));
    lemma_concat_len(groups);
    assert(lens_of(groups)[g] == groups[g].len());
    lemma_offset_is_total(plan.offsets@, g);
    assert(lens_of(groups).take(g) =~= lens_of(groups.take(g)));
    lemma_concat_len(groups.take(g));
    lemma_concat_at(groups, g);
    let k = plan.offsets@[g] + j;
    assert(concat(groups)[k] == groups[g][j]);
    assert(plan.places@.map_values(f)[k] == f(plan.places@[k]));
}

/// Groups can be emitted if they exist and have no more values together than there are offsets.
pub proof fn law_when_lists_can_be_emitted<T>(groups: Seq<Seq<T>>, emit_to: EmitTo)
    ensures
        emittable(groups, emit_to) <==> emitted(groups, emit_to) <= groups.len() && concat(
            groups.take(emitted(groups, emit_to)),
        ).len() <= 0x7fff_ffff,
{
    let n = emitted(groups, emit_to);
    lemma_concat_len(groups.take(n));
}

/// An array is needed once the first groups are gone if one of the others has a value of it. The
/// arrays take the bytes of each together.
pub proof fn law_needed_arrays<A>(
    accumulator: CollectListGroupsAccumulator<A>,
    n: int,
    i: int,
)
    ensures
        accumulator.is_needed(n, i) <==> exists|g: int, k: int|
            n <= g < accumulator.places().len() && 0 <= k < accumulator.places()[g].len() && (
            #[trigger] accumulator.places()[g][k]).0 == i,
        accumulator.inputs_bytes() == sum(accumulator.input_sizes()),
{
}

} // verus!
