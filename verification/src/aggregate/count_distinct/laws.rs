//! What holds of the accumulators of distinct values as a whole.

use crate::aggregate::count_distinct::batches::ListRows;
use crate::aggregate::count_distinct::bytes_group_accumulator::{
    ByteLists, CollectSetBytesGroupsAccumulator,
};
use crate::aggregate::count_distinct::collect_set::{
    grown, with_values, CollectSetGroups, EmitTo,
};
use crate::aggregate::count_distinct::distinct_value::DistinctValue;
use crate::aggregate::count_distinct::helpers::group_accumulator_unique_values::{
    GetHeapAllocatedSize, GetSizeBytes,
};
use crate::aggregate::count_distinct::helpers::row_filter::{
    is_kept, kept_mask, lemma_selected_all, lemma_selected_are, row_numbers, selected, RowFilter,
};
use crate::aggregate::count_distinct::helpers::track_single_group_unique_indices::is_listing;
use crate::aggregate::count_distinct::lists::{group_sizes, is_lists_of, list_at};
use crate::blocked_helpers::blocked_byte_array_builder::ByteColumn;
use crate::blocked_helpers::layout::{concat, lemma_concat_at};
use crate::blocked_helpers::offset_size::{lemma_valid_offsets, OffsetSize};
use vstd::prelude::*;

verus! {

/// The groups that are added to exist.
pub open spec fn within_groups<M>(groups: Seq<Set<M>>, added: Seq<(usize, M)>) -> bool {
    forall|k: int| 0 <= k < added.len() ==> (#[trigger] added[k]).0 < groups.len()
}

/// After values were added, a group has its values from before and those that were added to it,
/// and no others.
pub proof fn law_group_has_its_values<M>(
    groups: Seq<Set<M>>,
    added: Seq<(usize, M)>,
    g: int,
    value: M,
)
    requires
        within_groups(groups, added),
        0 <= g < groups.len() <= usize::MAX,
    ensures
        with_values(groups, added).len() == groups.len(),
        with_values(groups, added)[g].contains(value) <==> groups[g].contains(value)
            || added.contains((g as usize, value)),
    decreases added.len(),
{
    if added.len() > 0 {
        let init = added.drop_last();
        let (group, last) = added.last();
        assert(within_groups(groups, init)) by {
            assert forall|k: int| 0 <= k < init.len() implies (#[trigger] init[k]).0
                < groups.len() by {
                assert(init[k] == added[k]);
            }
        }
        law_group_has_its_values(groups, init, g, value);
        assert(added[added.len() - 1].0 < groups.len());
        let pair = (g as usize, value);
        assert(added.contains(pair) == (init.contains(pair) || added.last() == pair)) by {
            if init.contains(pair) {
                let k = choose|k: int| 0 <= k < init.len() && init[k] == pair;
                assert(added[k] == pair);
            }
            if added.contains(pair) && added.last() != pair {
                let k = choose|k: int| 0 <= k < added.len() && added[k] == pair;
                assert(init[k] == pair);
            }
            if added.last() == pair {
                assert(added[added.len() - 1] == pair);
            }
        }
    }
}

/// Neither the order in which values are added matters, nor how often, nor how they are split
/// into batches.
pub proof fn law_order_does_not_matter<M>(
    groups: Seq<Set<M>>,
    a: Seq<(usize, M)>,
    b: Seq<(usize, M)>,
)
    requires
        groups.len() <= usize::MAX,
        within_groups(groups, a),
        within_groups(groups, b),
        a.to_set() == b.to_set(),
    ensures
        with_values(groups, a) == with_values(groups, b),
{
    let x = with_values(groups, a);
    let y = with_values(groups, b);
    lemma_len(groups, a);
    lemma_len(groups, b);
    assert forall|g: int| 0 <= g < groups.len() implies x[g] == y[g] by {
        assert forall|value: M| x[g].contains(value) == y[g].contains(value) by {
            law_group_has_its_values(groups, a, g, value);
            law_group_has_its_values(groups, b, g, value);
            assert(a.to_set().contains((g as usize, value)) == a.contains((g as usize, value)));
            assert(b.to_set().contains((g as usize, value)) == b.contains((g as usize, value)));
        }
        assert(x[g] =~= y[g]);
    }
    assert(x =~= y);
}

pub proof fn lemma_len<M>(groups: Seq<Set<M>>, added: Seq<(usize, M)>)
    requires
        within_groups(groups, added),
    ensures
        with_values(groups, added).len() == groups.len(),
    decreases added.len(),
{
    if added.len() > 0 {
        let init = added.drop_last();
        assert forall|k: int| 0 <= k < init.len() implies (#[trigger] init[k]).0
            < groups.len() by {
            assert(init[k] == added[k]);
        }
        lemma_len(groups, init);
        assert(added[added.len() - 1].0 < groups.len());
    }
}

/// Adding one batch after another is adding both.
pub proof fn law_batches_can_be_split<M>(
    groups: Seq<Set<M>>,
    a: Seq<(usize, M)>,
    b: Seq<(usize, M)>,
)
    ensures
        with_values(with_values(groups, a), b) == with_values(groups, a + b),
    decreases b.len(),
{
    if b.len() == 0 {
        assert(a + b =~= a);
    } else {
        law_batches_can_be_split(groups, a, b.drop_last());
        assert((a + b).drop_last() =~= a + b.drop_last());
    }
}

/// Lists of the values of groups, as they are emitted, make the same groups again when they are
/// merged.
pub proof fn law_merging_restores_groups<M>(
    lists: ListRows<'_>,
    values: Seq<M>,
    groups: Seq<Set<M>>,
)
    requires
        groups.len() <= usize::MAX,
        lists.nulls is None,
        is_lists_of(lists.offsets@, values, groups),
    ensures
        with_values(
            grown(Seq::<Set<M>>::empty(), groups.len()),
            concat(
                selected(
                    Seq::new(
                        lists.len(),
                        |i: int| lists.pairs(values, row_numbers(groups.len()), i),
                    ),
                    kept_mask(None, lists.nulls, lists.len()),
                ),
            ),
        ) == groups,
{
    let n = groups.len();
    let offsets = lists.offsets@;
    let all = Seq::new(lists.len(), |i: int| lists.pairs(values, row_numbers(n), i));
    let mask = kept_mask(None, lists.nulls, lists.len());
    let empty = grown(Seq::<Set<M>>::empty(), n);
    assert(group_sizes(groups).len() == n);
    lemma_valid_offsets(offsets);
    lemma_selected_all(all, mask);
    let added = concat(all);
    assert forall|k: int| 0 <= k < added.len() implies (#[trigger] added[k]).0 < n && list_at(
        offsets,
        values,
        added[k].0 as int,
    ).contains(added[k].1) by {
        let i = lemma_in_some_block(all, k);
        let j = choose|j: int| 0 <= j < all[i].len() && all[i][j] == added[k];
        assert(offsets[i] <= offsets[i + 1] <= offsets[offsets.len() - 1]);
        assert(list_at(offsets, values, i)[j] == added[k].1);
    }
    assert(within_groups(empty, added));
    lemma_len(empty, added);
    let after = with_values(empty, added);
    assert forall|g: int| 0 <= g < n implies after[g] == groups[g] by {
        let list = list_at(offsets, values, g);
        assert(is_listing(list, groups[g]));
        assert forall|value: M| after[g].contains(value) == groups[g].contains(value) by {
            law_group_has_its_values(empty, added, g, value);
            let pair = (g as usize, value);
            assert(groups[g].contains(value) == list.contains(value)) by {
                assert(list.to_set().contains(value) == list.contains(value));
            }
            if added.contains(pair) {
                let k = choose|k: int| 0 <= k < added.len() && added[k] == pair;
                assert(list_at(offsets, values, added[k].0 as int).contains(added[k].1));
            }
            if list.contains(value) {
                let j = choose|j: int| 0 <= j < list.len() && list[j] == value;
                assert(offsets[g] <= offsets[g + 1] <= offsets[offsets.len() - 1]);
                assert(all[g][j] == pair);
                lemma_concat_at(all, g);
                assert(added[concat(all.take(g)).len() + j] == pair);
            }
        }
        assert(after[g] =~= groups[g]);
    }
    assert(after =~= groups);
}

/// The `i`-th sets become the next ones when a batch is added, and the groups of the batch exist.
pub open spec fn adds_batch<V: DistinctValue, GetSizeV: GetHeapAllocatedSize<V>>(
    sets: Seq<CollectSetGroups<V, GetSizeV>>,
    batches: Seq<Seq<(usize, V::Model)>>,
    totals: Seq<usize>,
    i: int,
) -> bool {
    &&& sets[i].groups().len() <= totals[i]
    &&& forall|k: int| 0 <= k < batches[i].len() ==> (#[trigger] batches[i][k]).0 < totals[i]
    &&& sets[i].added(batches[i], totals[i] as nat, &sets[i + 1])
}

/// After any batches, a group has exactly the values that one of them added to it.
pub proof fn law_groups_after_batches<V: DistinctValue, GetSizeV: GetHeapAllocatedSize<V>>(
    sets: Seq<CollectSetGroups<V, GetSizeV>>,
    batches: Seq<Seq<(usize, V::Model)>>,
    totals: Seq<usize>,
)
    requires
        sets.len() == batches.len() + 1,
        totals.len() == batches.len(),
        sets[0].groups() == Seq::<Set<V::Model>>::empty(),
        forall|i: int| 0 <= i < batches.len() ==> #[trigger] adds_batch(sets, batches, totals, i),
    ensures
        sets.last().groups().len() == if batches.len() == 0 {
            0
        } else {
            totals.last() as nat
        },
        forall|g: int, value: V::Model|
            0 <= g < sets.last().groups().len() ==> (#[trigger] sets.last().groups()[g].contains(
                value,
            ) <==> is_added(batches, g as usize, value)),
    decreases batches.len(),
{
    if batches.len() > 0 {
        let n = batches.len() - 1;
        let earlier = batches.drop_last();
        assert forall|i: int| 0 <= i < n implies #[trigger] adds_batch(
            sets.drop_last(),
            earlier,
            totals.drop_last(),
            i,
        ) by {
            assert(adds_batch(sets, batches, totals, i));
            assert(sets.drop_last()[i] == sets[i] && sets.drop_last()[i + 1] == sets[i + 1]);
            assert(earlier[i] == batches[i] && totals.drop_last()[i] == totals[i]);
        }
        law_groups_after_batches(sets.drop_last(), earlier, totals.drop_last());
        assert(adds_batch(sets, batches, totals, n));
        assert(sets.drop_last().last() == sets[n]);
        let before = sets[n].groups();
        let batch = batches[n];
        let larger = grown(before, totals[n] as nat);
        assert(within_groups(larger, batch));
        lemma_len(larger, batch);
        assert forall|g: int, value: V::Model|
            0 <= g < sets.last().groups().len() implies (#[trigger] sets.last().groups()[g].contains(
            value,
        ) <==> is_added(batches, g as usize, value)) by {
            law_group_has_its_values(larger, batch, g, value);
            let pair = (g as usize, value);
            if g < before.len() {
                assert(larger[g] == before[g]);
                assert(before[g].contains(value) <==> is_added(earlier, g as usize, value));
            } else {
                lemma_no_such_group(sets.drop_last(), earlier, totals.drop_last(), g, value);
            }
            if is_added(earlier, g as usize, value) {
                let i = choose|i: int|
                    0 <= i < earlier.len() && (#[trigger] earlier[i]).contains(pair);
                assert(batches[i].contains(pair));
            }
            if is_added(batches, g as usize, value) && !batch.contains(pair) {
                let i = choose|i: int|
                    0 <= i < batches.len() && (#[trigger] batches[i]).contains(pair);
                assert(earlier[i].contains(pair));
            }
        }
    }
}

/// One of the batches adds the value to the group.
pub open spec fn is_added<M>(batches: Seq<Seq<(usize, M)>>, group: usize, value: M) -> bool {
    exists|i: int| 0 <= i < batches.len() && (#[trigger] batches[i]).contains((group, value))
}

/// Nothing was added to a group that does not exist.
proof fn lemma_no_such_group<V: DistinctValue, GetSizeV: GetHeapAllocatedSize<V>>(
    sets: Seq<CollectSetGroups<V, GetSizeV>>,
    batches: Seq<Seq<(usize, V::Model)>>,
    totals: Seq<usize>,
    g: int,
    value: V::Model,
)
    requires
        sets.len() == batches.len() + 1,
        totals.len() == batches.len(),
        sets.last().groups().len() <= g <= usize::MAX,
        forall|i: int| 0 <= i < batches.len() ==> #[trigger] adds_batch(sets, batches, totals, i),
    ensures
        !is_added(batches, g as usize, value),
    decreases batches.len(),
{
    if batches.len() > 0 {
        let n = batches.len() - 1;
        assert(adds_batch(sets, batches, totals, n));
        let larger = grown(sets[n].groups(), totals[n] as nat);
        assert(within_groups(larger, batches[n]));
        lemma_len(larger, batches[n]);
        assert forall|i: int| 0 <= i < n implies #[trigger] adds_batch(
            sets.drop_last(),
            batches.drop_last(),
            totals.drop_last(),
            i,
        ) by {
            assert(adds_batch(sets, batches, totals, i));
            assert(sets.drop_last()[i] == sets[i] && sets.drop_last()[i + 1] == sets[i + 1]);
            assert(batches.drop_last()[i] == batches[i] && totals.drop_last()[i] == totals[i]);
        }
        assert(sets.drop_last().last() == sets[n]);
        lemma_no_such_group(
            sets.drop_last(),
            batches.drop_last(),
            totals.drop_last(),
            g,
            value,
        );
        let pair = (g as usize, value);
        if is_added(batches, g as usize, value) {
            let i = choose|i: int|
                0 <= i < batches.len() && (#[trigger] batches[i]).contains(pair);
            if i == n {
                let k = choose|k: int| 0 <= k < batches[n].len() && batches[n][k] == pair;
                assert(batches[n][k].0 < totals[n]);
            } else {
                assert(batches.drop_last()[i].contains(pair));
            }
        }
    }
}

/// After any batches, the list of each group, as all groups are emitted, has each value once that
/// one of the batches added to the group, and no others.
pub proof fn law_lists_have_the_distinct_values<
    V: DistinctValue,
    GetSizeV: GetHeapAllocatedSize<V>,
>(
    sets: Seq<CollectSetGroups<V, GetSizeV>>,
    batches: Seq<Seq<(usize, V::Model)>>,
    totals: Seq<usize>,
    offsets: Seq<i32>,
    values: Seq<V::Model>,
)
    requires
        sets.len() == batches.len() + 1,
        totals.len() == batches.len(),
        sets[0].groups() == Seq::<Set<V::Model>>::empty(),
        forall|i: int| 0 <= i < batches.len() ==> #[trigger] adds_batch(sets, batches, totals, i),
        is_lists_of(
            offsets,
            values,
            sets.last().groups().take(EmitTo::All.count(sets.last().groups().len()) as int),
        ),
    ensures
        offsets.len() == 1 + if batches.len() == 0 {
            0
        } else {
            totals.last() as int
        },
        forall|g: int|
            0 <= g < offsets.len() - 1 ==> (#[trigger] list_at(
                offsets,
                values,
                g,
            )).no_duplicates(),
        forall|g: int, value: V::Model|
            0 <= g < offsets.len() - 1 ==> (#[trigger] list_at(offsets, values, g).contains(
                value,
            ) <==> is_added(batches, g as usize, value)),
{
    let groups = sets.last().groups();
    law_groups_after_batches(sets, batches, totals);
    assert(groups.take(groups.len() as int) =~= groups);
    assert(group_sizes(groups).len() == groups.len());
    assert forall|g: int, value: V::Model|
        0 <= g < offsets.len() - 1 implies (#[trigger] list_at(offsets, values, g).contains(
        value,
    ) <==> is_added(batches, g as usize, value)) by {
        let list = list_at(offsets, values, g);
        assert(is_listing(list, groups[g]));
        assert(list.to_set().contains(value) == list.contains(value));
        assert(groups[g].contains(value) <==> is_added(batches, g as usize, value));
    }
    assert forall|g: int| 0 <= g < offsets.len() - 1 implies (#[trigger] list_at(
        offsets,
        values,
        g,
    )).no_duplicates() by {
        assert(is_listing(list_at(offsets, values, g), groups[g]));
    }
}

/// After any batches, the strings of all groups are emitted as a list for each group. There is no
/// null; the list of a group has each string once that one of the batches added to the group, and
/// no others.
pub proof fn law_lists_have_the_distinct_strings<O: OffsetSize>(
    accumulators: Seq<CollectSetBytesGroupsAccumulator<O>>,
    batches: Seq<Seq<(usize, Seq<u8>)>>,
    totals: Seq<usize>,
    lists: ByteLists<O>,
)
    requires
        accumulators.len() == batches.len() + 1,
        totals.len() == batches.len(),
        accumulators[0].groups() == Seq::<Set<Seq<u8>>>::empty(),
        forall|i: int|
            0 <= i < batches.len() ==> #[trigger] adds_batch(
                sets_of(accumulators),
                batches,
                totals,
                i,
            ),
        lists.lists(
            accumulators.last().groups().take(
                EmitTo::All.count(accumulators.last().groups().len()) as int,
            ),
        ),
    ensures
        lists.values.nulls is None,
        lists.offsets@.len() == 1 + if batches.len() == 0 {
            0
        } else {
            totals.last() as int
        },
        forall|g: int|
            0 <= g < lists.offsets@.len() - 1 ==> (#[trigger] lists.list(g)).no_duplicates(),
        forall|g: int, string: Seq<u8>|
            0 <= g < lists.offsets@.len() - 1 ==> (#[trigger] lists.list(g).contains(string)
                <==> is_added(batches, g as usize, string)),
{
    let sets = sets_of(accumulators);
    assert(sets.last() == accumulators.last().sets());
    law_lists_have_the_distinct_values(
        sets,
        batches,
        totals,
        lists.offsets@,
        lists.values.items(),
    );
    assert forall|g: int, string: Seq<u8>|
        0 <= g < lists.offsets@.len() - 1 implies (#[trigger] lists.list(g).contains(string)
        <==> is_added(batches, g as usize, string)) by {
        assert(list_at(lists.offsets@, lists.values.items(), g).contains(string) <==> is_added(
            batches,
            g as usize,
            string,
        ));
    }
}

/// After one batch of rows, the list of a group has each string once that a row of the group has
/// which is not null and passes the filter, and no others.
pub proof fn law_one_batch_of_strings<O: OffsetSize>(
    fresh: CollectSetBytesGroupsAccumulator<O>,
    column: ByteColumn<'_, O>,
    group_indices: Seq<usize>,
    opt_filter: Option<&RowFilter>,
    total: usize,
    after: CollectSetBytesGroupsAccumulator<O>,
    lists: ByteLists<O>,
)
    requires
        fresh.groups() == Seq::<Set<Seq<u8>>>::empty(),
        column.len() == group_indices.len(),
        forall|i: int|
            0 <= i < group_indices.len() && is_kept(opt_filter, column.nulls, i) ==> (
            #[trigger] group_indices[i]) < total,
        fresh.sets().added(
            selected(
                Seq::new(column.len(), |i: int| (group_indices[i], column.ranges()[i])),
                kept_mask(opt_filter, column.nulls, column.len()),
            ),
            total as nat,
            &after.sets(),
        ),
        lists.lists(after.groups().take(EmitTo::All.count(after.groups().len()) as int)),
    ensures
        lists.values.nulls is None,
        lists.offsets@.len() == total + 1,
        forall|g: int| 0 <= g < total ==> (#[trigger] lists.list(g)).no_duplicates(),
        forall|g: int, string: Seq<u8>|
            0 <= g < total ==> (#[trigger] lists.list(g).contains(string) <==> exists|i: int|
                0 <= i < column.len() && is_kept(opt_filter, column.nulls, i) && group_indices[i]
                    == g && #[trigger] column.ranges()[i] == string),
{
    let pairs = Seq::new(column.len(), |i: int| (group_indices[i], column.ranges()[i]));
    let mask = kept_mask(opt_filter, column.nulls, column.len());
    let batch = selected(pairs, mask);
    let accumulators = seq![fresh, after];
    let batches = seq![batch];
    let totals = seq![total];
    assert forall|k: int| 0 <= k < batch.len() implies (#[trigger] batch[k]).0 < total by {
        assert(batch.contains(batch[k]));
        lemma_selected_are(pairs, mask, batch[k]);
        let i = choose|i: int| 0 <= i < pairs.len() && mask[i] && #[trigger] pairs[i] == batch[k];
        assert(group_indices[i] < total);
    }
    assert(adds_batch(sets_of(accumulators), batches, totals, 0));
    law_lists_have_the_distinct_strings(accumulators, batches, totals, lists);
    assert forall|g: int, string: Seq<u8>|
        0 <= g < total implies (#[trigger] lists.list(g).contains(string) <==> exists|i: int|
        0 <= i < column.len() && is_kept(opt_filter, column.nulls, i) && group_indices[i] == g
            && #[trigger] column.ranges()[i] == string) by {
        law_batch_adds_its_kept_strings(column, group_indices, opt_filter, g as usize, string);
        assert(lists.list(g).contains(string) <==> is_added(batches, g as usize, string));
        if batch.contains((g as usize, string)) {
            assert(batches[0].contains((g as usize, string)));
        }
    }
}

/// The groups of each accumulator with what is kept for them.
pub open spec fn sets_of<O: OffsetSize>(
    accumulators: Seq<CollectSetBytesGroupsAccumulator<O>>,
) -> Seq<CollectSetGroups<Vec<u8>, GetSizeBytes>> {
    Seq::new(accumulators.len(), |i: int| accumulators[i].sets())
}

/// What a batch of rows adds to a group: the strings of the rows of the group that are not null and
/// pass the filter.
pub proof fn law_batch_adds_its_kept_strings<O: OffsetSize>(
    column: ByteColumn<'_, O>,
    group_indices: Seq<usize>,
    opt_filter: Option<&RowFilter>,
    group: usize,
    string: Seq<u8>,
)
    requires
        column.len() == group_indices.len(),
    ensures
        selected(
            Seq::new(column.len(), |i: int| (group_indices[i], column.ranges()[i])),
            kept_mask(opt_filter, column.nulls, column.len()),
        ).contains((group, string)) <==> exists|i: int|
            0 <= i < column.len() && is_kept(opt_filter, column.nulls, i) && group_indices[i]
                == group && #[trigger] column.ranges()[i] == string,
{
    let pairs = Seq::new(column.len(), |i: int| (group_indices[i], column.ranges()[i]));
    let mask = kept_mask(opt_filter, column.nulls, column.len());
    lemma_selected_are(pairs, mask, (group, string));
    if selected(pairs, mask).contains((group, string)) {
        let i = choose|i: int|
            0 <= i < pairs.len() && mask[i] && #[trigger] pairs[i] == (group, string);
        assert(column.ranges()[i] == string);
    }
    if exists|i: int|
        0 <= i < column.len() && is_kept(opt_filter, column.nulls, i) && group_indices[i] == group
            && #[trigger] column.ranges()[i] == string {
        let i = choose|i: int|
            0 <= i < column.len() && is_kept(opt_filter, column.nulls, i) && group_indices[i]
                == group && #[trigger] column.ranges()[i] == string;
        assert(pairs[i] == (group, string));
    }
}

/// Every item comes from one of the lists.
pub proof fn lemma_in_some_block<T>(blocks: Seq<Seq<T>>, k: int) -> (i: int)
    requires
        0 <= k < concat(blocks).len(),
    ensures
        0 <= i < blocks.len(),
        blocks[i].contains(concat(blocks)[k]),
    decreases blocks.len(),
{
    let init = concat(blocks.drop_last());
    if k < init.len() {
        lemma_in_some_block(blocks.drop_last(), k)
    } else {
        assert(blocks.last()[k - init.len()] == concat(blocks)[k]);
        blocks.len() - 1
    }
}

} // verus!
