//! What a batch of rows or of lists does to the groups, row by row.

use crate::aggregate::count_distinct::batches::ListRows;
use crate::aggregate::count_distinct::collect_set::{grown, CollectSetGroups};
use crate::aggregate::count_distinct::distinct_value::DistinctValue;
use crate::aggregate::count_distinct::helpers::group_accumulator_unique_values::GetHeapAllocatedSize;
use crate::aggregate::count_distinct::helpers::row_filter::{
    is_kept, kept_mask, lemma_selected_are, row_numbers, selected, RowFilter,
};
use crate::aggregate::count_distinct::laws::{
    law_group_has_its_values, lemma_in_some_block, lemma_len, within_groups,
};
use crate::arrow_buffers::{boolean_values, validity};
use crate::blocked_helpers::layout::{concat, lemma_concat_at};
use arrow::buffer::NullBuffer;
use vstd::prelude::*;

verus! {

/// A row counts if the filter, where there is one, is true and not null for it, and if it is not
/// null itself.
pub proof fn law_row_counts(opt_filter: Option<&RowFilter>, nulls: Option<&NullBuffer>, row: int)
    ensures
        is_kept(opt_filter, nulls, row) <==> {
            &&& match opt_filter {
                Some(filter) => boolean_values(filter.values)[row] && match filter.nulls {
                    Some(filter_nulls) => validity(filter_nulls)[row],
                    None => true,
                },
                None => true,
            }
            &&& match nulls {
                Some(nulls) => validity(*nulls)[row],
                None => true,
            }
        },
{
}

/// A filter has as many rows as it has values.
pub proof fn law_rows_of_a_filter(filter: RowFilter)
    ensures
        filter.len() == boolean_values(filter.values).len(),
{
}

/// The mask of a batch has a bit for each row, which is set if the row counts.
pub proof fn law_mask_has_a_bit_for_each_row(
    opt_filter: Option<&RowFilter>,
    nulls: Option<&NullBuffer>,
    len: nat,
)
    ensures
        kept_mask(opt_filter, nulls, len).len() == len,
        forall|row: int|
            0 <= row < len ==> (#[trigger] kept_mask(opt_filter, nulls, len)[row]) == is_kept(
                opt_filter,
                nulls,
                row,
            ),
{
}

/// The items that a mask selects are those at certain places, in order: at exactly those whose bit
/// is set.
pub proof fn law_selection_keeps_the_order<T>(items: Seq<T>, mask: Seq<bool>) -> (places: Seq<int>)
    ensures
        places.len() == selected(items, mask).len(),
        forall|k: int|
            0 <= k < places.len() ==> 0 <= #[trigger] places[k] < items.len() && mask[places[k]]
                && selected(items, mask)[k] == items[places[k]],
        forall|a: int, b: int|
            0 <= a < b < places.len() ==> #[trigger] places[a] < #[trigger] places[b],
        forall|i: int| 0 <= i < items.len() && #[trigger] mask[i] ==> places.contains(i),
    decreases items.len(),
{
    if items.len() == 0 {
        Seq::empty()
    } else {
        let n = items.len() - 1;
        let init = items.drop_last();
        let before = law_selection_keeps_the_order(init, mask);
        if mask[n] {
            let places = before.push(n);
            assert forall|i: int| 0 <= i < items.len() && #[trigger] mask[i] implies places.contains(
                i,
            ) by {
                if i == n {
                    assert(places[before.len() as int] == n);
                } else {
                    assert(before.contains(i));
                    let k = choose|k: int| 0 <= k < before.len() && before[k] == i;
                    assert(places[k] == i);
                }
            }
            places
        } else {
            before
        }
    }
}

/// The rows of a batch that count, in order, each once.
pub proof fn law_rows_that_count(
    opt_filter: Option<&RowFilter>,
    nulls: Option<&NullBuffer>,
    len: nat,
    rows: Seq<usize>,
)
    requires
        len <= usize::MAX,
        rows == selected(row_numbers(len), kept_mask(opt_filter, nulls, len)),
    ensures
        forall|k: int|
            0 <= k < rows.len() ==> (#[trigger] rows[k]) < len && is_kept(
                opt_filter,
                nulls,
                rows[k] as int,
            ),
        forall|a: int, b: int|
            0 <= a < b < rows.len() ==> #[trigger] rows[a] < #[trigger] rows[b],
        forall|i: usize|
            i < len && is_kept(opt_filter, nulls, i as int) ==> #[trigger] rows.contains(i),
{
    let numbers = row_numbers(len);
    let mask = kept_mask(opt_filter, nulls, len);
    let places = law_selection_keeps_the_order(numbers, mask);
    assert forall|k: int| 0 <= k < rows.len() implies (#[trigger] rows[k]) == places[k] by {
        assert(0 <= places[k] < numbers.len());
    }
    assert forall|i: usize| i < len && is_kept(opt_filter, nulls, i as int) implies #[trigger]
        rows.contains(i) by {
        assert(mask[i as int]);
        assert(places.contains(i as int));
        let k = choose|k: int| 0 <= k < places.len() && places[k] == i;
        assert(rows[k] == i);
    }
}

/// After a batch of rows there are as many groups as asked for, and a group has a value if it had it
/// before, or if a row of the batch that counts is of the group and has the value.
pub proof fn law_rows_go_to_their_groups<V: DistinctValue, GetSizeV: GetHeapAllocatedSize<V>>(
    before: CollectSetGroups<V, GetSizeV>,
    values: Seq<V::Model>,
    nulls: Option<&NullBuffer>,
    group_indices: Seq<usize>,
    opt_filter: Option<&RowFilter>,
    total: usize,
    after: CollectSetGroups<V, GetSizeV>,
)
    requires
        before.groups().len() <= total,
        values.len() == group_indices.len(),
        forall|i: int|
            0 <= i < group_indices.len() && is_kept(opt_filter, nulls, i) ==> (
            #[trigger] group_indices[i]) < total,
        before.added(
            selected(
                Seq::new(group_indices.len(), |i: int| (group_indices[i], values[i])),
                kept_mask(opt_filter, nulls, group_indices.len()),
            ),
            total as nat,
            &after,
        ),
    ensures
        after.groups().len() == total,
        forall|g: int, value: V::Model|
            0 <= g < total ==> (#[trigger] after.groups()[g].contains(value) <==> (g
                < before.groups().len() && before.groups()[g].contains(value)) || exists|i: int|
                0 <= i < group_indices.len() && is_kept(opt_filter, nulls, i) && group_indices[i]
                    == g && #[trigger] values[i] == value),
{
    let pairs = Seq::new(group_indices.len(), |i: int| (group_indices[i], values[i]));
    let mask = kept_mask(opt_filter, nulls, group_indices.len());
    let added = selected(pairs, mask);
    let larger = grown(before.groups(), total as nat);
    assert forall|k: int| 0 <= k < added.len() implies (#[trigger] added[k]).0 < larger.len() by {
        assert(added.contains(added[k]));
        lemma_selected_are(pairs, mask, added[k]);
        let i = choose|i: int| 0 <= i < pairs.len() && mask[i] && #[trigger] pairs[i] == added[k];
        assert(group_indices[i] < total);
    }
    assert(within_groups(larger, added));
    lemma_len(larger, added);
    assert forall|g: int, value: V::Model|
        0 <= g < total implies (#[trigger] after.groups()[g].contains(value) <==> (g
        < before.groups().len() && before.groups()[g].contains(value)) || exists|i: int|
        0 <= i < group_indices.len() && is_kept(opt_filter, nulls, i) && group_indices[i] == g
            && #[trigger] values[i] == value) by {
        let pair = (g as usize, value);
        law_group_has_its_values(larger, added, g, value);
        lemma_selected_are(pairs, mask, pair);
        if added.contains(pair) {
            let i = choose|i: int| 0 <= i < pairs.len() && mask[i] && #[trigger] pairs[i] == pair;
            assert(values[i] == value);
        }
        if exists|i: int|
            0 <= i < group_indices.len() && is_kept(opt_filter, nulls, i) && group_indices[i] == g
                && #[trigger] values[i] == value {
            let i = choose|i: int|
                0 <= i < group_indices.len() && is_kept(opt_filter, nulls, i) && group_indices[i]
                    == g && #[trigger] values[i] == value;
            assert(pairs[i] == pair);
        }
    }
}

/// Whether a list that counts goes to the group and has the value at one of its places.
pub open spec fn is_in_a_list<M>(
    lists: ListRows<'_>,
    values: Seq<M>,
    group_indices: Seq<usize>,
    opt_filter: Option<&RowFilter>,
    g: int,
    value: M,
) -> bool {
    exists|i: int, j: int|
        0 <= i < lists.offsets@.len() - 1 && is_kept(opt_filter, lists.nulls, i)
            && #[trigger] group_indices[i] == g && lists.offsets@[i] <= j < lists.offsets@[i + 1]
            && #[trigger] values[j] == value
}

/// After a batch of lists there are as many groups as asked for, and a group has a value if it had
/// it before, or if a list that counts goes to the group and has the value anywhere from its first
/// offset up to the next one.
pub proof fn law_lists_go_to_their_groups<V: DistinctValue, GetSizeV: GetHeapAllocatedSize<V>>(
    before: CollectSetGroups<V, GetSizeV>,
    values: Seq<V::Model>,
    lists: ListRows<'_>,
    group_indices: Seq<usize>,
    opt_filter: Option<&RowFilter>,
    total: usize,
    after: CollectSetGroups<V, GetSizeV>,
)
    requires
        before.groups().len() <= total,
        lists.offsets@.len() > 0,
        lists.offsets@[0] >= 0,
        forall|i: int, j: int|
            0 <= i <= j < lists.offsets@.len() ==> #[trigger] lists.offsets@[i]
                <= #[trigger] lists.offsets@[j],
        lists.offsets@.last() <= values.len(),
        lists.offsets@.len() - 1 == group_indices.len(),
        forall|i: int|
            0 <= i < group_indices.len() && is_kept(opt_filter, lists.nulls, i) ==> (
            #[trigger] group_indices[i]) < total,
        before.added(
            concat(
                selected(
                    Seq::new(lists.len(), |i: int| lists.pairs(values, group_indices, i)),
                    kept_mask(opt_filter, lists.nulls, lists.len()),
                ),
            ),
            total as nat,
            &after,
        ),
    ensures
        after.groups().len() == total,
        forall|g: int, value: V::Model|
            0 <= g < total ==> (#[trigger] after.groups()[g].contains(value) <==> (g
                < before.groups().len() && before.groups()[g].contains(value)) || is_in_a_list(
                lists,
                values,
                group_indices,
                opt_filter,
                g,
                value,
            )),
{
    let all = Seq::new(lists.len(), |i: int| lists.pairs(values, group_indices, i));
    let mask = kept_mask(opt_filter, lists.nulls, lists.len());
    let chosen = selected(all, mask);
    let added = concat(chosen);
    let larger = grown(before.groups(), total as nat);
    assert forall|k: int| 0 <= k < added.len() implies {
        &&& (#[trigger] added[k]).0 < total
        &&& is_in_a_list(
            lists,
            values,
            group_indices,
            opt_filter,
            added[k].0 as int,
            added[k].1,
        )
    } by {
        let c = lemma_in_some_block(chosen, k);
        assert(chosen.contains(chosen[c]));
        lemma_selected_are(all, mask, chosen[c]);
        let i = choose|i: int| 0 <= i < all.len() && mask[i] && #[trigger] all[i] == chosen[c];
        let j = choose|j: int| 0 <= j < all[i].len() && all[i][j] == added[k];
        assert(lists.offsets@[i] <= lists.offsets@[i + 1]);
        assert(group_indices[i] == added[k].0 && group_indices[i] < total);
        assert(values[lists.offsets@[i] + j] == added[k].1);
    }
    assert(within_groups(larger, added));
    lemma_len(larger, added);
    assert forall|g: int, value: V::Model|
        0 <= g < total implies (#[trigger] after.groups()[g].contains(value) <==> (g
        < before.groups().len() && before.groups()[g].contains(value)) || is_in_a_list(
        lists,
        values,
        group_indices,
        opt_filter,
        g,
        value,
    )) by {
        let pair = (g as usize, value);
        law_group_has_its_values(larger, added, g, value);
        if added.contains(pair) {
            let k = choose|k: int| 0 <= k < added.len() && added[k] == pair;
            assert(is_in_a_list(
                lists,
                values,
                group_indices,
                opt_filter,
                added[k].0 as int,
                added[k].1,
            ));
        }
        if is_in_a_list(lists, values, group_indices, opt_filter, g, value) {
            let (i, j) = choose|i: int, j: int|
                0 <= i < lists.offsets@.len() - 1 && is_kept(opt_filter, lists.nulls, i)
                    && #[trigger] group_indices[i] == g && lists.offsets@[i] <= j
                    < lists.offsets@[i + 1] && #[trigger] values[j] == value;
            assert(all[i][j - lists.offsets@[i]] == pair);
            lemma_selected_are(all, mask, all[i]);
            assert(chosen.contains(all[i]));
            let c = choose|c: int| 0 <= c < chosen.len() && chosen[c] == all[i];
            lemma_concat_at(chosen, c);
            assert(added[concat(chosen.take(c)).len() + (j - lists.offsets@[i])] == pair);
        }
    }
}

/// A list is refused if there is a null at one of its places.
pub proof fn law_nulls_in_lists(lists: ListRows<'_>, row: int)
    ensures
        lists.len() == lists.offsets@.len() - 1 || lists.offsets@.len() == 0,
        lists.has_null(row) <==> lists.value_nulls is Some && exists|j: int|
            lists.offsets@[row] <= j < lists.offsets@[row + 1] && !#[trigger] validity(
                *lists.value_nulls->0,
            )[j],
{
}

/// Where nothing is added, the groups are as they were, with empty ones behind them.
pub proof fn law_nothing_is_added<V: DistinctValue, GetSizeV: GetHeapAllocatedSize<V>>(
    before: CollectSetGroups<V, GetSizeV>,
    total: usize,
    after: CollectSetGroups<V, GetSizeV>,
)
    requires
        before.groups().len() <= total,
        before.added(Seq::empty(), total as nat, &after),
    ensures
        after.groups().len() == total,
        forall|g: int|
            0 <= g < total ==> (#[trigger] after.groups()[g]) == if g < before.groups().len() {
                before.groups()[g]
            } else {
                Set::empty()
            },
        after.accounted_capacities() == before.accounted_capacities(),
{
}

} // verus!
