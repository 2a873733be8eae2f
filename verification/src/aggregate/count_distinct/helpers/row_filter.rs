//! Which rows of a batch count.

use crate::arrow_buffers::{
    boolean_at, boolean_len, boolean_values, lemma_no_nulls, null_count, same_bits, validity,
};
use crate::aggregate::count_distinct::helpers::merge_filter_and_null_removal;
use arrow::buffer::{BooleanBuffer, NullBuffer};
use vstd::prelude::*;

verus! {

/// A filter on rows: a row passes where its value is true and not null.
pub struct RowFilter {
    pub values: BooleanBuffer,
    pub nulls: Option<NullBuffer>,
}

impl RowFilter {
    /// The number of rows.
    pub open spec fn len(&self) -> nat {
        boolean_values(self.values).len()
    }

    pub open spec fn wf(&self) -> bool {
        self.nulls matches Some(nulls) ==> validity(nulls).len() == self.len()
    }

    /// Whether a row passes.
    pub open spec fn passes(&self, row: int) -> bool {
        boolean_values(self.values)[row] && (self.nulls matches Some(nulls) ==> validity(
            nulls,
        )[row])
    }
}

/// The filter and the nulls are those of a batch of `len` rows.
pub open spec fn fits_batch(
    opt_filter: Option<&RowFilter>,
    nulls: Option<&NullBuffer>,
    len: nat,
) -> bool {
    &&& opt_filter matches Some(filter) ==> filter.wf() && filter.len() == len
    &&& nulls matches Some(nulls) ==> validity(*nulls).len() == len
}

/// Whether a row passes the filter, if there is one, and is not null.
pub open spec fn is_kept(
    opt_filter: Option<&RowFilter>,
    nulls: Option<&NullBuffer>,
    row: int,
) -> bool {
    &&& opt_filter matches Some(filter) ==> filter.passes(row)
    &&& nulls matches Some(nulls) ==> validity(*nulls)[row]
}

/// For each of `len` rows, whether it passes the filter and is not null.
pub open spec fn kept_mask(
    opt_filter: Option<&RowFilter>,
    nulls: Option<&NullBuffer>,
    len: nat,
) -> Seq<bool> {
    Seq::new(len, |row: int| is_kept(opt_filter, nulls, row))
}

/// The items whose bit is set, in order.
pub open spec fn selected<T>(items: Seq<T>, mask: Seq<bool>) -> Seq<T>
    decreases items.len(),
{
    if items.len() == 0 {
        Seq::empty()
    } else {
        let before = selected(items.drop_last(), mask);
        if mask[items.len() - 1] {
            before.push(items.last())
        } else {
            before
        }
    }
}

/// The rows' numbers.
pub open spec fn row_numbers(len: nat) -> Seq<usize> {
    Seq::new(len, |i: int| i as usize)
}

/// Selecting the numbers of rows and looking up an item for each is selecting the items.
pub proof fn lemma_selected<T>(items: Seq<T>, mask: Seq<bool>)
    requires
        items.len() <= usize::MAX,
    ensures
        selected(items, mask) == selected(row_numbers(items.len()), mask).map_values(
            |row: usize| items[row as int],
        ),
        forall|k: int|
            0 <= k < selected(row_numbers(items.len()), mask).len() ==> {
                let row = #[trigger] selected(row_numbers(items.len()), mask)[k];
                row < items.len() && mask[row as int]
            },
    decreases items.len(),
{
    let rows = row_numbers(items.len());
    let chosen = selected(rows, mask);
    let f = |row: usize| items[row as int];
    if items.len() == 0 {
        assert(chosen.map_values(f) =~= Seq::<T>::empty());
    } else {
        let n = (items.len() - 1) as nat;
        assert(rows.drop_last() =~= row_numbers(n));
        lemma_selected(items.drop_last(), mask);
        let before = selected(row_numbers(n), mask);
        assert(selected(items, mask) =~= chosen.map_values(f)) by {
            assert forall|k: int| 0 <= k < before.len() implies items.drop_last()[before[k] as int]
                == items[before[k] as int] by {}
        }
    }
}

/// Exactly the items whose bit is set are among those selected.
pub proof fn lemma_selected_are<T>(items: Seq<T>, mask: Seq<bool>, item: T)
    ensures
        selected(items, mask).contains(item) <==> exists|i: int|
            0 <= i < items.len() && mask[i] && #[trigger] items[i] == item,
    decreases items.len(),
{
    if items.len() > 0 {
        let init = items.drop_last();
        let before = selected(init, mask);
        let after = selected(items, mask);
        lemma_selected_are(init, mask, item);
        if after.contains(item) {
            let k = choose|k: int| 0 <= k < after.len() && after[k] == item;
            if k < before.len() {
                assert(before[k] == item);
                let i = choose|i: int|
                    0 <= i < init.len() && mask[i] && #[trigger] init[i] == item;
                assert(items[i] == item);
            } else {
                assert(items[items.len() - 1] == item);
            }
        }
        if exists|i: int| 0 <= i < items.len() && mask[i] && #[trigger] items[i] == item {
            let i = choose|i: int| 0 <= i < items.len() && mask[i] && #[trigger] items[i] == item;
            lemma_selects(items, mask, i);
        }
    }
}

/// An item whose bit is set is among those selected.
pub proof fn lemma_selects<T>(items: Seq<T>, mask: Seq<bool>, i: int)
    requires
        0 <= i < items.len(),
        mask[i],
    ensures
        selected(items, mask).contains(items[i]),
    decreases items.len(),
{
    let before = selected(items.drop_last(), mask);
    if i == items.len() - 1 {
        assert(selected(items, mask).last() == items[i]);
    } else {
        lemma_selects(items.drop_last(), mask, i);
        let k = choose|k: int| 0 <= k < before.len() && before[k] == items[i];
        assert(selected(items, mask)[k] == items[i]);
    }
}

/// Where every row is kept, all of them are.
pub proof fn lemma_selected_all<T>(items: Seq<T>, mask: Seq<bool>)
    requires
        mask.len() >= items.len(),
        forall|i: int| 0 <= i < items.len() ==> #[trigger] mask[i],
    ensures
        selected(items, mask) == items,
    decreases items.len(),
{
    if items.len() > 0 {
        assert forall|i: int| 0 <= i < items.len() - 1 implies #[trigger] mask[i] by {}
        lemma_selected_all(items.drop_last(), mask);
        assert(items.drop_last().push(items.last()) =~= items);
    }
}

/// The numbers of the rows that a mask selects.
fn selected_rows(mask: &BooleanBuffer) -> (rows: Vec<usize>)
    ensures
        rows@ == selected(row_numbers(boolean_values(*mask).len()), boolean_values(*mask)),
{
    let len: usize = boolean_len(mask);
    let ghost bits = boolean_values(*mask);
    let mut rows: Vec<usize> = Vec::new();
    let mut row: usize = 0;
    assert(row_numbers(0) =~= Seq::<usize>::empty());
    while row < len
        invariant
            0 <= row <= len,
            bits == boolean_values(*mask),
            bits.len() == len,
            rows@ == selected(row_numbers(row as nat), bits),
        decreases len - row,
    {
        proof {
            let next = row_numbers((row + 1) as nat);
            assert(next.drop_last() =~= row_numbers(row as nat));
            assert(next.last() == row);
        }
        if boolean_at(mask, row) {
            rows.push(row);
        }
        row += 1;
    }
    rows
}

/// The numbers of the rows of a batch that pass the filter and are not null.
pub fn kept_rows(
    opt_filter: Option<&RowFilter>,
    nulls: Option<&NullBuffer>,
    len: usize,
) -> (rows: Vec<usize>)
    requires
        fits_batch(opt_filter, nulls, len as nat),
    ensures
        rows@ == selected(
            row_numbers(len as nat),
            kept_mask(opt_filter, nulls, len as nat),
        ),
{
    let count: usize = match nulls {
        Some(nulls) => null_count(nulls),
        None => 0,
    };
    if opt_filter.is_none() && count == 0 {
        let mut rows: Vec<usize> = Vec::with_capacity(len);
        let mut row: usize = 0;
        while row < len
            invariant
                0 <= row <= len,
                rows@ == row_numbers(row as nat),
            decreases len - row,
        {
            rows.push(row);
            row += 1;
            assert(rows@ =~= row_numbers(row as nat));
        }
        proof {
            let mask = kept_mask(opt_filter, nulls, len as nat);
            if let Some(nulls) = nulls {
                lemma_no_nulls(validity(*nulls));
            }
            assert forall|i: int| 0 <= i < rows@.len() implies #[trigger] mask[i] by {
                if let Some(nulls) = nulls {
                    assert(same_bits(true, len as nat)[i]);
                }
            }
            lemma_selected_all(rows@, mask);
        }
        return rows;
    }
    let mask: BooleanBuffer = merge_filter_and_null_removal(opt_filter, nulls);
    assert(boolean_values(mask) =~= kept_mask(opt_filter, nulls, len as nat));
    selected_rows(&mask)
}

} // verus!
