//! What the accumulators of distinct values share.

pub mod group_accumulator_unique_values;
pub mod row_filter;
pub mod track_single_group_unique_indices;

use crate::aggregate::count_distinct::helpers::row_filter::{is_kept, RowFilter};
use crate::arrow_buffers::{
    and_booleans, boolean_values, clone_booleans, lemma_no_nulls, null_count, same_bits, validity,
    validity_bits,
};
use arrow::buffer::{BooleanBuffer, NullBuffer};
use vstd::prelude::*;

verus! {

/// A mask of the rows that are not null and that pass the filter, if there is one.
pub fn merge_filter_and_null_removal(
    opt_filter: Option<&RowFilter>,
    nulls: Option<&NullBuffer>,
) -> (mask: BooleanBuffer)
    requires
        opt_filter is Some || nulls is Some,
        opt_filter matches Some(filter) ==> filter.wf(),
        opt_filter is Some && nulls is Some ==> opt_filter->0.len() == validity(*nulls->0).len(),
    ensures
        boolean_values(mask).len() == match opt_filter {
            Some(filter) => filter.len(),
            None => validity(*nulls->0).len(),
        },
        forall|row: int|
            0 <= row < boolean_values(mask).len() ==> (#[trigger] boolean_values(mask)[row])
                == is_kept(opt_filter, nulls, row),
{
    let passing: Option<BooleanBuffer> = match opt_filter {
        Some(filter) => match &filter.nulls {
            Some(filter_nulls) => {
                if null_count(filter_nulls) > 0 {
                    // What is behind a null does not pass.
                    Some(and_booleans(&filter.values, validity_bits(filter_nulls)))
                } else {
                    proof {
                        lemma_no_nulls(validity(*filter_nulls));
                        assert forall|row: int| 0 <= row < filter.len() implies filter.passes(row)
                            == #[trigger] boolean_values(filter.values)[row] by {
                            assert(same_bits(true, filter.len())[row]);
                        }
                    }
                    Some(clone_booleans(&filter.values))
                }
            },
            None => Some(clone_booleans(&filter.values)),
        },
        None => None,
    };
    match passing {
        Some(passing) => match nulls {
            Some(nulls) => and_booleans(&passing, validity_bits(nulls)),
            None => passing,
        },
        None => clone_booleans(validity_bits(nulls.unwrap())),
    }
}

/// Adds default states until there is one for each of the `total_num_groups` groups.
pub fn make_accumulators_if_needed<T: Default>(states: &mut Vec<T>, total_num_groups: usize)
    requires
        total_num_groups >= old(states)@.len(),
    ensures
        final(states)@.len() == total_num_groups,
        final(states)@.take(old(states)@.len() as int) == old(states)@,
        forall|i: int|
            old(states)@.len() <= i < total_num_groups ==> call_ensures(
                <T as Default>::default,
                (),
                #[trigger] final(states)@[i],
            ),
{
    let ghost before = states@;
    while states.len() < total_num_groups
        invariant
            before.len() <= states@.len() <= total_num_groups,
            states@.take(before.len() as int) == before,
            forall|i: int|
                before.len() <= i < states@.len() ==> call_ensures(
                    <T as Default>::default,
                    (),
                    #[trigger] states@[i],
                ),
        decreases total_num_groups - states@.len(),
    {
        states.push(<T as Default>::default());
        assert(states@.take(before.len() as int) =~= before);
    }
}

} // verus!
