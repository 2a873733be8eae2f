use arrow::buffer::{BooleanBuffer, NullBuffer};
use blocked_groups::aggregate::array_agg::CollectListGroupsAccumulator;
use blocked_groups::aggregate::count_distinct::batches::ListRows;
use blocked_groups::aggregate::count_distinct::collect_set::{AccumulatorState, EmitTo};
use blocked_groups::aggregate::count_distinct::helpers::group_accumulator_unique_values::{
    CollectSetGroupAccumulatorValues, GetHeapAllocatedSize, GetSizeBytes, OnlyOnStackSize,
};
use blocked_groups::aggregate::count_distinct::helpers::make_accumulators_if_needed;
use blocked_groups::aggregate::count_distinct::helpers::row_filter::RowFilter;
use blocked_groups::aggregate::count_distinct::helpers::track_single_group_unique_indices::SingleGroupUniqueIndices;
use blocked_groups::aggregate::ordered_groups_accumulator::{
    states_to_columns, AllocationBytes, VecAllocExt,
};
use blocked_groups::aggregate::prim_op::{
    PrimitiveOp, PrimitiveOrderedGroupsAccumulator, WrappingSum,
};
use blocked_groups::ordered_groups_accumulator::{GroupsInfo, GroupsProperties, PartitionRange};

fn info(groups: &[(usize, usize, bool)]) -> GroupsInfo {
    let groups = groups
        .iter()
        .map(|&(start, end, is_same_as_before)| PartitionRange {
            start,
            end,
            is_same_as_before,
        })
        .collect::<Vec<_>>();
    let mut single = 0;
    while single < groups.len() && groups[single].len() == 1 {
        single += 1;
    }
    let total = groups.len();
    let properties = GroupsProperties {
        range_of_single_item_groups: 0..single,
    };
    GroupsInfo::new(groups, properties, total)
}

#[test]
fn sums_of_ordered_groups() {
    let mut sums = PrimitiveOrderedGroupsAccumulator::<i64, _>::new(WrappingSum);
    // The first batch goes on with the group in progress.
    sums.update_batch(&[1, 2, 3, 4], &info(&[(0, 2, true), (2, 3, false), (3, 4, false)]));
    sums.update_batch(&[10, 20], &info(&[(0, 1, true), (1, 2, false)]));
    sums.merge_batch(&[100], &info(&[(0, 1, false)]));
    assert!(sums.size() >= 4 * 8);
    assert_eq!(sums.evaluate(false), vec![3, 3, 14, 20]);
    assert_eq!(sums.state(true), vec![vec![100]]);
    assert_eq!(sums.evaluate(true), vec![0]);
}

#[test]
fn sums_of_single_row_groups() {
    let mut sums =
        PrimitiveOrderedGroupsAccumulator::<i64, _>::new(WrappingSum).with_starting_value(1000);
    sums.update_batch(
        &[1, 2, 3, i64::MAX],
        &info(&[(0, 1, true), (1, 2, false), (2, 3, false), (3, 4, false)]),
    );
    assert_eq!(sums.evaluate(false), vec![1001, 1002, 1003]);
    assert_eq!(sums.evaluate(true), vec![i64::MIN + 999]);
}

#[test]
fn sums_do_not_depend_on_batches() {
    let values = [5, -3, 8, 1, 1, 7, 2];
    let mut at_once = PrimitiveOrderedGroupsAccumulator::<i64, _>::new(WrappingSum);
    at_once.update_batch(&values, &info(&[(0, 3, true), (3, 4, false), (4, 7, false)]));
    let mut in_parts = PrimitiveOrderedGroupsAccumulator::<i64, _>::new(WrappingSum);
    in_parts.update_batch(&values[..2], &info(&[(0, 2, true)]));
    in_parts.update_batch(
        &values[2..5],
        &info(&[(0, 1, true), (1, 2, false), (2, 3, false)]),
    );
    in_parts.update_batch(&values[5..], &info(&[(0, 2, true)]));
    assert_eq!(at_once.evaluate(true), in_parts.evaluate(true));
}

struct Largest;

impl PrimitiveOp<u8> for Largest {
    fn apply(&self, _: u8, _: u8) -> u8 {
        unreachable!()
    }

    fn update(&self, current: &mut u8, value: u8) {
        *current = value.max(*current);
    }
}

#[test]
fn largest_of_ordered_groups() {
    let mut largest = PrimitiveOrderedGroupsAccumulator::<u8, _>::new(Largest);
    largest.update_batch(&[3, 9, 2, 4], &info(&[(0, 3, true), (3, 4, false)]));
    assert_eq!(largest.evaluate(true), vec![9, 4]);
}

/// The values of each list.
fn lists(
    accumulator: &mut CollectListGroupsAccumulator<Vec<char>>,
    emit_to: EmitTo,
) -> Vec<String> {
    assert!(accumulator.can_emit(emit_to));
    let plan = accumulator.build_list(emit_to);
    let lists = plan
        .offsets
        .windows(2)
        .map(|w| {
            plan.places[w[0] as usize..w[1] as usize]
                .iter()
                .map(|&(input, row)| accumulator.input(input).unwrap()[row])
                .collect()
        })
        .collect();
    accumulator.release(emit_to);
    lists
}

fn chars(s: &str) -> Vec<char> {
    s.chars().collect()
}

#[test]
fn lists_keep_the_order() {
    let mut accumulator = CollectListGroupsAccumulator::new();
    accumulator.update_batch(chars("abcd"), 4, None, &[0, 1, 0, 2], None, 3);
    accumulator.update_batch(chars("ef"), 2, None, &[2, 0], None, 4);
    assert_eq!(accumulator.len(), 4);
    assert_eq!(accumulator.num_inputs(), 2);
    assert!(accumulator.size() > 6);
    assert!(!accumulator.can_emit(EmitTo::First(5)));
    assert_eq!(
        lists(&mut accumulator, EmitTo::All),
        vec!["acf", "b", "de", ""]
    );
    assert_eq!(accumulator.len(), 0);
    assert_eq!(accumulator.num_inputs(), 0);
}

#[test]
fn lists_without_nulls_and_filtered_rows() {
    let mut accumulator = CollectListGroupsAccumulator::new();
    let nulls = NullBuffer::from(vec![true, false, true, true]);
    let filter = RowFilter {
        values: BooleanBuffer::from(vec![true, true, false, true]),
        nulls: None,
    };
    // The array has only the rows that are kept.
    accumulator.update_batch(
        chars("ad"),
        2,
        Some(&nulls),
        &[0, 0, 0, 1],
        Some(&filter),
        2,
    );
    // Nothing is kept of this one.
    let none = RowFilter {
        values: BooleanBuffer::from(vec![false]),
        nulls: None,
    };
    accumulator.update_batch(chars("x"), 1, None, &[0], Some(&none), 2);
    assert_eq!(accumulator.num_inputs(), 1);
    assert_eq!(accumulator.input(0), Some(&chars("ad")));
    assert_eq!(lists(&mut accumulator, EmitTo::All), vec!["a", "d"]);
}

#[test]
fn lists_of_emitted_groups_release_their_arrays() {
    let mut accumulator = CollectListGroupsAccumulator::new();
    accumulator.update_batch(chars("ab"), 2, None, &[0, 1], None, 2);
    accumulator.update_batch(chars("cd"), 2, None, &[0, 2], None, 3);
    assert_eq!(lists(&mut accumulator, EmitTo::First(2)), vec!["ac", "b"]);
    // Only the second array is still used.
    assert!(accumulator.input(0).is_none());
    assert_eq!(accumulator.input(1), Some(&chars("cd")));
    accumulator.update_batch(chars("e"), 1, None, &[0], None, 1);
    assert_eq!(lists(&mut accumulator, EmitTo::All), vec!["de"]);
}

#[test]
fn lists_are_merged() {
    let mut accumulator = CollectListGroupsAccumulator::new();
    let nulls = NullBuffer::from(vec![true, false, true, true]);
    let rows = ListRows {
        offsets: &[3, 5, 6, 6, 8],
        nulls: Some(&nulls),
        value_nulls: None,
    };
    // The values of the lists that are kept.
    accumulator.merge_batch(chars("abde"), 4, &rows, &[1, 0, 0, 1], None, 2);
    accumulator.update_batch(chars("x"), 1, None, &[0], None, 2);
    assert_eq!(lists(&mut accumulator, EmitTo::All), vec!["x", "abde"]);
}

#[test]
fn indices_of_one_group() {
    let mut indices = SingleGroupUniqueIndices::default();
    assert!(indices.insert(7));
    assert!(!indices.insert(7));
    let mut capacities = 0;
    assert!(indices.insert_accounted(9, &mut capacities));
    assert_eq!(indices.len(), 2);
    assert!(indices.capacity() >= 2);
    let mut all = indices.indices();
    all.sort();
    assert_eq!(all, vec![7, 9]);
}

#[test]
fn state_of_one_group() {
    let mut state = AccumulatorState::default();
    assert_eq!(state.insert(1, 10), 1);
    assert_eq!(state.insert(1, 10), 0);
    let mut capacities = 0;
    assert_eq!(state.insert_accounted(2, 5, &mut capacities), 1);
    assert_eq!(state.insert_accounted(2, 5, &mut capacities), 0);
    assert_eq!(state.underlying_size(), 15);
    assert_eq!(state.len(), 2);
    assert!(state.capacity() >= 2);
    let mut all = state.indices();
    all.sort();
    assert_eq!(all, vec![1, 2]);
}

#[test]
fn places_of_values_are_used_again() {
    let mut values =
        CollectSetGroupAccumulatorValues::<Vec<u8>, GetSizeBytes>::with_capacity(4);
    let a = values.insert_new_unique(b"a".to_vec());
    let b = values.insert_new_unique(b"b".to_vec());
    assert_eq!((a, b), (0, 1));
    values.increment_ref_count_by(a, 2);
    values.increment_ref_count_by(b, 1);
    values.decrement_ref_count(a);
    assert!(values.is_used(a));
    values.decrement_ref_count(a);
    assert!(!values.is_used(a));
    assert_eq!(values.get_number_of_available_indices(), 1);
    values.claim_data_from_added_available_indices(0, &Vec::new());
    assert_eq!(values[a], Vec::<u8>::new());
    assert_eq!(values[b], b"b");
    assert_eq!(values.insert_new_unique(b"c".to_vec()), a);
    assert_eq!(values[a], b"c");
    assert_eq!(values.get_number_of_available_indices(), 0);
    assert!(values.size() >= 2);
    values.reset(1);
    assert_eq!(values.len(), 0);
}

#[test]
fn sizes_on_the_heap() {
    assert_eq!(OnlyOnStackSize::get_heap_allocated_size(&5u8), 0);
    assert!(GetSizeBytes::get_heap_allocated_size(&vec![1, 2, 3]) >= 3);
    assert!(VecAllocExt::allocated_size(&vec![1u32, 2]) >= 8);
}

#[test]
fn states_are_made_for_all_groups() {
    let mut states = vec![5];
    make_accumulators_if_needed(&mut states, 3);
    assert_eq!(states, vec![5, 0, 0]);
}

#[test]
fn states_become_columns() {
    assert_eq!(
        states_to_columns(vec![vec![1, 2], vec![3, 4], vec![5, 6]]),
        vec![vec![1, 3, 5], vec![2, 4, 6]]
    );
    assert_eq!(states_to_columns(Vec::<Vec<u8>>::new()), Vec::<Vec<u8>>::new());
}

#[test]
fn allocations_are_counted() {
    let mut allocation = AllocationBytes::new();
    allocation.add_allocation(10);
    allocation.adjust_allocation(10, 25);
    assert_eq!(allocation.size(), 25);
    allocation.adjust_allocation(20, 5);
    assert_eq!(allocation.size(), 10);
    allocation.free_allocation(99);
    assert_eq!(allocation.size(), 0);
}

#[test]
fn lists_do_not_depend_on_batches() {
    let mut at_once = CollectListGroupsAccumulator::new();
    at_once.update_batch(chars("abcd"), 4, None, &[1, 0, 1, 0], None, 2);
    let mut in_parts = CollectListGroupsAccumulator::new();
    in_parts.update_batch(chars("ab"), 2, None, &[1, 0], None, 2);
    in_parts.update_batch(chars("cd"), 2, None, &[1, 0], None, 2);
    let expected = vec!["bd", "ac"];
    assert_eq!(lists(&mut at_once, EmitTo::All), expected);
    assert_eq!(lists(&mut in_parts, EmitTo::All), expected);
}

#[test]
fn place_is_kept_while_in_use() {
    let mut values =
        CollectSetGroupAccumulatorValues::<u32, OnlyOnStackSize>::with_capacity(4);
    let other = values.insert_new_unique(7);
    let index = values.insert_new_unique(8);
    values.increment_ref_count_by(other, 1);
    values.increment_ref_count_by(index, 3);
    for _ in 0..2 {
        values.decrement_ref_count(index);
        assert!(values.is_used(index));
        assert_eq!(values.get_number_of_available_indices(), 0);
    }
    values.decrement_ref_count(index);
    assert!(!values.is_used(index));
    assert_eq!(values.get_number_of_available_indices(), 1);
    assert!(values.is_used(other));
    assert_eq!(&*values, &[7, 8]);
    assert_eq!(AsRef::<[u32]>::as_ref(&values), &[7, 8]);
}

#[test]
fn indices_count_once() {
    let mut state = AccumulatorState::default();
    let inserts = [(3, 10), (5, 7), (3, 10), (5, 99), (4, 1), (3, 0)];
    let results = inserts
        .iter()
        .map(|&(index, size)| state.insert(index, size))
        .collect::<Vec<_>>();
    assert_eq!(results, vec![1, 1, 0, 0, 1, 0]);
    assert_eq!(state.len(), 3);
    assert_eq!(state.underlying_size(), 18);
    let mut indices = state.indices();
    indices.sort();
    assert_eq!(indices, vec![3, 4, 5]);
}

#[test]
fn available_place_that_is_counted_is_available_again() {
    let mut values =
        CollectSetGroupAccumulatorValues::<u32, OnlyOnStackSize>::with_capacity(4);
    let index = values.insert_new_unique(7);
    values.increment_ref_count_by(index, 1);
    values.decrement_ref_count(index);
    assert_eq!(values.get_number_of_available_indices(), 1);
    values.increment_ref_count_by(index, 2);
    assert!(values.is_used(index));
    values.decrement_ref_count(index);
    assert!(values.is_used(index));
    assert_eq!(values.get_number_of_available_indices(), 1);
    values.decrement_ref_count(index);
    assert!(!values.is_used(index));
    assert_eq!(values.get_number_of_available_indices(), 2);
}
