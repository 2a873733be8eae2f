use blocked_groups::aggregate::array_agg::{lists_size, CollectListGroupsAccumulator};
use blocked_groups::aggregate::count_distinct::collect_set::{
    account_release, sets_size, EmitTo,
};
use blocked_groups::aggregate::count_distinct::helpers::group_accumulator_unique_values::{
    unique_values_size, CollectSetGroupAccumulatorValues, GetSizeBytes,
};
use blocked_groups::aggregate::count_distinct::helpers::track_single_group_unique_indices::{
    account_growth, SingleGroupUniqueIndices,
};
use blocked_groups::blocked_helpers::blocked_boolean_builder::BlockedBooleanBuilder;
use blocked_groups::blocked_helpers::blocked_bytes_buffer_builder::BlockedBytesBufferBuilder;
use blocked_groups::blocked_helpers::blocked_nulls_builder::BlockedNullsBuilder;
use blocked_groups::blocked_helpers::blocked_vec_builder::BlockedVecBuilder;
use blocked_groups::memory::{allocated_bytes, items_size, total_size};

#[test]
fn sizes_are_added_up() {
    assert_eq!(total_size(&[]), 0);
    assert_eq!(total_size(&[3, 0, 39]), 42);
    assert_eq!(total_size(&[usize::MAX, 1]), usize::MAX);
    assert_eq!(items_size(7, 6), 42);
    assert_eq!(items_size(usize::MAX, 2), usize::MAX);
    assert_eq!(items_size(usize::MAX, 0), 0);
}

#[test]
fn queue_and_blocks_are_added_up() {
    assert_eq!(allocated_bytes(4, 24, &[]), 96);
    assert_eq!(allocated_bytes(4, 24, &[100, 20, 3]), 219);
    assert_eq!(allocated_bytes(0, 24, &[1]), 1);
    assert_eq!(allocated_bytes(usize::MAX, 2, &[1]), usize::MAX);
    assert_eq!(allocated_bytes(1, 1, &[usize::MAX]), usize::MAX);
}

#[test]
fn unique_values_are_added_up() {
    let word = size_of::<usize>();
    assert_eq!(unique_values_size(100, 20, 3, &[5, 6]), 131 + 3 * word);
    assert_eq!(unique_values_size(0, 0, usize::MAX, &[]), usize::MAX);
}

#[test]
fn sets_are_added_up() {
    let word = size_of::<usize>();
    let entry = size_of::<(u64, usize)>();
    assert_eq!(sets_size(1000, 3, 2, 50), 1050 + 3 * word + 2 * entry);
    assert_eq!(sets_size(1, usize::MAX, 0, 0), usize::MAX);
    assert_eq!(sets_size(1, 0, usize::MAX, 0), usize::MAX);
}

#[test]
fn lists_are_added_up() {
    assert_eq!(lists_size(1, 20, &[300, 4000], 50_000, 600_000), 654_321);
    assert_eq!(lists_size(1, 0, &[], 0, usize::MAX), usize::MAX);
}

#[test]
fn growth_is_accounted_for() {
    assert_eq!(account_growth(10, 3, 7), 14);
    assert_eq!(account_growth(10, 3, 3), 10);
    assert_eq!(account_growth(10, 7, 3), 10);
    assert_eq!(account_growth(usize::MAX - 1, 3, 7), usize::MAX);
    assert_eq!(account_release(10, &[3, 4]), 3);
    assert_eq!(account_release(10, &[30, 4]), 0);
    // What is accounted for a set that starts without room is the room in it.
    let mut indices = SingleGroupUniqueIndices::new();
    let mut capacities = 5;
    for index in 0..1000 {
        indices.insert_accounted(index, &mut capacities);
    }
    assert_eq!(capacities, 5 + indices.capacity());
}

#[test]
fn arrays_of_lists_are_accounted_for() {
    // The same rows, but for the sizes of the arrays.
    let mut none = CollectListGroupsAccumulator::new();
    let mut some = CollectListGroupsAccumulator::new();
    for (accumulator, factor) in [(&mut none, 0), (&mut some, 1)] {
        accumulator.update_batch('a', factor * 1000, None, &[0, 1], None, 2);
        accumulator.update_batch('b', factor * 200, None, &[0, 2], None, 3);
        // Nothing is kept of this one.
        accumulator.update_batch('c', factor * 30, None, &[], None, 3);
    }
    assert_eq!(some.size() - none.size(), 1200);
    for accumulator in [&mut none, &mut some] {
        accumulator.release(EmitTo::First(2));
    }
    assert_eq!(some.size() - none.size(), 200);
    for accumulator in [&mut none, &mut some] {
        accumulator.release(EmitTo::All);
    }
    assert_eq!(some.size(), none.size());
}

#[test]
fn arrays_of_lists_outgrow_the_count() {
    let mut accumulator = CollectListGroupsAccumulator::new();
    accumulator.update_batch('a', usize::MAX, None, &[0], None, 2);
    accumulator.update_batch('b', 7, None, &[1], None, 2);
    assert_eq!(accumulator.size(), usize::MAX);
    // What is left is known again.
    accumulator.release(EmitTo::First(1));
    assert!(accumulator.size() < 100_000);
}

#[test]
fn one_block_takes_no_more_than_can_be_allocated() {
    let mut values = BlockedVecBuilder::<true, u64>::new(4);
    values.extend_from_slice(&[1, 2, 3]);
    let bytes = values.allocated_size();
    assert!(bytes >= size_of::<Vec<u64>>() + 3 * 8);
    assert!(bytes < usize::MAX);

    let mut bits = BlockedBooleanBuilder::<true>::new(4096);
    bits.append_n(2000, true);
    assert!((250..usize::MAX).contains(&bits.allocated_size()));

    let mut bytes = BlockedBytesBufferBuilder::new();
    bytes.extend_from_slice(&[0; 500]);
    assert!((500 + size_of::<Vec<u8>>()..usize::MAX).contains(&bytes.allocated_size()));
}

#[test]
fn bitmaps_are_counted_once_there_is_a_null() {
    let mut nulls = BlockedNullsBuilder::<true>::new(4096);
    nulls.push_n(2000, true);
    let without = nulls.allocated_size();
    nulls.push_null();
    assert!(nulls.allocated_size() - without >= 251);
}

#[test]
fn heap_bytes_of_values_are_counted() {
    let mut short = CollectSetGroupAccumulatorValues::<Vec<u8>, GetSizeBytes>::with_capacity(2);
    let mut long = CollectSetGroupAccumulatorValues::<Vec<u8>, GetSizeBytes>::with_capacity(2);
    short.insert_new_unique(Vec::new());
    let value = vec![0; 300];
    let capacity = value.capacity();
    long.insert_new_unique(value);
    assert_eq!(long.size() - short.size(), capacity);
}
