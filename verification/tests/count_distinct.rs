use arrow::buffer::{BooleanBuffer, NullBuffer};
use blocked_groups::aggregate::count_distinct::batches::{BatchError, ListRows};
use blocked_groups::aggregate::count_distinct::bytes_group_accumulator::{
    ByteLists, CollectSetBytesGroupsAccumulator,
};
use blocked_groups::aggregate::count_distinct::collect_set::EmitTo;
use blocked_groups::aggregate::count_distinct::distinct_value::Int256;
use blocked_groups::aggregate::count_distinct::helpers::merge_filter_and_null_removal;
use blocked_groups::aggregate::count_distinct::helpers::row_filter::RowFilter;
use blocked_groups::aggregate::count_distinct::native_group_accumulator::{
    CountDistinctPrimitiveGroupsAccumulator, PrimitiveLists,
};
use blocked_groups::blocked_helpers::blocked_byte_array_builder::ByteColumn;

fn sorted(lists: &PrimitiveLists<i64>) -> Vec<Vec<i64>> {
    lists
        .offsets
        .windows(2)
        .map(|w| {
            let mut list = lists.values[w[0] as usize..w[1] as usize].to_vec();
            list.sort();
            list
        })
        .collect()
}

fn sorted_strings(lists: &ByteLists<i32>) -> Vec<Vec<String>> {
    assert!(lists.values.nulls.is_none());
    let string = |i: usize| {
        let (start, end) = (lists.values.offsets[i], lists.values.offsets[i + 1]);
        String::from_utf8(lists.values.bytes[start as usize..end as usize].to_vec()).unwrap()
    };
    lists
        .offsets
        .windows(2)
        .map(|w| {
            let mut list = (w[0] as usize..w[1] as usize)
                .map(string)
                .collect::<Vec<_>>();
            list.sort();
            list
        })
        .collect()
}

struct Strings {
    offsets: Vec<i32>,
    bytes: Vec<u8>,
    nulls: Option<NullBuffer>,
}

impl Strings {
    fn new(strings: &[Option<&str>]) -> Self {
        let mut offsets = vec![0];
        let mut bytes = vec![];
        for string in strings {
            bytes.extend_from_slice(string.unwrap_or("").as_bytes());
            offsets.push(bytes.len() as i32);
        }
        let valid = strings.iter().map(|s| s.is_some()).collect::<Vec<_>>();
        let nulls = if valid.contains(&false) {
            Some(NullBuffer::from(valid))
        } else {
            None
        };
        Strings {
            offsets,
            bytes,
            nulls,
        }
    }

    fn column(&self) -> ByteColumn<'_, i32> {
        ByteColumn {
            offsets: &self.offsets,
            bytes: &self.bytes,
            nulls: self.nulls.as_ref(),
        }
    }
}

#[test]
fn primitive_values_are_counted_once_per_group() {
    let mut accumulator = CountDistinctPrimitiveGroupsAccumulator::<i64>::new();
    accumulator
        .update_batch(&[7, 7, 8, 7, -1], None, &[0, 0, 0, 1, 1], None, 3)
        .unwrap();
    assert_eq!(accumulator.len(), 3);
    let lists = accumulator.evaluate(EmitTo::All);
    assert_eq!(sorted(&lists), vec![vec![7, 8], vec![-1, 7], vec![]]);
    assert_eq!(lists.offsets, vec![0, 2, 4, 4]);
    assert_eq!(accumulator.len(), 0);
}

#[test]
fn primitive_nulls_and_filter() {
    let mut accumulator = CountDistinctPrimitiveGroupsAccumulator::<i64>::new();
    let nulls = NullBuffer::from(vec![true, false, true, true, true]);
    let filter = RowFilter {
        values: BooleanBuffer::from(vec![true, true, false, true, true]),
        nulls: Some(NullBuffer::from(vec![true, true, true, true, false])),
    };
    accumulator
        .update_batch(
            &[1, 2, 3, 4, 5],
            Some(&nulls),
            &[0, 0, 0, 0, 0],
            Some(&filter),
            1,
        )
        .unwrap();
    assert_eq!(sorted(&accumulator.evaluate(EmitTo::All)), vec![vec![1, 4]]);
}

#[test]
fn primitive_rows_that_do_not_count_may_name_any_group() {
    let mut accumulator = CountDistinctPrimitiveGroupsAccumulator::<i64>::new();
    let nulls = NullBuffer::from(vec![true, false]);
    accumulator
        .update_batch(&[1, 2], Some(&nulls), &[0, 99], None, 1)
        .unwrap();
    assert_eq!(sorted(&accumulator.evaluate(EmitTo::All)), vec![vec![1]]);
}

#[test]
fn primitive_emit_first_keeps_the_rest() {
    let mut accumulator = CountDistinctPrimitiveGroupsAccumulator::<i64>::new();
    accumulator
        .update_batch(&[1, 2, 2, 3, 3, 4], None, &[0, 0, 1, 1, 2, 2], None, 3)
        .unwrap();
    assert!(accumulator.can_emit(EmitTo::First(1)));
    assert!(!accumulator.can_emit(EmitTo::First(4)));
    let first = accumulator.evaluate(EmitTo::First(1));
    assert_eq!(sorted(&first), vec![vec![1, 2]]);
    assert_eq!(accumulator.len(), 2);

    // The place of 1, which no group uses any more, is used again.
    accumulator
        .update_batch(&[9, 1, 2], None, &[0, 1, 1], None, 2)
        .unwrap();
    let mut columns = accumulator.state(EmitTo::All);
    assert_eq!(columns.len(), 1);
    assert_eq!(
        sorted(&columns.remove(0)),
        vec![vec![2, 3, 9], vec![1, 2, 3, 4]]
    );
}

#[test]
fn primitive_size_covers_the_groups() {
    let mut accumulator = CountDistinctPrimitiveGroupsAccumulator::<u64>::new();
    let empty = accumulator.size();
    accumulator
        .update_batch(&[1, 2, u64::MAX], None, &[0, 1, 999], None, 1000)
        .unwrap();
    assert!(accumulator.size() > empty);
}

#[test]
fn merging_a_state_restores_the_groups() {
    let mut first = CountDistinctPrimitiveGroupsAccumulator::<i64>::new();
    first
        .update_batch(&[1, 2, 2, 3], None, &[0, 0, 1, 1], None, 2)
        .unwrap();
    let state = first.state(EmitTo::All).remove(0);
    let mut second = CountDistinctPrimitiveGroupsAccumulator::<i64>::new();
    let lists = ListRows {
        offsets: &state.offsets,
        nulls: None,
        value_nulls: None,
    };
    second
        .merge_batch(&state.values, &lists, &[0, 1], None, 2)
        .unwrap();
    assert_eq!(
        sorted(&second.evaluate(EmitTo::All)),
        vec![vec![1, 2], vec![2, 3]]
    );
}

#[test]
fn merging_skips_null_and_filtered_lists() {
    let mut accumulator = CountDistinctPrimitiveGroupsAccumulator::<i64>::new();
    let list_nulls = NullBuffer::from(vec![true, false, true]);
    // The null is in the list that is null itself.
    let value_nulls = NullBuffer::from(vec![true, true, false, true, true]);
    let lists = ListRows {
        offsets: &[0, 2, 3, 5],
        nulls: Some(&list_nulls),
        value_nulls: Some(&value_nulls),
    };
    let filter = RowFilter {
        values: BooleanBuffer::from(vec![false, true, true]),
        nulls: None,
    };
    accumulator
        .merge_batch(&[1, 2, 3, 4, 5], &lists, &[0, 0, 1], Some(&filter), 2)
        .unwrap();
    assert_eq!(
        sorted(&accumulator.evaluate(EmitTo::All)),
        vec![vec![], vec![4, 5]]
    );
}

#[test]
fn merging_a_list_with_a_null_is_refused() {
    let mut accumulator = CountDistinctPrimitiveGroupsAccumulator::<i64>::new();
    let value_nulls = NullBuffer::from(vec![true, false]);
    let lists = ListRows {
        offsets: &[0, 2],
        nulls: None,
        value_nulls: Some(&value_nulls),
    };
    let result = accumulator.merge_batch(&[1, 2], &lists, &[0], None, 1);
    assert_eq!(result, Err(BatchError::NullsNotFiltered));
    assert_eq!(
        result.unwrap_err().message(),
        "nulls should be filtered before updating hashes"
    );
    assert_eq!(
        sorted(&accumulator.evaluate(EmitTo::All)),
        vec![Vec::<i64>::new()]
    );
}

#[test]
fn strings_are_stored_once() {
    let mut accumulator = CollectSetBytesGroupsAccumulator::<i32>::new();
    let strings = Strings::new(&[
        Some("hello"),
        Some("you"),
        Some("hello"),
        Some("world"),
        Some("how"),
        Some("are"),
        Some("you"),
        Some("?"),
    ]);
    accumulator
        .update_batch(&strings.column(), &[0, 0, 1, 1, 2, 2, 2, 2], None, 3)
        .unwrap();
    assert!(accumulator.can_emit(EmitTo::All));
    let first = accumulator.evaluate(EmitTo::First(2));
    assert_eq!(first.offsets, vec![0, 2, 4]);
    assert_eq!(first.values.offsets.last(), Some(&18));
    assert_eq!(
        sorted_strings(&first),
        vec![vec!["hello", "you"], vec!["hello", "world"]]
    );
    let more = Strings::new(&[Some("hello"), None, Some("you")]);
    accumulator
        .update_batch(&more.column(), &[0, 0, 1], None, 2)
        .unwrap();
    let rest = accumulator.state(EmitTo::All).remove(0);
    assert_eq!(
        sorted_strings(&rest),
        vec![vec!["?", "are", "hello", "how", "you"], vec!["you"]]
    );
    assert_eq!(accumulator.len(), 0);
    assert!(accumulator.size() > 0);
}

#[test]
fn strings_are_merged() {
    let mut accumulator = CollectSetBytesGroupsAccumulator::<i32>::new();
    let strings = Strings::new(&[Some("a"), Some("b"), None, Some("b"), Some("c")]);
    let column = strings.column();
    let lists = ListRows {
        offsets: &[0, 2, 2, 3, 5],
        nulls: None,
        value_nulls: column.nulls,
    };
    assert_eq!(
        accumulator.merge_batch(&column, &lists, &[0, 1, 1, 0], None, 2),
        Err(BatchError::NullsNotFiltered)
    );
    let filter = RowFilter {
        values: BooleanBuffer::from(vec![true, true, false, true]),
        nulls: None,
    };
    accumulator
        .merge_batch(&column, &lists, &[0, 1, 1, 0], Some(&filter), 2)
        .unwrap();
    assert_eq!(
        sorted_strings(&accumulator.evaluate(EmitTo::All)),
        vec![vec!["a", "b", "c"], vec![]]
    );
}

#[test]
fn merged_filter() {
    let nulls = NullBuffer::from(vec![true, false, true, true]);
    let filter = RowFilter {
        values: BooleanBuffer::from(vec![true, true, false, true]),
        nulls: Some(NullBuffer::from(vec![true, true, true, false])),
    };
    assert_eq!(
        merge_filter_and_null_removal(Some(&filter), Some(&nulls)),
        BooleanBuffer::from(vec![true, false, false, false])
    );
    assert_eq!(
        merge_filter_and_null_removal(Some(&filter), None),
        BooleanBuffer::from(vec![true, true, false, false])
    );
    assert_eq!(
        merge_filter_and_null_removal(None, Some(&nulls)),
        BooleanBuffer::from(vec![true, false, true, true])
    );
}

#[test]
fn order_and_batches_do_not_matter() {
    let pairs = [(0, 3i64), (1, 5), (0, 4), (0, 3), (1, 3)];
    let mut forwards = CountDistinctPrimitiveGroupsAccumulator::<i64>::new();
    let mut backwards = CountDistinctPrimitiveGroupsAccumulator::<i64>::new();
    let (groups, values): (Vec<usize>, Vec<i64>) = pairs.into_iter().unzip();
    forwards
        .update_batch(&values, None, &groups, None, 2)
        .unwrap();
    for (group, value) in pairs.into_iter().rev() {
        backwards
            .update_batch(&[value], None, &[group], None, 2)
            .unwrap();
    }
    assert_eq!(
        sorted(&forwards.evaluate(EmitTo::All)),
        sorted(&backwards.evaluate(EmitTo::All))
    );
}

#[test]
fn wide_values_are_told_apart() {
    let mut accumulator = CountDistinctPrimitiveGroupsAccumulator::<i128>::new();
    let values = [1 << 100, -(1 << 100), 0, 1 << 100, 1 << 64];
    accumulator
        .update_batch(&values, None, &[0, 0, 0, 0, 0], None, 1)
        .unwrap();
    let mut lists = accumulator.evaluate(EmitTo::All);
    lists.values.sort();
    assert_eq!(lists.values, vec![-(1 << 100), 0, 1 << 64, 1 << 100]);

    let mut accumulator = CountDistinctPrimitiveGroupsAccumulator::<Int256>::new();
    let values = [(1, 0), (1, -1), (u128::MAX, 0), (1, 0)].map(|(low, high)| Int256 { low, high });
    accumulator
        .update_batch(&values, None, &[0, 0, 0, 0], None, 1)
        .unwrap();
    assert_eq!(accumulator.evaluate(EmitTo::All).values.len(), 3);

    let mut accumulator = CountDistinctPrimitiveGroupsAccumulator::<u64>::new();
    accumulator
        .update_batch(&[u64::MAX, 0, u64::MAX, 1 << 63], None, &[0; 4], None, 1)
        .unwrap();
    assert_eq!(accumulator.evaluate(EmitTo::All).values.len(), 3);
}

#[test]
fn memory_of_dropped_strings_is_released() {
    let mut accumulator = CollectSetBytesGroupsAccumulator::<i32>::new();
    let long = "x".repeat(100_000);
    let strings = Strings::new(&[Some(&long), Some("short")]);
    accumulator
        .update_batch(&strings.column(), &[0, 1], None, 2)
        .unwrap();
    let before = accumulator.size();
    accumulator.evaluate(EmitTo::First(1));
    assert!(accumulator.size() + 100_000 <= before);
    let rest = accumulator.evaluate(EmitTo::All);
    assert_eq!(sorted_strings(&rest), vec![vec!["short"]]);
}

#[test]
fn lists_have_the_distinct_strings_of_all_batches() {
    let mut accumulator = CollectSetBytesGroupsAccumulator::<i32>::new();
    let filter = RowFilter {
        values: BooleanBuffer::from(vec![true, true, false, true]),
        nulls: Some(NullBuffer::from(vec![true, true, true, false])),
    };
    let first = Strings::new(&[Some("a"), None, Some("b"), Some("c")]);
    accumulator
        .update_batch(&first.column(), &[0, 0, 0, 0], Some(&filter), 1)
        .unwrap();
    let second = Strings::new(&[Some("a"), Some("d"), Some(""), Some("d")]);
    accumulator
        .update_batch(&second.column(), &[0, 2, 2, 2], None, 3)
        .unwrap();
    let lists = accumulator.evaluate(EmitTo::All);
    assert_eq!(
        sorted_strings(&lists),
        vec![vec!["a"], vec![], vec!["", "d"]]
    );
}
