use arrow::array::{
    Array, ArrowNativeTypeOp, BooleanBufferBuilder, Float32Array, Int64Array, NullBufferBuilder,
};
use blocked_groups::groups_accumulator::BlocksIndex;
use blocked_groups::multi_group_by::nulls_equal_to;
use blocked_groups::multi_group_by::primitive::{
    NativeValue, PrimitiveBlock, PrimitiveColumn, PrimitiveGroupValueBuilder,
};

#[derive(Debug, Clone, Copy)]
struct Float(f32);

impl NativeValue for Float {
    fn zero() -> Self {
        unreachable!()
    }

    fn default_value() -> Self {
        Float(0.0)
    }

    fn same(self, _: Self) -> bool {
        unreachable!()
    }

    fn canonical(self) -> Self {
        unreachable!()
    }

    fn is_eq(self, other: Self) -> bool {
        self.0.is_eq(other.0)
    }

    fn canonicalize(self) -> Self {
        if self.0.is_nan() {
            Float(f32::NAN)
        } else if self.0 == 0.0 {
            Float(0.0)
        } else {
            self
        }
    }
}

fn floats(array: &Float32Array) -> Vec<Float> {
    array.values().iter().map(|&value| Float(value)).collect()
}

fn column(array: &Int64Array) -> PrimitiveColumn<'_, i64> {
    PrimitiveColumn {
        values: array.values(),
        nulls: array.nulls(),
    }
}

fn array(block: PrimitiveBlock<i64>) -> Int64Array {
    Int64Array::new(block.values.into(), block.nulls)
}

fn make_true_buffer(n: usize) -> BooleanBufferBuilder {
    let mut buf = BooleanBufferBuilder::new(n);
    buf.append_n(n, true);
    buf
}

fn to_vec(buf: &BooleanBufferBuilder) -> Vec<bool> {
    (0..buf.len()).map(|i| buf.get_bit(i)).collect()
}

#[test]
fn test_nullable_primitive_equal_to() {
    let append = |builder: &mut PrimitiveGroupValueBuilder<false, Float, true>,
                  builder_array: &PrimitiveColumn<'_, Float>,
                  append_rows: &[usize]| {
        for &index in append_rows {
            builder.append_val(builder_array, index);
        }
    };

    let equal_to = |builder: &PrimitiveGroupValueBuilder<false, Float, true>,
                    lhs_rows: &[BlocksIndex],
                    input_array: &PrimitiveColumn<'_, Float>,
                    rhs_rows: &[usize],
                    equal_to_results: &mut BooleanBufferBuilder| {
        let iter = lhs_rows.iter().zip(rhs_rows.iter());
        for (idx, (&lhs_row, &rhs_row)) in iter.enumerate() {
            equal_to_results.set_bit(idx, builder.equal_to(lhs_row, input_array, rhs_row));
        }
    };

    test_nullable_primitive_equal_to_internal(append, equal_to);
}

#[test]
fn test_nullable_primitive_vectorized_equal_to() {
    let append = |builder: &mut PrimitiveGroupValueBuilder<false, Float, true>,
                  builder_array: &PrimitiveColumn<'_, Float>,
                  append_rows: &[usize]| {
        builder.vectorized_append(builder_array, append_rows);
    };

    let equal_to = |builder: &PrimitiveGroupValueBuilder<false, Float, true>,
                    lhs_rows: &[BlocksIndex],
                    input_array: &PrimitiveColumn<'_, Float>,
                    rhs_rows: &[usize],
                    equal_to_results: &mut BooleanBufferBuilder| {
        builder.vectorized_equal_to(lhs_rows, input_array, rhs_rows, equal_to_results);
    };

    test_nullable_primitive_equal_to_internal(append, equal_to);
}

fn test_nullable_primitive_equal_to_internal<A, E>(mut append: A, mut equal_to: E)
where
    A: FnMut(
        &mut PrimitiveGroupValueBuilder<false, Float, true>,
        &PrimitiveColumn<'_, Float>,
        &[usize],
    ),
    E: FnMut(
        &PrimitiveGroupValueBuilder<false, Float, true>,
        &[BlocksIndex],
        &PrimitiveColumn<'_, Float>,
        &[usize],
        &mut BooleanBufferBuilder,
    ),
{
    // Covers:
    //   - exist null, input not null
    //   - exist null, input null; values not equal
    //   - exist null, input null; values equal
    //   - exist not null, input null
    //   - exist not null, input not null; values not equal
    //   - exist not null, input not null; values equal
    let mut builder = PrimitiveGroupValueBuilder::<false, Float, true>::new(0);
    let builder_array = Float32Array::from(vec![
        None,
        None,
        None,
        Some(1.0),
        Some(2.0),
        Some(f32::NAN),
        Some(3.0),
    ]);
    let builder_values = floats(&builder_array);
    append(
        &mut builder,
        &PrimitiveColumn {
            values: &builder_values,
            nulls: builder_array.nulls(),
        },
        &[0, 1, 2, 3, 4, 5, 6],
    );

    let (_, values, _nulls) = Float32Array::from(vec![
        Some(1.0),
        Some(2.0),
        None,
        Some(1.0),
        None,
        Some(f32::NAN),
        None,
    ])
    .into_parts();

    // One of the null values also happens to match.
    let mut nulls = NullBufferBuilder::new(6);
    nulls.append_non_null();
    nulls.append_null();
    nulls.append_null();
    nulls.append_non_null();
    nulls.append_null();
    nulls.append_non_null();
    nulls.append_null();
    let input_array = Float32Array::new(values, nulls.finish());
    let input_values = floats(&input_array);

    let mut equal_to_results = make_true_buffer(builder.len());
    equal_to(
        &builder,
        &[0, 1, 2, 3, 4, 5, 6].map(BlocksIndex::new_in_first_block),
        &PrimitiveColumn {
            values: &input_values,
            nulls: input_array.nulls(),
        },
        &[0, 1, 2, 3, 4, 5, 6],
        &mut equal_to_results,
    );
    let results = to_vec(&equal_to_results);

    assert!(!results[0]);
    assert!(results[1]);
    assert!(results[2]);
    assert!(results[3]);
    assert!(!results[4]);
    assert!(results[5]);
    assert!(!results[6]);
}

#[test]
fn test_not_nullable_primitive_equal_to() {
    let append = |builder: &mut PrimitiveGroupValueBuilder<false, i64, false>,
                  builder_array: &Int64Array,
                  append_rows: &[usize]| {
        for &index in append_rows {
            builder.append_val(&column(builder_array), index);
        }
    };

    let equal_to = |builder: &PrimitiveGroupValueBuilder<false, i64, false>,
                    lhs_rows: &[BlocksIndex],
                    input_array: &Int64Array,
                    rhs_rows: &[usize],
                    equal_to_results: &mut BooleanBufferBuilder| {
        let iter = lhs_rows.iter().zip(rhs_rows.iter());
        for (idx, (&lhs_row, &rhs_row)) in iter.enumerate() {
            equal_to_results.set_bit(
                idx,
                builder.equal_to(lhs_row, &column(input_array), rhs_row),
            );
        }
    };

    test_not_nullable_primitive_equal_to_internal(append, equal_to);
}

#[test]
fn test_not_nullable_primitive_vectorized_equal_to() {
    let append = |builder: &mut PrimitiveGroupValueBuilder<false, i64, false>,
                  builder_array: &Int64Array,
                  append_rows: &[usize]| {
        builder.vectorized_append(&column(builder_array), append_rows);
    };

    let equal_to = |builder: &PrimitiveGroupValueBuilder<false, i64, false>,
                    lhs_rows: &[BlocksIndex],
                    input_array: &Int64Array,
                    rhs_rows: &[usize],
                    equal_to_results: &mut BooleanBufferBuilder| {
        builder.vectorized_equal_to(lhs_rows, &column(input_array), rhs_rows, equal_to_results);
    };

    test_not_nullable_primitive_equal_to_internal(append, equal_to);
}

fn test_not_nullable_primitive_equal_to_internal<A, E>(mut append: A, mut equal_to: E)
where
    A: FnMut(&mut PrimitiveGroupValueBuilder<false, i64, false>, &Int64Array, &[usize]),
    E: FnMut(
        &PrimitiveGroupValueBuilder<false, i64, false>,
        &[BlocksIndex],
        &Int64Array,
        &[usize],
        &mut BooleanBufferBuilder,
    ),
{
    // Covers:
    //   - values equal
    //   - values not equal
    let mut builder = PrimitiveGroupValueBuilder::<false, i64, false>::new(0);
    let builder_array = Int64Array::from(vec![Some(0), Some(1)]);
    append(&mut builder, &builder_array, &[0, 1]);

    let input_array = Int64Array::from(vec![Some(0), Some(2)]);

    let mut equal_to_results = make_true_buffer(builder.len());
    equal_to(
        &builder,
        &[0, 1].map(BlocksIndex::new_in_first_block),
        &input_array,
        &[0, 1],
        &mut equal_to_results,
    );
    let results = to_vec(&equal_to_results);

    assert!(results[0]);
    assert!(!results[1]);
}

#[test]
fn test_nullable_primitive_vectorized_operation_special_case() {
    // The special `all nulls` or `not nulls` input array case for vectorized append and equal to.
    let mut builder = PrimitiveGroupValueBuilder::<false, i64, true>::new(0);

    // All nulls input array
    let all_nulls_input_array =
        Int64Array::from(vec![Option::<i64>::None, None, None, None, None]);
    builder.vectorized_append(&column(&all_nulls_input_array), &[0, 1, 2, 3, 4]);

    let mut equal_to_results = make_true_buffer(all_nulls_input_array.len());
    builder.vectorized_equal_to(
        &[0, 1, 2, 3, 4].map(BlocksIndex::new_in_first_block),
        &column(&all_nulls_input_array),
        &[0, 1, 2, 3, 4],
        &mut equal_to_results,
    );
    let results = to_vec(&equal_to_results);

    assert!(results[0]);
    assert!(results[1]);
    assert!(results[2]);
    assert!(results[3]);
    assert!(results[4]);

    // All not nulls input array
    let all_not_nulls_input_array =
        Int64Array::from(vec![Some(1), Some(2), Some(3), Some(4), Some(5)]);
    builder.vectorized_append(&column(&all_not_nulls_input_array), &[0, 1, 2, 3, 4]);

    let mut equal_to_results = make_true_buffer(all_not_nulls_input_array.len());
    builder.vectorized_equal_to(
        &[5, 6, 7, 8, 9].map(BlocksIndex::new_in_first_block),
        &column(&all_not_nulls_input_array),
        &[0, 1, 2, 3, 4],
        &mut equal_to_results,
    );
    let results = to_vec(&equal_to_results);

    assert!(results[0]);
    assert!(results[1]);
    assert!(results[2]);
    assert!(results[3]);
    assert!(results[4]);
}

#[test]
fn test_primitive_take_n() {
    let mut builder = PrimitiveGroupValueBuilder::<false, i64, true>::new(0);
    let input = Int64Array::from(vec![Some(10), None, Some(30), Some(40), Some(50)]);
    for i in 0..5 {
        builder.append_val(&column(&input), i);
    }
    let out = array(builder.take_n(2));
    let expected = Int64Array::from(vec![Some(10), None]);
    assert_eq!(&out, &expected);
    // remaining: [30, 40, 50]
    assert_eq!(builder.len(), 3);

    let out2 = array(builder.take_n(2));
    let expected2 = Int64Array::from(vec![Some(30), Some(40)]);
    assert_eq!(&out2, &expected2);
    // remaining: [50]
    assert_eq!(builder.len(), 1);

    // take the last element
    let out3 = array(builder.take_n(1));
    let expected3 = Int64Array::from(vec![Some(50)]);
    assert_eq!(&out3, &expected3);
    assert_eq!(builder.len(), 0);
}

#[test]
fn primitive_blocks_of_fixed_size() {
    let mut builder = PrimitiveGroupValueBuilder::<true, i64, true>::new(2);
    let input = Int64Array::from(vec![Some(1), None, Some(3), Some(4), None]);
    builder.vectorized_append(&column(&input), &[0, 1, 2, 3, 4]);
    assert_eq!(builder.len(), 5);
    let position = BlocksIndex::from_index_in_fixed_block_size(3, 2);
    assert!(builder.equal_to(position, &column(&input), 3));
    assert!(!builder.equal_to(position, &column(&input), 2));
    assert!(!builder.equal_to(position, &column(&input), 4));
    assert_eq!(
        array(builder.take_block().unwrap()),
        Int64Array::from(vec![Some(1), None])
    );
    assert_eq!(
        array(builder.take_block().unwrap()),
        Int64Array::from(vec![3, 4])
    );
    let last = builder.take_block().unwrap();
    assert!(last.nulls.is_some());
    assert_eq!(array(last), Int64Array::from(vec![None]));
    assert!(builder.take_block().is_none());
    assert_eq!(builder.len(), 0);
}

#[test]
fn primitive_blocks_on_demand() {
    let mut builder = PrimitiveGroupValueBuilder::<false, i64, false>::new(0);
    let input = Int64Array::from(vec![1, 2, 3]);
    builder.append_val(&column(&input), 0);
    builder.start_new_block();
    builder.vectorized_append(&column(&input), &[1, 2]);
    assert!(builder.size() >= 3 * 8);
    let first = builder.take_block().unwrap();
    assert!(first.nulls.is_none());
    assert_eq!(first.values, vec![1]);
    assert_eq!(builder.take_block().unwrap().values, vec![2, 3]);
    assert!(builder.take_block().is_none());
}

#[test]
fn primitive_only_the_bits_of_pairs_are_cleared() {
    let mut builder = PrimitiveGroupValueBuilder::<false, i64, false>::new(0);
    let values = (0..20).collect::<Vec<i64>>();
    let input = Int64Array::from(values);
    let rows = (0..20).collect::<Vec<usize>>();
    builder.vectorized_append(&column(&input), &rows);
    let mut results = make_true_buffer(30);
    results.set_bit(4, false);
    results.set_bit(25, false);
    let lhs = (0..20)
        .map(BlocksIndex::new_in_first_block)
        .collect::<Vec<_>>();
    let mut rhs = rows;
    rhs.swap(10, 17);
    builder.vectorized_equal_to(&lhs, &column(&input), &rhs, &mut results);
    let expected = (0..30)
        .map(|i| ![4, 10, 17, 25].contains(&i))
        .collect::<Vec<_>>();
    assert_eq!(to_vec(&results), expected);
}

#[test]
fn primitive_floats_are_stored_canonically() {
    let mut builder = PrimitiveGroupValueBuilder::<false, Float, false>::new(0);
    let values = [Float(-0.0), Float(1.5)];
    let floats = PrimitiveColumn {
        values: &values,
        nulls: None,
    };
    builder.vectorized_append(&floats, &[0, 1]);
    assert!(builder.equal_to(BlocksIndex::new_in_first_block(0), &floats, 0));
    assert!(builder
        .take_block()
        .unwrap()
        .values
        .iter()
        .all(|value| value.0.is_sign_positive()));
}

#[test]
fn nulls_decide_unless_there_are_none() {
    assert_eq!(nulls_equal_to(true, true), Some(true));
    assert_eq!(nulls_equal_to(true, false), Some(false));
    assert_eq!(nulls_equal_to(false, true), Some(false));
    assert_eq!(nulls_equal_to(false, false), None);
}

#[test]
fn primitive_zero_stands_for_null() {
    let mut builder = PrimitiveGroupValueBuilder::<false, i64, true>::new(0);
    let (_, values, _) = Int64Array::from(vec![7, 8]).into_parts();
    let some = Int64Array::new(values.clone(), Some(vec![false, true].into()));
    let all = Int64Array::new(values, Some(vec![false, false].into()));
    builder.append_val(&column(&some), 0);
    builder.vectorized_append(&column(&some), &[1, 0]);
    builder.vectorized_append(&column(&all), &[0, 1]);
    let first = builder.take_n(1);
    assert_eq!(first.values, vec![0]);
    let block = builder.take_block().unwrap();
    assert_eq!(block.values, vec![8, 0, 0, 0]);
    assert_eq!(block.nulls.unwrap().null_count(), 3);
}
