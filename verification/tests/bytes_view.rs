use arrow::array::{Array, BooleanBufferBuilder, NullBufferBuilder, StringViewArray};
use blocked_groups::groups_accumulator::BlocksIndex;
use blocked_groups::multi_group_by::bytes_view::{
    ByteViewBlock, ByteViewColumn, ByteViewGroupValueBuilder,
};

fn column(array: &StringViewArray) -> ByteViewColumn<'_> {
    ByteViewColumn {
        views: array.views(),
        buffers: array.data_buffers(),
        nulls: array.nulls(),
    }
}

fn array(block: ByteViewBlock) -> StringViewArray {
    StringViewArray::try_new(block.views.into(), block.buffers, block.nulls).unwrap()
}

fn make_true_buffer(n: usize) -> BooleanBufferBuilder {
    let mut buf = BooleanBufferBuilder::new(n);
    buf.append_n(n, true);
    buf
}

fn to_vec(buf: &BooleanBufferBuilder) -> Vec<bool> {
    (0..buf.len()).map(|i| buf.get_bit(i)).collect()
}

#[test]
fn test_byte_view_append_val() {
    let mut builder =
        ByteViewGroupValueBuilder::<false>::new(0, None)
            .with_max_block_size(60);
    let builder_array = StringViewArray::from(vec![
        Some("this string is quite long"), // in buffer 0
        Some("foo"),
        None,
        Some("bar"),
        Some("this string is also quite long"), // buffer 0
        Some("this string is quite long"),      // buffer 1
        Some("bar"),
    ]);
    for row in 0..builder_array.len() {
        builder.append_val(&column(&builder_array), row);
    }

    let output = array(builder.take_block().unwrap());
    // should be 2 output buffers to hold all the data
    assert_eq!(output.data_buffers().len(), 2);
    assert_eq!(&output, &builder_array)
}

#[test]
fn test_byte_view_equal_to() {
    let append = |builder: &mut ByteViewGroupValueBuilder<false>,
                  builder_array: &StringViewArray,
                  append_rows: &[usize]| {
        for &index in append_rows {
            builder.append_val(&column(builder_array), index);
        }
    };

    let equal_to =
        |builder: &ByteViewGroupValueBuilder<false>,
         lhs_rows: &[BlocksIndex],
         input_array: &StringViewArray,
         rhs_rows: &[usize],
         equal_to_results: &mut BooleanBufferBuilder| {
            let iter = lhs_rows.iter().zip(rhs_rows.iter());
            for (idx, (&lhs_row, &rhs_row)) in iter.enumerate() {
                equal_to_results
                    .set_bit(idx, builder.equal_to(lhs_row, &column(input_array), rhs_row));
            }
        };

    test_byte_view_equal_to_internal(append, equal_to);
}

#[test]
fn test_byte_view_vectorized_equal_to() {
    let append = |builder: &mut ByteViewGroupValueBuilder<false>,
                  builder_array: &StringViewArray,
                  append_rows: &[usize]| {
        builder.vectorized_append(&column(builder_array), append_rows);
    };

    let equal_to =
        |builder: &ByteViewGroupValueBuilder<false>,
         lhs_rows: &[BlocksIndex],
         input_array: &StringViewArray,
         rhs_rows: &[usize],
         equal_to_results: &mut BooleanBufferBuilder| {
            builder.vectorized_equal_to(
                lhs_rows,
                &column(input_array),
                rhs_rows,
                equal_to_results,
            );
        };

    test_byte_view_equal_to_internal(append, equal_to);
}

#[test]
fn test_byte_view_vectorized_operation_special_case() {
    // Test the special `all nulls` or `not nulls` input array case
    // for vectorized append and equal to

    let mut builder =
        ByteViewGroupValueBuilder::<false>::new(0, None)
            .with_max_block_size(60);

    // All nulls input array
    let all_nulls_input_array = StringViewArray::from(vec![
        Option::<&str>::None,
        None,
        None,
        None,
        None,
    ]);
    builder.vectorized_append(&column(&all_nulls_input_array), &[0, 1, 2, 3, 4]);

    let mut equal_to_results = make_true_buffer(all_nulls_input_array.len());
    builder.vectorized_equal_to(
        &[0, 1, 2, 3, 4].map(BlocksIndex::new_in_first_block),
        &column(&all_nulls_input_array),
        &[0, 1, 2, 3, 4],
        &mut equal_to_results,
    );
    let results = to_vec(&equal_to_results);

    assert!(results[0]);
    assert!(results[1]);
    assert!(results[2]);
    assert!(results[3]);
    assert!(results[4]);

    // All not nulls input array
    let all_not_nulls_input_array = StringViewArray::from(vec![
        Some("stringview1"),
        Some("stringview2"),
        Some("stringview3"),
        Some("stringview4"),
        Some("stringview5"),
    ]);
    builder.vectorized_append(&column(&all_not_nulls_input_array), &[0, 1, 2, 3, 4]);

    let mut equal_to_results = make_true_buffer(all_not_nulls_input_array.len());
    builder.vectorized_equal_to(
        &[5, 6, 7, 8, 9].map(BlocksIndex::new_in_first_block),
        &column(&all_not_nulls_input_array),
        &[0, 1, 2, 3, 4],
        &mut equal_to_results,
    );
    let results = to_vec(&equal_to_results);

    assert!(results[0]);
    assert!(results[1]);
    assert!(results[2]);
    assert!(results[3]);
    assert!(results[4]);
}

fn test_byte_view_equal_to_internal<A, E>(mut append: A, mut equal_to: E)
where
    A: FnMut(
        &mut ByteViewGroupValueBuilder<false>,
        &StringViewArray,
        &[usize],
    ),
    E: FnMut(
        &ByteViewGroupValueBuilder<false>,
        &[BlocksIndex],
        &StringViewArray,
        &[usize],
        &mut BooleanBufferBuilder,
    ),
{
    // Will cover such cases:
    //   - exist null, input not null
    //   - exist null, input null; values not equal
    //   - exist null, input null; values equal
    //   - exist not null, input null
    //   - exist not null, input not null; value lens not equal
    //   - exist not null, input not null; value not equal(inlined case)
    //   - exist not null, input not null; value equal(inlined case)
    //
    //   - exist not null, input not null; value not equal
    //     (non-inlined case + prefix not equal)
    //
    //   - exist not null, input not null; value not equal
    //     (non-inlined case + value in `completed`)
    //
    //   - exist not null, input not null; value equal
    //     (non-inlined case + value in `completed`)
    //
    //   - exist not null, input not null; value not equal
    //     (non-inlined case + value in `in_progress`)
    //
    //   - exist not null, input not null; value equal
    //     (non-inlined case + value in `in_progress`)

    // Set the block size to 40 for ensuring some unlined values are in `in_progress`,
    // and some are in `completed`, so both two branches in `value` function can be covered.
    let mut builder =
        ByteViewGroupValueBuilder::<false>::new(0, Some(60));
    let builder_array = StringViewArray::from(vec![
        None,
        None,
        None,
        Some("foo"),
        Some("bazz"),
        Some("foo"),
        Some("bar"),
        Some("I am a long string for test eq in completed"),
        Some("I am a long string for test eq in progress"),
    ]);
    append(&mut builder, &builder_array, &[0, 1, 2, 3, 4, 5, 6, 7, 8]);

    // Define input array
    let (views, buffer, _nulls) = StringViewArray::from(vec![
        Some("foo"),
        Some("bar"),
        None,
        None,
        Some("baz"),
        Some("oof"),
        Some("bar"),
        Some("i am a long string for test eq in completed"),
        Some("I am a long string for test eq in COMPLETED"),
        Some("I am a long string for test eq in completed"),
        Some("I am a long string for test eq in PROGRESS"),
        Some("I am a long string for test eq in progress"),
    ])
    .into_parts();

    // explicitly build a null buffer where one of the null values also happens to match
    let mut nulls = NullBufferBuilder::new(9);
    nulls.append_non_null();
    nulls.append_null();
    nulls.append_null();
    nulls.append_null();
    nulls.append_non_null();
    nulls.append_non_null();
    nulls.append_non_null();
    nulls.append_non_null();
    nulls.append_non_null();
    nulls.append_non_null();
    nulls.append_non_null();
    nulls.append_non_null();
    let input_array =
        StringViewArray::new(views, buffer, nulls.finish());

    // Check
    let mut equal_to_results = make_true_buffer(input_array.len());
    equal_to(
        &builder,
        &[0, 1, 2, 3, 4, 5, 6, 7, 7, 7, 8, 8].map(BlocksIndex::new_in_first_block),
        &input_array,
        &[0, 1, 2, 3, 4, 5, 6, 7, 8, 9, 10, 11],
        &mut equal_to_results,
    );
    let results = to_vec(&equal_to_results);

    assert!(!results[0]);
    assert!(results[1]);
    assert!(results[2]);
    assert!(!results[3]);
    assert!(!results[4]);
    assert!(!results[5]);
    assert!(results[6]);
    assert!(!results[7]);
    assert!(!results[8]);
    assert!(results[9]);
    assert!(!results[10]);
    assert!(results[11]);
}

#[test]
fn test_byte_view_take_n() {
    // ####### Define cases and init #######

    // `take_n` is really complex, we should consider and test following situations:
    //   1. Take nulls
    //   2. Take all `inlined`s
    //   3. Take non-inlined + partial last buffer in `completed`
    //   4. Take non-inlined + whole last buffer in `completed`
    //   5. Take non-inlined + partial last `in_progress`
    //   6. Take non-inlined + whole last buffer in `in_progress`
    //   7. Take all views at once

    let mut builder =
        ByteViewGroupValueBuilder::<false>::new(0, Some(60));
    let input_array = StringViewArray::from(vec![
        //  Test situation 1
        None,
        None,
        // Test situation 2 (also test take null together)
        None,
        Some("foo"),
        Some("bar"),
        // Test situation 3 (also test take null + inlined)
        None,
        Some("foo"),
        Some("this string is quite long"),
        Some("this string is also quite long"),
        // Test situation 4 (also test take null + inlined)
        None,
        Some("bar"),
        Some("this string is quite long"),
        // Test situation 5 (also test take null + inlined)
        None,
        Some("foo"),
        Some("another string that is is quite long"),
        Some("this string not so long"),
        // Test situation 6 (also test take null + inlined + insert again after taking)
        None,
        Some("bar"),
        Some("this string is quite long"),
        // Insert 4 and just take 3 to ensure it will go the path of situation 6
        None,
        // Finally, we create a new builder,  insert the whole array and then
        // take whole at once for testing situation 7
    ]);

    let first_ones_to_append = 16; // For testing situation 1~5
    let second_ones_to_append = 4; // For testing situation 6
    let final_ones_to_append = input_array.len(); // For testing situation 7

    // ####### Test situation 1~5 #######
    for row in 0..first_ones_to_append {
        builder.append_val(&column(&input_array), row);
    }

    assert_eq!(builder.num_completed_buffers(), 2);
    assert_eq!(builder.in_progress_len(), 59);

    // Situation 1
    let taken_array = array(builder.take_n(2));
    assert_eq!(&taken_array, &input_array.slice(0, 2));

    // Situation 2
    let taken_array = array(builder.take_n(3));
    assert_eq!(&taken_array, &input_array.slice(2, 3));

    // Situation 3
    let taken_array = array(builder.take_n(3));
    assert_eq!(&taken_array, &input_array.slice(5, 3));

    let taken_array = array(builder.take_n(1));
    assert_eq!(&taken_array, &input_array.slice(8, 1));

    // Situation 4
    let taken_array = array(builder.take_n(3));
    assert_eq!(&taken_array, &input_array.slice(9, 3));

    // Situation 5
    let taken_array = array(builder.take_n(3));
    assert_eq!(&taken_array, &input_array.slice(12, 3));

    let taken_array = array(builder.take_n(1));
    assert_eq!(&taken_array, &input_array.slice(15, 1));

    // ####### Test situation 6 #######
    assert_eq!(builder.num_completed_buffers(), 0);
    assert_eq!(builder.in_progress_len(), 0);
    assert_eq!(builder.len(), 0);

    for row in first_ones_to_append..first_ones_to_append + second_ones_to_append {
        builder.append_val(&column(&input_array), row);
    }

    assert_eq!(builder.num_completed_buffers(), 0);
    assert_eq!(builder.in_progress_len(), 25);

    let taken_array = array(builder.take_n(3));
    assert_eq!(&taken_array, &input_array.slice(16, 3));

    // ####### Test situation 7 #######
    // Create a new builder
    let mut builder =
        ByteViewGroupValueBuilder::<false>::new(0, Some(60));

    for row in 0..final_ones_to_append {
        builder.append_val(&column(&input_array), row);
    }

    assert_eq!(builder.num_completed_buffers(), 3);
    assert_eq!(builder.in_progress_len(), 25);

    let taken_array = array(builder.take_n(final_ones_to_append));
    assert_eq!(&taken_array, &input_array);
}

#[test]
fn test_byte_view_take_n_partial_completed_nonzero_index() {
    let mut builder =
        ByteViewGroupValueBuilder::<false>::new(0, Some(30));
    let input_array = StringViewArray::from(vec![
        Some("aaaaaaaaaaaaaa"),
        Some("bbbbbbbbbbbbbb"),
        Some("cccccccccccccc"),
        Some("dddddddddddddd"),
        Some("eeeeeeeeeeeeee"),
    ]);

    for row in 0..input_array.len() {
        builder.append_val(&column(&input_array), row);
    }

    assert_eq!(builder.num_completed_buffers(), 2);
    assert_eq!(builder.in_progress_len(), 14);

    let taken_array = array(builder.take_n(3));
    assert_eq!(&taken_array, &input_array.slice(0, 3));
}

#[test]
fn byte_view_blocks_of_fixed_size() {
    let mut builder = ByteViewGroupValueBuilder::<true>::new(2, Some(30));
    let input = StringViewArray::from(vec![
        Some("aaaaaaaaaaaaaa"),
        Some("bbbbbbbbbbbbbbbbbbbbbbb"),
        None,
        Some("cccccccccccccc"),
        Some("dddddddddddddd"),
    ]);
    builder.vectorized_append(&column(&input), &[0, 1, 2, 3, 4]);
    for row in 0..5 {
        let position = BlocksIndex::from_index_in_fixed_block_size(row, 2);
        for other in 0..5 {
            assert_eq!(
                builder.equal_to(position, &column(&input), other),
                row == other
            );
        }
    }
    let first = array(builder.take_block().unwrap());
    assert_eq!(first.data_buffers().len(), 2);
    assert_eq!(&first, &input.slice(0, 2));
    let second = array(builder.take_block().unwrap());
    assert_eq!(second.data_buffers().len(), 1);
    assert_eq!(&second, &input.slice(2, 2));
    let position = BlocksIndex::new_in_first_block(0);
    assert!(builder.equal_to(position, &column(&input), 4));
    assert_eq!(&array(builder.take_block().unwrap()), &input.slice(4, 1));
    assert!(builder.take_block().is_none());
}

#[test]
fn byte_view_blocks_on_demand() {
    let mut builder = ByteViewGroupValueBuilder::<false>::new(0, Some(60));
    let input = StringViewArray::from(vec!["a string that is long", "short", ""]);
    builder.append_val(&column(&input), 0);
    builder.start_new_block();
    builder.append_val(&column(&input), 1);
    builder.append_val(&column(&input), 0);
    assert_eq!(builder.len(), 3);
    assert!(builder.size() > 42);
    assert_eq!(&array(builder.take_block().unwrap()), &input.slice(0, 1));
    assert!(builder.equal_to(BlocksIndex::new_in_first_block(1), &column(&input), 0));
    let second = array(builder.take_block().unwrap());
    assert_eq!(second.value(0), "short");
    assert_eq!(second.value(1), "a string that is long");
    assert!(builder.take_block().is_none());

    // No buffers where all strings are in their views.
    builder.append_val(&column(&input), 1);
    let third = array(builder.take_block().unwrap());
    assert_eq!(third.data_buffers().len(), 0);
    assert_eq!(third.value(0), "short");
}

#[test]
fn byte_view_null_is_not_the_empty_string() {
    let mut builder = ByteViewGroupValueBuilder::<false>::new(0, None);
    let nulls = StringViewArray::from(vec![Option::<&str>::None]);
    let empty = StringViewArray::from(vec![""]);
    builder.append_val(&column(&nulls), 0);
    let position = BlocksIndex::new_in_first_block(0);
    assert!(!builder.equal_to(position, &column(&empty), 0));
    let mut results = make_true_buffer(1);
    builder.vectorized_equal_to(&[position], &column(&empty), &[0], &mut results);
    assert_eq!(to_vec(&results), vec![false]);
}

#[test]
fn byte_view_buffers_of_closed_blocks() {
    let strings = StringViewArray::from(vec![
        Some("twenty bytes exactly"),
        Some("short"),
        Some("another twenty bytes"),
        None,
        Some("a third twenty bytes"),
    ]);
    let rows = (0..strings.len()).collect::<Vec<_>>();
    let mut at_once = ByteViewGroupValueBuilder::<true>::new(2, Some(30));
    at_once.vectorized_append(&column(&strings), &rows);
    let mut one_by_one = ByteViewGroupValueBuilder::<true>::new(2, Some(30));
    for row in rows {
        one_by_one.append_val(&column(&strings), row);
    }
    for builder in [&mut at_once, &mut one_by_one] {
        assert!(builder.has_position(BlocksIndex::new(2, 0)));
        assert!(!builder.has_position(BlocksIndex::new(2, 1)));
        let expected = [
            b"twenty bytes exactly".as_slice(),
            b"another twenty bytes",
            b"a third twenty bytes",
        ];
        for bytes in expected {
            let block = builder.take_block().unwrap();
            assert_eq!(block.buffers.len(), 1);
            assert_eq!(block.buffers[0].as_slice(), bytes);
        }
        assert!(builder.take_block().is_none());
    }
}

#[test]
fn byte_view_next_buffer_when_one_is_full() {
    let strings = StringViewArray::from(vec!["twenty bytes exactly", "another twenty bytes"]);
    let mut builder = ByteViewGroupValueBuilder::<true>::new(4, Some(30));
    builder.vectorized_append(&column(&strings), &[0, 1]);
    let block = builder.take_block().unwrap();
    assert_eq!(block.buffers.len(), 2);
    assert_eq!(block.buffers[0].as_slice(), b"twenty bytes exactly");
    assert_eq!(block.buffers[1].as_slice(), b"another twenty bytes");
}

#[test]
fn byte_view_many_rows_that_need_no_buffer() {
    let strings = StringViewArray::from(vec![Some("short"), None]);
    let mut builder = ByteViewGroupValueBuilder::<false>::new(0, Some(30));
    for _ in 0..1000 {
        builder.vectorized_append(&column(&strings), &[0, 1, 0]);
    }
    let taken = builder.take_n(2999);
    assert_eq!(taken.views.len(), 2999);
    assert!(taken.buffers.is_empty());
    assert_eq!(array(builder.take_block().unwrap()).value(0), "short");
}
