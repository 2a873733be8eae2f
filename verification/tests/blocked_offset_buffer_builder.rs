use arrow::array::OffsetSizeTrait;
use arrow::buffer::OffsetBuffer;
use blocked_groups::blocked_helpers::blocked_offset_buffer_builder::BlockedOffsetBufferBuilder;
use blocked_groups::blocked_helpers::offset_size::OffsetSize;
use blocked_groups::groups_accumulator::BlocksIndex;

#[test]
fn newly_created_builder_should_return_empty_and_then_none() {
    let mut builder = BlockedOffsetBufferBuilder::<true, i32>::new(10);
    assert_eq!(builder.take_block(), Some(vec![0]));
    assert_eq!(builder.take_block(), None);
}

#[test]
fn newly_created_builder_with_exactly_1_block_should_return_1_block_and_then_none() {
    let block_size = 6;
    let lengths_to_add = vec![3; block_size];
    run_on_all_ways_to_add::<i32>(block_size, &lengths_to_add, |builder, source| {
        let expected_offsets = OffsetBuffer::<i32>::from_lengths(lengths_to_add.clone());
        assert_eq!(
            builder.take_block().as_deref(),
            Some(expected_offsets.as_ref()),
            "failed when source is {source}"
        );
        assert_eq!(builder.take_block(), None, "failed when source is {source}");
    });
}

#[test]
fn newly_created_builder_with_exactly_n_block_should_return_n_block_and_then_none() {
    let block_size = 6;
    let number_of_blocks = 3;
    let lengths_blocked = vec![vec![3; block_size]; number_of_blocks];
    let lengths_to_add = lengths_blocked
        .iter()
        .flatten()
        .copied()
        .collect::<Vec<_>>();
    run_on_all_ways_to_add::<i32>(block_size, &lengths_to_add, |builder, source| {
        for length_blocked in &lengths_blocked {
            let expected_offsets = OffsetBuffer::<i32>::from_lengths(length_blocked.clone());
            assert_eq!(
                builder.take_block().as_deref(),
                Some(expected_offsets.as_ref()),
                "failed when source is {source}"
            );
        }

        assert_eq!(builder.take_block(), None, "failed when source is {source}");
    });
}

fn run_on_all_ways_to_add<O: OffsetSizeTrait + OffsetSize>(
    block_size: usize,
    lengths_to_add: &[usize],
    on_added: impl Fn(&mut BlockedOffsetBufferBuilder<true, O>, &'static str),
) {
    {
        let mut builder = BlockedOffsetBufferBuilder::<true, O>::new(block_size);

        for _ in 0..2 {
            for &len in lengths_to_add {
                builder.push_length(len);
            }
            on_added(&mut builder, "push_length");
        }
    }

    {
        let mut builder = BlockedOffsetBufferBuilder::<true, O>::new(block_size);

        for _ in 0..2 {
            builder.extend(lengths_to_add.iter().copied());
            on_added(&mut builder, "extend");
        }
    }

    if !lengths_to_add.is_empty() {
        let mut builder = BlockedOffsetBufferBuilder::<true, O>::new(block_size);

        for _ in 0..2 {
            let mut current_len: usize = lengths_to_add[0];
            let mut repeat: usize = 1;

            for &len in &lengths_to_add[1..] {
                if len == current_len {
                    repeat += 1;
                } else {
                    builder.push_length_n(current_len, repeat);
                    current_len = len;
                    repeat = 1;
                }
            }

            builder.push_length_n(current_len, repeat);

            on_added(&mut builder, "push_length_n");
        }
    }

    {
        let mut builder = BlockedOffsetBufferBuilder::<true, O>::new(block_size);

        for _ in 0..2 {
            let offset_buffer_input =
                OffsetBuffer::<O>::from_lengths(lengths_to_add.iter().copied());
            builder.extends_length_from_offsets(&offset_buffer_input);
            on_added(&mut builder, "extends_length_from_offsets");
        }
    }

    {
        let mut builder = BlockedOffsetBufferBuilder::<true, O>::new(block_size);

        let mut lengths_to_add_modified = lengths_to_add.to_vec();
        let mut indices = (0..lengths_to_add.len() + 2).collect::<Vec<_>>();
        lengths_to_add_modified.insert(lengths_to_add.len() - 1, 10);
        indices.remove(lengths_to_add.len());

        lengths_to_add_modified.insert(0, 40);
        indices.remove(0);

        let cleared_length = indices
            .iter()
            .map(|index| lengths_to_add_modified[*index])
            .collect::<Vec<_>>();
        assert_eq!(cleared_length, lengths_to_add);
        let offset_buffer_input = OffsetBuffer::<O>::from_lengths(lengths_to_add_modified);

        for _ in 0..2 {
            builder.extends_length_from_offsets_in_indexes(&offset_buffer_input, &indices);
            on_added(&mut builder, "extends_length_from_offsets_in_indexes");
        }
    }
}

#[test]
fn offsets_start_at_zero_in_every_block() {
    let mut builder = BlockedOffsetBufferBuilder::<true, i64>::new(3);
    builder.extend(vec![1, 2, 3, 4, 5, 6, 7].into_iter());
    assert_eq!(builder.len(), 7);
    assert_eq!(builder.current_block_index(), 2);
    assert_eq!(builder.current_block_len(), 1);
    assert_eq!(builder.last_offset(), 7);
    // Counted through with the initial zeros: 0 1 3 6 | 0 4 9 15 | 0 7
    assert_eq!(builder[3], 6);
    assert_eq!(builder[4], 0);
    assert_eq!(builder[7], 15);
    assert_eq!(builder[BlocksIndex::new(2, 1)], 7);
    let blocks: Vec<Vec<i64>> = builder
        .blocks_iter()
        .map(|block| block.as_slice().to_vec())
        .collect();
    assert_eq!(blocks, vec![vec![0, 1, 3, 6], vec![0, 4, 9, 15], vec![0, 7]]);
    let mut iter = builder.into_iter();
    assert_eq!(iter.next(), Some(vec![0, 1, 3, 6]));
    assert_eq!(iter.next(), Some(vec![0, 4, 9, 15]));
    assert_eq!(iter.next(), Some(vec![0, 7]));
    assert_eq!(iter.next(), None);
}

#[test]
fn offsets_take_n_with_fixed_blocks() {
    for n in 0..=3 {
        let lengths = vec![1, 2, 3, 4, 5, 6, 7];
        let mut builder = BlockedOffsetBufferBuilder::<true, i32>::new(3);
        builder.extend(lengths.iter().copied());
        let taken = builder.take_n(n, None::<std::vec::IntoIter<usize>>);
        let expected = OffsetBuffer::<i32>::from_lengths(lengths[..n].to_vec());
        assert_eq!(taken.as_slice(), expected.as_ref());
        assert_eq!(builder.len(), 7 - n);
        for chunk in lengths[n..].chunks(3) {
            let expected = OffsetBuffer::<i32>::from_lengths(chunk.to_vec());
            assert_eq!(builder.take_block().as_deref(), Some(expected.as_ref()));
        }
        assert_eq!(builder.take_block(), None);
    }
}

#[test]
fn offsets_take_n_fixed_keeps_last_items() {
    // Five items in blocks of two: the last block is dropped, its item moves one block back.
    let mut builder = BlockedOffsetBufferBuilder::<true, i32>::new(2);
    builder.extend(vec![1, 1, 1, 1].into_iter());
    assert_eq!(builder.take_n(1, None::<std::vec::IntoIter<usize>>), vec![0, 1]);
    assert_eq!(builder.take_block(), Some(vec![0, 1, 2]));
    assert_eq!(builder.take_block(), Some(vec![0, 1]));
    assert_eq!(builder.take_block(), None);
}

#[test]
fn offsets_take_n_with_new_sizes() {
    let mut builder = BlockedOffsetBufferBuilder::<false, i32>::new(0);
    builder.extend(vec![1, 2, 3, 4].into_iter());
    builder.start_new_block();
    builder.extend(vec![5, 6].into_iter());
    builder.start_new_block();
    builder.extend(vec![7, 8, 9].into_iter());
    let taken = builder.take_n(1, Some(vec![2, 0, 3, 3].into_iter()));
    assert_eq!(taken, vec![0, 1]);
    assert_eq!(builder.len(), 8);
    assert_eq!(
        builder.take_all(),
        vec![
            vec![0, 2, 5],
            vec![0],
            vec![0, 4, 9, 15],
            vec![0, 7, 15, 24],
        ]
    );
    assert_eq!(builder.take_block(), None);
}

#[test]
fn offsets_take_n_of_whole_first_block_or_nothing() {
    let mut builder = BlockedOffsetBufferBuilder::<false, i32>::new(0);
    builder.extend(vec![1, 2].into_iter());
    builder.start_new_block();
    builder.push_length(3);
    assert_eq!(builder.take_n(0, Some(vec![2, 1].into_iter())), vec![0]);
    assert_eq!(builder.take_n(2, Some(vec![1].into_iter())), vec![0, 1, 3]);
    assert_eq!(builder.take_n(1, Some(vec![].into_iter())), vec![0, 3]);
    assert_eq!(builder.take_block(), None);
}

#[test]
fn offsets_that_start_anywhere_are_rebased() {
    let mut builder = BlockedOffsetBufferBuilder::<true, i32>::new(10);
    builder.extends_length_from_offsets(&[0, 2, 3]);
    builder.extends_length_from_offsets(&[6, 9, 10]);
    builder.extends_length_from_offsets(&[1, 2]);
    assert!(!builder.push_next_offset_in_block(20));
    builder.push_empty_n(2);
    assert_eq!(builder.take_block(), Some(vec![0, 2, 3, 6, 7, 8, 20, 20, 20]));
}

#[test]
fn offsets_adding_nothing_marks_a_pending_block() {
    let mut builder = BlockedOffsetBufferBuilder::<true, i32>::new(1);
    assert!(builder.push_length(4));
    builder.push_length_n(1, 0);
    builder.push_empty_n(0);
    builder.extends_length_from_offsets(&[3]);
    assert_eq!(builder.take_block(), Some(vec![0, 4]));
    assert_eq!(builder.take_block(), None);
    builder.extend(Vec::<usize>::new().into_iter());
    assert_eq!(builder.take_block(), Some(vec![0]));
    assert_eq!(builder.take_block(), None);
}

#[test]
fn offsets_allocated_size_covers_the_offsets() {
    let mut builder = BlockedOffsetBufferBuilder::<true, i32>::new(4);
    builder.push_empty_n(9);
    assert!(builder.allocated_size() >= (5 + 5 + 2) * 4);
}

#[test]
fn offsets_are_pushed_one_by_one() {
    let offsets = [0i32, 3, 3, 7, 8, 20];
    for block_size in 1..7 {
        for by in [0, 5, -7, i32::MIN] {
            let moved = offsets.map(|offset| offset + by);
            let mut extended = BlockedOffsetBufferBuilder::<true, i32>::new(block_size);
            extended.push_length(2);
            extended.extends_length_from_offsets(&moved);
            let mut pushed = BlockedOffsetBufferBuilder::<true, i32>::new(block_size);
            pushed.push_length(2);
            for window in offsets.windows(2) {
                pushed.push_length((window[1] - window[0]) as usize);
            }
            assert_eq!(extended.len(), pushed.len());
            assert_eq!(extended.last_offset(), pushed.last_offset());
            loop {
                let block = extended.take_block();
                assert_eq!(block, pushed.take_block());
                if block.is_none() {
                    break;
                }
            }
        }
    }
}
