use arrow::buffer::{BooleanBuffer, NullBuffer};
use blocked_groups::blocked_helpers::blocked_boolean_builder::BlockedBooleanBuilder;
use blocked_groups::blocked_helpers::blocked_byte_array_builder::{
    BlockedByteArrayBuilder, ByteBlock, ByteColumn,
};
use blocked_groups::blocked_helpers::blocked_bytes_buffer_builder::BlockedBytesBufferBuilder;
use blocked_groups::blocked_helpers::blocked_nulls_builder::BlockedNullsBuilder;
use blocked_groups::blocked_helpers::blocked_vec::BlockedVec;
use blocked_groups::blocked_helpers::blocked_vec_builder::BlockedVecBuilder;
use blocked_groups::groups_accumulator::BlocksIndex;

/// Numbers that look random.
fn numbers(seed: u64, n: usize) -> Vec<usize> {
    let mut state = seed;
    (0..n)
        .map(|_| {
            state = state
                .wrapping_mul(6364136223846793005)
                .wrapping_add(1442695040888963407);
            (state >> 33) as usize
        })
        .collect()
}

fn bools(seed: u64, n: usize) -> Vec<bool> {
    numbers(seed, n).iter().map(|i| i % 3 == 0).collect()
}

#[test]
fn boolean_blocks_of_fixed_size() {
    let all = bools(1, 100);
    let mut builder = BlockedBooleanBuilder::<true>::new(13);
    builder.append(all[0]);
    builder.extend(all[1..40].iter().copied());
    builder.append_n(20, true);
    builder.append_n(0, false);
    builder.extend(all[40..].iter().copied());
    let mut expected = all[..40].to_vec();
    expected.extend(vec![true; 20]);
    expected.extend(&all[40..]);
    assert_eq!(builder.len(), 120);
    assert_eq!(builder.block_size(), 13);
    assert!(builder.allocated_size() >= 15);
    for (i, &bit) in expected.iter().enumerate() {
        let position = BlocksIndex::from_index_in_fixed_block_size(i, 13);
        assert_eq!(builder.get_bit(position), bit);
        assert_eq!(builder[position], bit);
        assert_eq!(builder[i], bit);
    }
    let position = BlocksIndex::from_index_in_fixed_block_size(14, 13);
    builder.set_bit(position, !expected[14]);
    expected[14] = !expected[14];
    for block in expected.chunks(13) {
        assert_eq!(
            builder.take_block(),
            Some(BooleanBuffer::from(block.to_vec()))
        );
    }
    assert_eq!(builder.len(), 0);
    // There is always a block, though it may be empty.
    assert_eq!(
        builder.take_block(),
        Some(BooleanBuffer::from(Vec::<bool>::new()))
    );
}

#[test]
fn boolean_take_n_of_fixed_size() {
    for block_size in [1, 3, 8, 13, 64, 70] {
        for n in [0, 1, 5, 8, 12, 63, 64] {
            let all = bools(block_size as u64, 150);
            if n > block_size {
                continue;
            }
            let mut builder = BlockedBooleanBuilder::<true>::new(block_size);
            builder.extend(all.iter().copied());
            let taken = builder.take_n(n, None::<std::vec::IntoIter<usize>>);
            assert_eq!(taken, BooleanBuffer::from(all[..n].to_vec()));
            assert_eq!(builder.len(), 150 - n);
            builder.extend([true, false, true].into_iter());
            let mut rest = all[n..].to_vec();
            rest.extend([true, false, true]);
            for block in rest.chunks(block_size) {
                assert_eq!(
                    builder.take_block(),
                    Some(BooleanBuffer::from(block.to_vec()))
                );
            }
        }
    }
}

#[test]
fn boolean_take_n_with_sizes() {
    let all = bools(7, 40);
    let mut builder = BlockedBooleanBuilder::<false>::new(0);
    builder.extend(all[..25].iter().copied());
    builder.start_new_block();
    builder.extend(all[25..].iter().copied());
    let taken = builder.take_n(9, Some(vec![20usize, 11].into_iter()));
    assert_eq!(taken, BooleanBuffer::from(all[..9].to_vec()));
    let blocks = builder.take_all();
    assert_eq!(
        blocks,
        vec![
            BooleanBuffer::from(all[9..29].to_vec()),
            BooleanBuffer::from(all[29..].to_vec())
        ]
    );
    assert_eq!(builder.len(), 0);
}

#[test]
fn nulls_blocks() {
    let all = bools(3, 60);
    let mut builder = BlockedNullsBuilder::<true>::new(7);
    builder.push_null();
    builder.push_non_null();
    builder.push_n(9, true);
    builder.push_n_nulls(3);
    builder.push_n_non_nulls(15);
    builder.extends_from_null_buffer(&NullBuffer::from(all.clone()));
    builder.extends_from_null_buffer_in_indexes(
        &NullBuffer::from(all.clone()),
        &[5, 2, 2, 59, 0],
    );
    builder.extend(all[..10].iter().copied());
    let mut expected = vec![false, true];
    expected.extend(vec![true; 9]);
    expected.extend(vec![false; 3]);
    expected.extend(vec![true; 15]);
    expected.extend(&all);
    expected.extend([all[5], all[2], all[2], all[59], all[0]]);
    expected.extend(&all[..10]);
    assert_eq!(builder.len(), expected.len());
    assert!(builder.might_have_nulls());
    for (i, &valid) in expected.iter().enumerate() {
        let position = BlocksIndex::from_index_in_fixed_block_size(i, 7);
        assert_eq!(builder.is_null(position), !valid);
        assert_eq!(builder[position], valid);
        assert_eq!(builder[i], valid);
    }
    for block in expected.chunks(7) {
        let nulls = builder.take_block().unwrap();
        if block.contains(&false) {
            assert_eq!(nulls, Some(NullBuffer::from(block.to_vec())));
        } else {
            assert_eq!(nulls, None);
        }
    }
    // One item of each block is not counted off.
    assert_eq!(builder.len(), expected.chunks(7).len());
    assert!(!builder.might_have_nulls());
}

#[test]
fn nulls_blocks_on_demand() {
    let mut builder = BlockedNullsBuilder::<false>::new(0);
    builder.push_n_non_nulls(3);
    assert!(!builder.might_have_nulls());
    builder.start_new_block();
    builder.extends_from_null_buffer(&NullBuffer::from(vec![true, false]).slice(1, 1));
    assert_eq!(builder.take_block(), Some(None));
    assert_eq!(
        builder.take_block(),
        Some(Some(NullBuffer::from(vec![false])))
    );
}

#[test]
fn bytes_blocks() {
    let mut builder = BlockedBytesBufferBuilder::new();
    builder.reserve_bytes_in_current_block(10);
    builder.extend_from_slice(b"hello");
    builder.extend([b" ".as_slice(), b"world".as_slice()].into_iter());
    builder.start_new_block();
    builder.extend_from_slice(b"again");
    assert_eq!(builder.num_blocks(), 2);
    assert_eq!(builder.len(), 16);
    assert_eq!(builder.current_block_len(), 5);
    assert_eq!(builder.block(0), b"hello world");
    assert!(builder.allocated_size() >= 16);
    let taken = builder.take_n(6, vec![7usize, 3].into_iter());
    assert_eq!(taken, b"hello ");
    builder.extends_bytes_from_offsets_indexes_in_current_block(
        b"onetwothree",
        &[0i32, 3, 6, 11],
        &[2, 0],
    );
    assert_eq!(builder.take_block_finished().unwrap().as_slice(), b"worldag");
    assert_eq!(builder.take_all(), vec![b"ainthreeone".to_vec()]);
    assert_eq!(builder.take_block(), Some(vec![]));
}

#[test]
fn vec_blocks() {
    let mut builder = BlockedVecBuilder::<true, u32>::new(3);
    assert!(builder.is_empty());
    assert!(!builder.push(1));
    builder.extend(vec![2, 3, 4].into_iter());
    builder.extend_from_slice(&[5, 6, 7]);
    builder.push_value_n(9, 2);
    builder.push_default_n(2);
    assert_eq!(builder.len(), 11);
    assert_eq!(builder.block_size(), 3);
    assert_eq!(builder.current_block_len(), 2);
    assert_eq!(*builder.get(BlocksIndex::new(2, 1)), 9);
    *builder.get_mut(BlocksIndex::new(2, 1)) = 8;
    assert_eq!(builder.take_block(), Some(vec![1, 2, 3]));
    assert_eq!(builder.take_block(), Some(vec![4, 5, 6]));
    assert_eq!(builder.take_block_finished(), Some(vec![7, 8, 9]));
    assert_eq!(builder.take_block(), Some(vec![0, 0]));
    assert_eq!(builder.take_block(), None);
    builder.push(1);
    builder.reset();
    assert!(builder.is_empty());
    assert_eq!(builder.take_block(), Some(vec![]));
    assert_eq!(builder.take_block(), None);
}

#[test]
fn vec_blocks_that_are_just_full() {
    let mut builder = BlockedVecBuilder::<true, u8>::new(2);
    assert!(!builder.push(1));
    assert!(builder.push(2));
    builder.extend_from_slice(&[3, 4]);
    assert_eq!(builder.take_block(), Some(vec![1, 2]));
    assert_eq!(builder.take_block(), Some(vec![3, 4]));
    assert_eq!(builder.take_block(), None);
}

#[test]
fn vec_blocks_on_demand() {
    let mut builder = BlockedVecBuilder::<false, u8>::new(0);
    builder.extend_from_slice(&[1, 2, 3]);
    builder.start_new_block();
    builder.push(4);
    assert!(builder.allocated_size() >= 4);
    assert_eq!(builder.take_block(), Some(vec![1, 2, 3]));
    assert_eq!(builder.take_block(), Some(vec![4]));
    assert_eq!(builder.take_block(), None);
}

fn strings(block: &ByteBlock<i32>) -> Vec<Option<String>> {
    block
        .offsets
        .windows(2)
        .enumerate()
        .map(|(i, w)| {
            let valid = match &block.nulls {
                Some(nulls) => nulls.is_valid(i),
                None => true,
            };
            if valid {
                let bytes = block.bytes[w[0] as usize..w[1] as usize].to_vec();
                Some(String::from_utf8(bytes).unwrap())
            } else {
                assert_eq!(w[0], w[1]);
                None
            }
        })
        .collect()
}

fn owned(items: &[Option<&str>]) -> Vec<Option<String>> {
    items.iter().map(|item| item.map(str::to_string)).collect()
}

#[test]
fn byte_array_blocks() {
    let mut builder = BlockedByteArrayBuilder::<true, i32>::new(2);
    builder.push(Some(b"one"));
    builder.push(None);
    builder.push_null();
    builder.push(Some(b""));
    builder.append_n_nulls(2);
    builder.push(Some(b"seven"));
    assert_eq!(builder.len(), 7);
    assert_eq!(builder.value(BlocksIndex::new(0, 0)), Some(b"one".as_slice()));
    assert_eq!(builder.value(BlocksIndex::new(0, 1)), None);
    assert_eq!(builder.value(BlocksIndex::new(1, 1)), Some(b"".as_slice()));
    assert_eq!(builder.value_bytes(BlocksIndex::new(3, 0)), b"seven");
    assert_eq!(builder.value_len(BlocksIndex::new(3, 0)), 5);
    assert!(builder.is_null(BlocksIndex::new(2, 0)));
    assert!(builder.is_valid(BlocksIndex::new(1, 1)));
    assert_eq!(builder.current_block_bytes_len(), 5);
    let expected = [
        vec![Some("one"), None],
        vec![None, Some("")],
        vec![None, None],
        vec![Some("seven")],
    ];
    for items in expected {
        let block = builder.take_block().unwrap();
        assert_eq!(strings(&block), owned(&items));
        assert_eq!(block.nulls.is_some(), items.contains(&None));
    }
    assert!(builder.take_block().is_none());
}

#[test]
fn byte_array_from_columns() {
    let words = ["alpha", "be", "", "gamma", "d", "epsilon", "zeta"];
    let bytes = words.concat().into_bytes();
    let mut offsets = vec![0i32];
    for word in words {
        offsets.push(offsets.last().unwrap() + word.len() as i32);
    }
    let nulls = NullBuffer::from(vec![true, true, true, false, true, false, true]);
    for block_size in 1..10 {
        let mut builder = BlockedByteArrayBuilder::<true, i32>::new(block_size);
        builder.push(Some(b"first"));
        builder.extends_from_array(&ByteColumn {
            offsets: &offsets,
            bytes: &bytes,
            nulls: None,
        });
        builder.extends_from_array(&ByteColumn {
            offsets: &offsets,
            bytes: &bytes,
            nulls: Some(&nulls),
        });
        // Part of a column: the offsets need not start at zero.
        builder.extends_from_array(&ByteColumn {
            offsets: &offsets[2..5],
            bytes: &bytes,
            nulls: None,
        });
        let mut expected = vec![Some("first")];
        expected.extend(words.map(Some));
        expected.extend([
            Some("alpha"),
            Some("be"),
            Some(""),
            None,
            Some("d"),
            None,
            Some("zeta"),
        ]);
        expected.extend([Some(""), Some("gamma")]);
        for items in expected.chunks(block_size) {
            assert_eq!(strings(&builder.take_block().unwrap()), owned(items));
        }
        assert!(builder.take_block().is_none());
    }
}

#[test]
fn byte_array_blocks_on_demand() {
    let mut builder = BlockedByteArrayBuilder::<false, i64>::new(1);
    let items = [Some(b"a".as_slice()), None, Some(b"bc".as_slice())];
    assert!(!builder.extend_items_in_block(&items, true));
    builder.start_new_block();
    builder.append_valid();
    builder.append_valid_slice(b"later");
    builder.append_n_valids(1);
    builder.append_valid_slice(b"!");
    assert!(builder.allocated_size() >= 9);
    let first = builder.take_block().unwrap();
    assert_eq!(first.offsets, vec![0, 1, 1, 3]);
    assert_eq!(first.bytes.as_slice(), b"abc");
    assert_eq!(first.nulls, Some(NullBuffer::from(vec![true, false, true])));
    let second = builder.take_block().unwrap();
    assert_eq!(second.offsets, vec![0, 5, 6]);
    assert_eq!(second.bytes.as_slice(), b"later!");
    assert_eq!(second.nulls, None);
    assert!(builder.take_block().is_none());
}

#[test]
fn items_can_be_added_in_parts() {
    let all = numbers(11, 50);
    for split in [0, 1, 17, 49, 50] {
        let mut at_once = BlockedVecBuilder::<true, usize>::new(8);
        at_once.extend_from_slice(&all);
        let mut in_parts = BlockedVecBuilder::<true, usize>::new(8);
        in_parts.extend_from_slice(&all[..split]);
        in_parts.extend(all[split..].to_vec().into_iter());
        let mut taken = vec![];
        loop {
            let block = at_once.take_block();
            assert_eq!(block, in_parts.take_block());
            match block {
                Some(block) => taken.extend(block),
                None => {
                    break;
                }
            }
        }
        // Nothing is lost.
        assert_eq!(taken, all);
    }
}

fn blocks<const FIXED: bool>(builder: &mut BlockedVecBuilder<FIXED, String>) -> Vec<Vec<String>> {
    let mut all = vec![];
    while let Some(block) = builder.take_block() {
        all.push(block);
    }
    all
}

fn slices_are_pushed<const FIXED: bool>(block_size: usize) {
    let words = ["a", "b", "c", "d", "e", "f"].map(str::to_string);
    for len in 0..words.len() {
        let mut extended = BlockedVecBuilder::<FIXED, String>::new(block_size);
        let mut pushed = BlockedVecBuilder::<FIXED, String>::new(block_size);
        for builder in [&mut extended, &mut pushed] {
            builder.push("first".to_string());
        }
        extended.extend_from_slice(&words[..len]);
        for word in &words[..len] {
            pushed.push(word.clone());
        }
        assert_eq!(extended.len(), 1 + len);
        assert_eq!(blocks(&mut extended), blocks(&mut pushed));
    }
}

#[test]
fn slice_is_pushed_item_by_item() {
    for block_size in 1..5 {
        slices_are_pushed::<true>(block_size);
    }
    slices_are_pushed::<false>(0);
}

#[test]
fn value_is_pushed_n_times() {
    for block_size in 1..5 {
        for (i, j) in [(0, 0), (0, 3), (4, 0), (3, 5)] {
            let mut at_once = BlockedVecBuilder::<true, String>::new(block_size);
            at_once.push_value_n("x".to_string(), i + j);
            let mut in_parts = BlockedVecBuilder::<true, String>::new(block_size);
            in_parts.push_value_n("x".to_string(), i);
            in_parts.push_value_n("x".to_string(), j);
            let mut pushed = BlockedVecBuilder::<true, String>::new(block_size);
            for _ in 0..i + j {
                pushed.push("x".to_string());
            }
            let expected = blocks(&mut pushed);
            assert_eq!(blocks(&mut at_once), expected);
            assert_eq!(blocks(&mut in_parts), expected);
        }
    }
}

#[test]
fn column_is_pushed_row_by_row() {
    let nulls = NullBuffer::from(vec![true, false, true, true, true]);
    let column = ByteColumn {
        offsets: &[0, 2, 4, 4, 5, 7],
        bytes: b"aabbcdd",
        nulls: Some(&nulls),
    };
    let rows = [
        Some(b"aa".as_slice()),
        None,
        Some(b"".as_slice()),
        Some(b"c".as_slice()),
        Some(b"dd".as_slice()),
    ];
    for block_size in 1..8 {
        let mut extended = BlockedByteArrayBuilder::<true, i32>::new(block_size);
        extended.push(Some(b"first"));
        extended.extends_from_array(&column);
        let mut pushed = BlockedByteArrayBuilder::<true, i32>::new(block_size);
        pushed.push(Some(b"first"));
        for row in rows {
            pushed.push(row);
        }
        assert_eq!(extended.len(), pushed.len());
        while let Some(block) = pushed.take_block() {
            let other = extended.take_block().unwrap();
            assert_eq!(strings(&other), strings(&block));
            assert_eq!(other.offsets, block.offsets);
        }
        assert!(extended.take_block().is_none());
    }
}

#[test]
fn positions_with_an_item() {
    let mut builder = BlockedVecBuilder::<true, u8>::new(2);
    builder.extend_from_slice(&[1, 2, 3]);
    assert!(builder.has_position(BlocksIndex::new(0, 1)));
    assert!(builder.has_position(BlocksIndex::new(1, 0)));
    assert!(!builder.has_position(BlocksIndex::new(0, 2)));
    assert!(!builder.has_position(BlocksIndex::new(1, 1)));
    assert!(!builder.has_position(BlocksIndex::new(2, 0)));
}

#[test]
fn single_items_close_full_blocks_without_fixed_sizing() {
    let mut bits = BlockedBooleanBuilder::<false>::new(2);
    bits.append(true);
    bits.append(false);
    bits.append(true);
    assert_eq!(bits.take_block(), Some(BooleanBuffer::from(vec![true, false])));
    assert_eq!(bits.take_block(), Some(BooleanBuffer::from(vec![true])));
    assert_eq!(bits.len(), 0);

    let mut nulls = BlockedNullsBuilder::<false>::new(2);
    nulls.push_non_null();
    nulls.push_null();
    nulls.push_non_null();
    nulls.push_non_null();
    // Longer than a full block.
    nulls.push_non_null();
    nulls.push_null();
    assert_eq!(
        nulls.take_block(),
        Some(Some(NullBuffer::from(vec![true, false])))
    );
    assert_eq!(
        nulls.take_block(),
        Some(Some(NullBuffer::from(vec![true, true, true, false])))
    );
}

#[test]
fn blocks_of_any_length_without_a_block_size() {
    let mut bits = BlockedBooleanBuilder::<false>::new(0);
    let mut nulls = BlockedNullsBuilder::<false>::new(0);
    for _ in 0..3 {
        bits.append(true);
        nulls.push_null();
    }
    assert_eq!(bits.take_block(), Some(BooleanBuffer::from(vec![true; 3])));
    assert_eq!(
        nulls.take_block(),
        Some(Some(NullBuffer::from(vec![false; 3])))
    );
}

#[test]
fn nulls_are_counted_off_but_for_one_in_a_block() {
    let mut nulls = BlockedNullsBuilder::<true>::new(3);
    nulls.push_n(7, true);
    assert_eq!(nulls.len(), 7);
    nulls.take_block();
    assert_eq!(nulls.len(), 5);
    nulls.take_block();
    assert_eq!(nulls.len(), 3);
    nulls.push_null();
    assert_eq!(nulls.len(), 4);
}

#[test]
fn len_is_added_less_taken() {
    let mut builder = BlockedVecBuilder::<false, u8>::new(0);
    builder.push(1);
    builder.push_value_n(2, 3);
    builder.start_new_block();
    builder.extend_from_slice(&[3, 4]);
    assert_eq!(builder.len(), 6);
    assert_eq!(builder.take_block().unwrap().len(), 4);
    assert_eq!(builder.len(), 2);
    builder.push(5);
    assert_eq!(builder.take_block_finished().unwrap().len(), 3);
    assert!(builder.is_empty());
    assert_eq!(builder.take_block_finished(), None);
    assert_eq!(builder.len(), 0);
}

#[test]
fn vector_of_blocks() {
    let vec = BlockedVec {
        blocks: vec![vec![1, 2], vec![3]],
        block_size: 2,
    };
    assert_eq!(vec.blocks.concat(), vec![1, 2, 3]);
    assert_eq!(vec.block_size, 2);
}
