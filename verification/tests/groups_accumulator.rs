use blocked_groups::groups_accumulator::enumerate_blocked::EnumerateBlockedIteratorExt;
use blocked_groups::groups_accumulator::BlocksIndex;

#[test]
fn positions() {
    let position = BlocksIndex::from_index_in_fixed_block_size(11, 4);
    assert_eq!(position, BlocksIndex::new(2, 3));
    assert_eq!(position.block_index(), 2);
    assert_eq!(position.index_in_block(), 3);
    assert_eq!(position.next_fixed(4), BlocksIndex::new(3, 0));
    assert_eq!(position.next_index_in_block(), BlocksIndex::new(2, 4));
    assert_eq!(position.add_fixed(6, 4), BlocksIndex::new(4, 1));
    assert_eq!(BlocksIndex::new_in_first_block(7), BlocksIndex::new(0, 7));
    assert_eq!(BlocksIndex::default(), BlocksIndex::new(0, 0));
}

#[test]
fn going_back_undoes_going_on() {
    let mut position = BlocksIndex::default();
    for i in 0..20 {
        assert_eq!(position, BlocksIndex::from_index_in_fixed_block_size(i, 3));
        let mut next = position;
        next.next_mut_fixed(3);
        let mut back = next;
        back.prev_mut_fixed(3);
        assert_eq!(back, position);
        position = next;
    }
}

#[test]
fn items_with_positions() {
    let mut items = vec!['a', 'b', 'c', 'd', 'e'].into_iter().enumerate_blocked(2);
    assert_eq!(items.next(), Some((BlocksIndex::new(0, 0), 'a')));
    assert_eq!(items.nth(1), Some((BlocksIndex::new(1, 0), 'c')));
    assert_eq!(items.len(), 2);
    assert_eq!(items.next_back(), Some((BlocksIndex::new(2, 0), 'e')));
    assert_eq!(items.next(), Some((BlocksIndex::new(1, 1), 'd')));
    assert_eq!(items.next(), None);
    assert_eq!(items.next_back(), None);
}

#[test]
fn items_from_the_back() {
    let mut items = (0..10).collect::<Vec<_>>().into_iter().enumerate_blocked(4);
    assert_eq!(items.nth_back(2), Some((BlocksIndex::new(1, 3), 7)));
    assert_eq!(items.nth_back(7), None);
    assert_eq!(items.len(), 0);
    let mut items = (0..10).collect::<Vec<_>>().into_iter().enumerate_blocked(4);
    assert_eq!(items.nth(10), None);
    assert_eq!(items.next(), None);
}

#[test]
fn all_items_with_positions() {
    let items = vec!["x", "y", "z"].into_iter().enumerate_blocked(2);
    let all = items.fold(String::new(), |acc, (position, item)| {
        format!(
            "{acc}{item}{}.{} ",
            position.block_index, position.index_in_block
        )
    });
    assert_eq!(all, "x0.0 y0.1 z1.0 ");
    let items = vec!["x", "y", "z"].into_iter().enumerate_blocked(2);
    let all = items.rfold(String::new(), |acc, (position, item)| {
        format!(
            "{acc}{item}{}.{} ",
            position.block_index, position.index_in_block
        )
    });
    assert_eq!(all, "z1.0 y0.1 x0.0 ");
    assert_eq!(vec![1, 2, 3].into_iter().enumerate_blocked(9).count(), 3);
}

#[test]
fn number_of_items_that_are_left() {
    let mut items = vec!['a', 'b', 'c'].into_iter().enumerate_blocked(2);
    assert_eq!(items.size_hint(), (3, Some(3)));
    items.next();
    assert_eq!(items.size_hint(), (2, Some(2)));
    let even = (0..10).filter(|i| i % 2 == 0).enumerate_blocked(2);
    assert_eq!(even.size_hint(), (0, Some(10)));
    assert_eq!(even.count(), 5);
}

#[test]
fn kth_item_has_the_kth_position() {
    let mut items = (100..117).collect::<Vec<_>>().into_iter().enumerate_blocked(5);
    for k in 0..17 {
        assert_eq!(items.next(), Some((BlocksIndex::new(k / 5, k % 5), 100 + k)));
    }
    assert_eq!(items.next(), None);
    assert_eq!(items.next(), None);
}

#[test]
fn from_the_back_is_the_reverse() {
    let items = || {
        let mut items = (0..13).collect::<Vec<_>>().into_iter().enumerate_blocked(4);
        items.next();
        items.next();
        items
    };
    let push = |mut all: Vec<(BlocksIndex, i32)>, pair| {
        all.push(pair);
        all
    };
    let forwards = items().fold(vec![], push);
    let mut backwards = items().rfold(vec![], push);
    backwards.reverse();
    assert_eq!(forwards, backwards);
    assert_eq!(forwards[0], (BlocksIndex::new(0, 2), 2));
}
