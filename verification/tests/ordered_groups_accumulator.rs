use blocked_groups::ordered_groups_accumulator::{
    GroupStep, GroupsInfo, GroupsProperties, PartitionRange, ProcessGroups,
};

fn group(start: usize, end: usize, is_same_as_before: bool) -> PartitionRange {
    PartitionRange {
        start,
        end,
        is_same_as_before,
    }
}

fn info(groups: Vec<PartitionRange>, single: std::ops::Range<usize>) -> GroupsInfo {
    let total = groups.len();
    GroupsInfo::new(
        groups,
        GroupsProperties {
            range_of_single_item_groups: single,
        },
        total,
    )
}

/// Writes down what it is called with.
struct Recorder;

impl ProcessGroups for Recorder {
    type A = Vec<String>;

    fn standalone_group(_: Vec<String>, _: PartitionRange) -> Vec<String> {
        unreachable!()
    }

    fn flushed(_: Vec<String>, _: Option<PartitionRange>) -> Vec<String> {
        unreachable!()
    }

    fn with_last_group(_: Vec<String>, _: PartitionRange) -> Vec<String> {
        unreachable!()
    }

    fn on_new_standalone_group(log: &mut Vec<String>, group: &PartitionRange) {
        log.push(format!("standalone {}..{}", group.start, group.end));
    }

    fn flush_in_progress_group(log: &mut Vec<String>, opt_group: Option<&PartitionRange>) {
        match opt_group {
            Some(group) => log.push(format!("flush with {}..{}", group.start, group.end)),
            None => log.push("flush".to_string()),
        }
    }

    fn add_last_group(log: &mut Vec<String>, last_group: &PartitionRange) {
        log.push(format!("last {}..{}", last_group.start, last_group.end));
    }
}

#[test]
fn process_new_first_group() {
    let mut log = vec![];
    info(
        vec![group(0, 2, false), group(2, 3, false), group(3, 6, false)],
        1..2,
    )
    .process::<Recorder>(&mut log);
    assert_eq!(
        log,
        vec!["flush", "standalone 0..2", "standalone 2..3", "last 3..6"]
    );
}

#[test]
fn process_same_first_group() {
    let mut log = vec![];
    info(
        vec![group(0, 2, true), group(2, 3, false), group(3, 6, false)],
        1..2,
    )
    .process::<Recorder>(&mut log);
    assert_eq!(
        log,
        vec!["flush with 0..2", "standalone 2..3", "last 3..6"]
    );
}

#[test]
fn process_single_group() {
    let mut log = vec![];
    info(vec![group(0, 2, true)], 0..0).process::<Recorder>(&mut log);
    assert_eq!(log, vec!["last 0..2"]);
    let mut log = vec![];
    info(vec![group(0, 2, false)], 0..0).process::<Recorder>(&mut log);
    assert_eq!(log, vec!["flush", "last 0..2"]);
    let mut log = vec![];
    info(vec![], 0..0).process::<Recorder>(&mut log);
    assert!(log.is_empty());
}

#[test]
fn steps_finish_groups_in_between() {
    assert_eq!(
        info(vec![group(0, 2, true), group(2, 5, false)], 0..0).steps(),
        vec![
            GroupStep::Accumulate { start: 0, end: 2 },
            GroupStep::FinishGroup,
            GroupStep::Accumulate { start: 2, end: 5 },
        ]
    );
    assert_eq!(
        info(vec![group(0, 2, false)], 0..0).steps(),
        vec![
            GroupStep::FinishGroup,
            GroupStep::Accumulate { start: 0, end: 2 },
        ]
    );
    assert_eq!(info(vec![], 0..0).steps(), vec![]);
}

#[test]
fn group_indices() {
    let groups = info(vec![group(0, 2, true), group(2, 3, false)], 1..2);
    assert_eq!(
        groups.as_iter_of_group_indices(),
        vec![(0, 0), (0, 1), (1, 2)]
    );
    assert_eq!(
        groups.as_iter_of_group_indices_with_match(&['a', 'b', 'c'], true),
        vec![(0, 'a'), (0, 'b'), (1, 'c')]
    );
    assert_eq!(
        groups.as_iter_of_group_indices_with_match(&['a', 'b', 'c'], false),
        vec![(0, 'a'), (0, 'b')]
    );
}

#[test]
fn parts_of_the_groups() {
    let all = vec![group(0, 1, true), group(1, 2, false), group(2, 3, false)];
    let groups = info(all.clone(), 0..3);
    assert_eq!(groups.groups(), all.as_slice());
    assert_eq!(
        groups.groups_without_last(),
        (&all[..2], Some(&group(2, 3, false)))
    );
    assert_eq!(groups.groups_without_first_and_last(), &all[1..2]);
    assert_eq!(groups.total_number_of_groups(), 3);
    assert_eq!(groups.properties().range_of_single_item_groups, 0..3);
    assert!(groups.is_first_group_same_as_before());
    assert!(!groups.is_single_group());
    assert!(!groups.is_boundry());
    assert_eq!(group(2, 5, false).len(), 3);
    assert_eq!(group(2, 5, false).as_range(), 2..5);
}

#[test]
fn single_item_groups() {
    let all = vec![group(0, 1, true), group(1, 2, false), group(2, 3, false)];
    let groups = info(all.clone(), 0..3);
    assert!(groups.are_all_single_item());
    assert!(!groups.are_all_single_item_except_first_group());
    assert!(groups.are_all_single_item_ignoring_edges());
    let groups = info(all.clone(), 1..3);
    assert!(!groups.are_all_single_item());
    assert!(groups.are_all_single_item_except_first_group());
    assert!(groups.are_all_single_item_ignoring_edges());
    let groups = info(all, 1..2);
    assert!(!groups.are_all_single_item_except_first_group());
    assert!(groups.are_all_single_item_ignoring_edges());
}

#[test]
fn reserving_does_nothing_by_default() {
    let mut log = vec!["flush".to_string()];
    Recorder::reserve_for_n_new_groups(&mut log, 3);
    assert_eq!(log, vec!["flush"]);
    Recorder::on_new_single_item_group(&mut log, 5);
    assert_eq!(log, vec!["flush", "standalone 5..6"]);
}
