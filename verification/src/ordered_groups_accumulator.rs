//! Batches whose rows are ordered by group: each group is a stretch of rows, and a group may go
//! on from one batch to the next.

use std::ops::Range;
use vstd::prelude::*;

verus! {

/// The rows of a group in a batch (`start..end`) and whether the group is the one that the
/// previous batch ended with.
#[derive(Debug, Clone, Copy, PartialEq, Eq, Structural)]
pub struct PartitionRange {
    /// The first row. With a limit, it need not be the end of the group before.
    pub start: usize,
    /// The row after the last one.
    pub end: usize,
    /// Whether the group is the same as the last one of the previous batch.
    pub is_same_as_before: bool,
}

impl PartitionRange {
    pub fn len(&self) -> (len: usize)
        requires
            self.start <= self.end,
        ensures
            len == self.end - self.start,
    {
        self.end - self.start
    }

    pub fn as_range(&self) -> (range: Range<usize>)
        ensures
            range.start == self.start,
            range.end == self.end,
    {
        self.start..self.end
    }
}

/// What is known of the groups of a batch.
#[derive(Debug)]
pub struct GroupsProperties {
    /// The groups that have a single row. When this is `0..num_groups`, every group has a single
    /// row, whether or not the first group is the same as before.
    pub range_of_single_item_groups: Range<usize>,
}

impl Clone for GroupsProperties {
    fn clone(&self) -> (properties: Self)
        ensures
            properties == *self,
    {
        let range = &self.range_of_single_item_groups;
        GroupsProperties { range_of_single_item_groups: range.start..range.end }
    }
}

/// Which groups of a batch have a single row.
#[derive(Debug, Clone, Copy, PartialEq, Eq, Structural)]
pub enum AllSingleItemType {
    All { first_group_is_same_as_before: bool },
    AllExceptFirst { first_group_is_same_as_before: bool },
    AllExceptLast,
    AllExceptFirstAndLast { first_group_is_same_as_before: bool },
}

/// The groups of a batch.
#[derive(Debug, Clone)]
pub struct GroupsInfo {
    groups: Vec<PartitionRange>,
    properties: GroupsProperties,
    total_number_of_groups: usize,
}

/// One thing to do for a batch: end the group in progress, or add rows to it.
#[derive(Debug, Clone, Copy, PartialEq, Eq, Structural)]
pub enum GroupStep {
    /// The group in progress is complete; a new one starts.
    FinishGroup,
    /// The rows belong to the group in progress.
    Accumulate { start: usize, end: usize },
}

/// What is to be done for the groups of a batch, in order.
///
/// The group in progress ends where the first group is a new one. Every group but the last is
/// complete; the last one stays in progress, since the next batch may go on with it.
pub open spec fn group_steps(groups: Seq<PartitionRange>) -> Seq<GroupStep> {
    if groups.len() == 0 {
        Seq::empty()
    } else if groups[0].is_same_as_before {
        row_steps(groups)
    } else {
        seq![GroupStep::FinishGroup] + row_steps(groups)
    }
}

/// The rows of each group, with the end of the group between them.
pub open spec fn row_steps(groups: Seq<PartitionRange>) -> Seq<GroupStep>
    decreases groups.len(),
{
    if groups.len() == 0 {
        Seq::empty()
    } else if groups.len() == 1 {
        seq![accumulate(groups[0])]
    } else {
        row_steps(groups.drop_last()).push(GroupStep::FinishGroup).push(accumulate(groups.last()))
    }
}

pub open spec fn accumulate(group: PartitionRange) -> GroupStep {
    GroupStep::Accumulate { start: group.start, end: group.end }
}

/// The group and the row of each row, for the first `n` groups.
pub open spec fn group_rows(groups: Seq<PartitionRange>, n: int) -> Seq<(usize, usize)>
    decreases n,
{
    if n <= 0 {
        Seq::empty()
    } else {
        group_rows(groups, n - 1) + rows_of((n - 1) as usize, groups[n - 1])
    }
}

/// The rows of one group.
pub open spec fn rows_of(group_index: usize, group: PartitionRange) -> Seq<(usize, usize)> {
    let len: nat = if group.start <= group.end {
        (group.end - group.start) as nat
    } else {
        0
    };
    Seq::new(len, |i: int| (group_index, (group.start + i) as usize))
}

/// What reacts to the groups of a batch.
///
/// What each method makes of the accumulator is said by the spec function of the same name.
pub trait ProcessGroups {
    type A;

    spec fn standalone_group(accumulator: Self::A, group: PartitionRange) -> Self::A;

    spec fn flushed(accumulator: Self::A, group: Option<PartitionRange>) -> Self::A;

    spec fn with_last_group(accumulator: Self::A, group: PartitionRange) -> Self::A;

    /// Called with the number of groups that are about to come. Does nothing, but can be overridden
    /// to reserve space for new groups.
    fn reserve_for_n_new_groups(accumulator: &mut Self::A, n: usize)
        default_ensures
            *final(accumulator) == *old(accumulator),
    {
    }

    /// Called for a new group, not the same as the previous one, that is contained in the
    /// current batch.
    fn on_new_standalone_group(accumulator: &mut Self::A, group: &PartitionRange)
        ensures
            *final(accumulator) == Self::standalone_group(*old(accumulator), *group),
    ;

    /// Called for a new group of one row that is contained in the current batch.
    fn on_new_single_item_group(accumulator: &mut Self::A, group: usize)
        requires
            group < usize::MAX,
        ensures
            *final(accumulator) == Self::standalone_group(
                *old(accumulator),
                (PartitionRange {
                    start: group,
                    end: (group + 1) as usize,
                    is_same_as_before: false,
                }),
            ),
    {
        Self::on_new_standalone_group(
            accumulator,
            &PartitionRange { start: group, end: group + 1, is_same_as_before: false },
        );
    }

    /// Finish the current group and flush it to the output. If `opt_group` is `Some`, add its
    /// rows to the group in progress first.
    fn flush_in_progress_group(accumulator: &mut Self::A, opt_group: Option<&PartitionRange>)
        ensures
            *final(accumulator) == Self::flushed(
                *old(accumulator),
                match opt_group {
                    Some(group) => Some(*group),
                    None => None,
                },
            ),
    ;

    /// Add the last group to the group in progress.
    fn add_last_group(accumulator: &mut Self::A, last_group: &PartitionRange)
        ensures
            *final(accumulator) == Self::with_last_group(*old(accumulator), *last_group),
    ;
}

/// The accumulator after the groups that are contained in a batch.
pub open spec fn with_standalone_groups<P: ProcessGroups>(
    accumulator: P::A,
    groups: Seq<PartitionRange>,
) -> P::A
    decreases groups.len(),
{
    if groups.len() == 0 {
        accumulator
    } else {
        P::standalone_group(
            with_standalone_groups::<P>(accumulator, groups.drop_last()),
            groups.last(),
        )
    }
}

/// The accumulator after the groups of a batch.
///
/// The group in progress is flushed, together with the first group if that is the same, as soon
/// as it is known to be complete. The groups between are contained in the batch; the last one
/// is in progress afterwards.
pub open spec fn processed<P: ProcessGroups>(
    accumulator: P::A,
    groups: Seq<PartitionRange>,
) -> P::A {
    if groups.len() == 0 {
        accumulator
    } else if groups.len() == 1 {
        let flushed = if groups[0].is_same_as_before {
            accumulator
        } else {
            P::flushed(accumulator, None)
        };
        P::with_last_group(flushed, groups[0])
    } else {
        let between = groups.subrange(1, groups.len() - 1);
        let after = if groups[0].is_same_as_before {
            with_standalone_groups::<P>(P::flushed(accumulator, Some(groups[0])), between)
        } else {
            with_standalone_groups::<P>(P::flushed(accumulator, None), groups.drop_last())
        };
        P::with_last_group(after, groups.last())
    }
}

impl GroupsInfo {
    /// The groups, in order.
    pub closed spec fn spec_groups(&self) -> Seq<PartitionRange> {
        self.groups@
    }

    /// Which groups have a single row.
    pub closed spec fn single_item_range(&self) -> Range<usize> {
        self.properties.range_of_single_item_groups
    }

    /// The number of groups so far.
    pub closed spec fn total(&self) -> usize {
        self.total_number_of_groups
    }

    /// The groups are what their properties say.
    pub open spec fn wf(&self) -> bool {
        let single = self.single_item_range();
        let groups = self.spec_groups();
        &&& single.start <= single.end <= groups.len()
        &&& forall|i: int| 0 <= i < groups.len() ==> (#[trigger] groups[i]).start <= groups[i].end
        &&& forall|i: int|
            single.start <= i < single.end ==> (#[trigger] groups[i]).end - groups[i].start == 1
    }

    /// All rows of the groups lie before row `num_rows`.
    pub open spec fn within(&self, num_rows: nat) -> bool {
        forall|i: int|
            0 <= i < self.spec_groups().len() ==> (#[trigger] self.spec_groups()[i]).end
                <= num_rows
    }

    pub fn new(
        groups: Vec<PartitionRange>,
        properties: GroupsProperties,
        total_number_of_groups: usize,
    ) -> (info: Self)
        ensures
            info.spec_groups() == groups@,
            info.single_item_range() == properties.range_of_single_item_groups,
            info.total() == total_number_of_groups,
    {
        GroupsInfo { groups, properties, total_number_of_groups }
    }

    pub fn properties(&self) -> (properties: &GroupsProperties)
        ensures
            properties.range_of_single_item_groups == self.single_item_range(),
    {
        &self.properties
    }

    pub fn groups(&self) -> (groups: &[PartitionRange])
        ensures
            groups@ == self.spec_groups(),
    {
        self.groups.as_slice()
    }

    /// The groups but the last one, and the last one.
    pub fn groups_without_last(&self) -> (groups: (&[PartitionRange], Option<&PartitionRange>))
        ensures
            self.spec_groups().len() == 0 ==> groups.0@ == Seq::<PartitionRange>::empty()
                && groups.1 is None,
            self.spec_groups().len() > 0 ==> {
                &&& groups.0@ == self.spec_groups().drop_last()
                &&& groups.1 == Some(&self.spec_groups().last())
            },
    {
        let len: usize = self.groups.len();
        if len == 0 {
            (self.groups.as_slice(), None)
        } else {
            (
                vstd::slice::slice_subrange(self.groups.as_slice(), 0, len - 1),
                Some(&self.groups[len - 1]),
            )
        }
    }

    /// The groups between the first and the last one.
    pub fn groups_without_first_and_last(&self) -> (groups: &[PartitionRange])
        ensures
            groups@ == if self.spec_groups().len() <= 2 {
                Seq::empty()
            } else {
                self.spec_groups().subrange(1, self.spec_groups().len() - 1)
            },
    {
        let len: usize = self.groups.len();
        if len <= 2 {
            let none = vstd::slice::slice_subrange(self.groups.as_slice(), 0, 0);
            assert(none@ =~= Seq::<PartitionRange>::empty());
            none
        } else {
            vstd::slice::slice_subrange(self.groups.as_slice(), 1, len - 1)
        }
    }

    /// Hands the groups to the processor, each at its place: see [`processed`].
    pub fn process<Processor: ProcessGroups>(&self, groups_accu: &mut Processor::A)
        ensures
            *final(groups_accu) == processed::<Processor>(*old(groups_accu), self.spec_groups()),
    {
        let ghost start = *groups_accu;
        let ghost groups = self.spec_groups();
        let len: usize = self.groups.len();
        if len == 0 {
            return;
        }
        if len == 1 {
            if !self.groups[0].is_same_as_before {
                Processor::flush_in_progress_group(groups_accu, None);
            }
            Processor::add_last_group(groups_accu, &self.groups[0]);
            return;
        }
        let same = self.groups[0].is_same_as_before;
        let mut next: usize = 0;
        if same {
            Processor::flush_in_progress_group(groups_accu, Some(&self.groups[0]));
            next = 1;
        } else {
            Processor::flush_in_progress_group(groups_accu, None);
        }
        let ghost first = next as int;
        let ghost flushed = *groups_accu;
        assert(groups.subrange(first, first) =~= Seq::<PartitionRange>::empty());
        while next < len - 1
            invariant
                groups == self.spec_groups(),
                len == groups.len(),
                0 <= first <= next <= len - 1,
                *groups_accu == with_standalone_groups::<Processor>(
                    flushed,
                    groups.subrange(first, next as int),
                ),
            decreases len - next,
        {
            proof {
                let grown = groups.subrange(first, next + 1);
                assert(grown.drop_last() =~= groups.subrange(first, next as int));
                assert(grown.last() == groups[next as int]);
            }
            Processor::on_new_standalone_group(groups_accu, &self.groups[next]);
            next += 1;
        }
        assert(!same ==> groups.subrange(0, len - 1) =~= groups.drop_last());
        Processor::add_last_group(groups_accu, &self.groups[len - 1]);
    }

    /// What is to be done for the groups, in order: see [`group_steps`].
    pub fn steps(&self) -> (steps: Vec<GroupStep>)
        ensures
            steps@ == group_steps(self.spec_groups()),
    {
        let ghost groups = self.spec_groups();
        let mut steps: Vec<GroupStep> = Vec::new();
        let len: usize = self.groups.len();
        if len == 0 {
            return steps;
        }
        if !self.groups[0].is_same_as_before {
            steps.push(GroupStep::FinishGroup);
        }
        let ghost first = steps@;
        let mut i: usize = 0;
        assert(groups.take(0) =~= Seq::<PartitionRange>::empty());
        while i < len
            invariant
                groups == self.groups@,
                len == groups.len(),
                0 <= i <= len,
                steps@ == first + row_steps(groups.take(i as int)),
            decreases len - i,
        {
            if i > 0 {
                steps.push(GroupStep::FinishGroup);
            }
            let group = self.groups[i];
            steps.push(GroupStep::Accumulate { start: group.start, end: group.end });
            proof {
                let grown = groups.take(i + 1);
                assert(grown.drop_last() =~= groups.take(i as int));
                assert(steps@ =~= first + row_steps(grown));
            }
            i += 1;
        }
        assert(groups.take(i as int) =~= groups);
        steps
    }

    /// The group index and the row index of each row.
    pub fn as_iter_of_group_indices(&self) -> (indices: Vec<(usize, usize)>)
        ensures
            indices@ == group_rows(self.spec_groups(), self.spec_groups().len() as int),
    {
        self.rows_of_first_groups(self.groups.len())
    }

    fn rows_of_first_groups(&self, n: usize) -> (indices: Vec<(usize, usize)>)
        requires
            n <= self.spec_groups().len(),
        ensures
            indices@ == group_rows(self.spec_groups(), n as int),
    {
        let mut indices: Vec<(usize, usize)> = Vec::new();
        let mut group_index: usize = 0;
        while group_index < n
            invariant
                0 <= group_index <= n <= self.groups@.len(),
                indices@ == group_rows(self.spec_groups(), group_index as int),
            decreases n - group_index,
        {
            let group = self.groups[group_index];
            let ghost done = indices@;
            let mut row: usize = group.start;
            assert(done + rows_of(group_index, group).take(0) =~= done);
            while row < group.end
                invariant
                    group.start <= row,
                    row <= group.end || row == group.start,
                    indices@ == done + rows_of(group_index, group).take(row - group.start),
                decreases group.end - row,
            {
                indices.push((group_index, row));
                assert(indices@ =~= done + rows_of(group_index, group).take(
                    row + 1 - group.start,
                ));
                row += 1;
            }
            proof {
                let all = rows_of(group_index, group);
                if group.start <= group.end {
                    assert(all.take(all.len() as int) =~= all);
                } else {
                    assert(all.take(0) =~= all);
                }
            }
            group_index += 1;
        }
        indices
    }

    /// The group index and the value of each row, the rows of the last group only where they are
    /// asked for.
    pub fn as_iter_of_group_indices_with_match<T: Copy>(
        &self,
        slice: &[T],
        include_last_group: bool,
    ) -> (pairs: Vec<(usize, T)>)
        requires
            self.within(slice@.len()),
        ensures
            ({
                let n = self.spec_groups().len();
                let rows = group_rows(
                    self.spec_groups(),
                    if include_last_group || n == 0 {
                        n as int
                    } else {
                        n - 1
                    },
                );
                &&& pairs@.len() == rows.len()
                &&& forall|i: int|
                    0 <= i < rows.len() ==> #[trigger] pairs@[i] == (
                        rows[i].0,
                        slice@[rows[i].1 as int],
                    )
            }),
    {
        let len: usize = self.groups.len();
        let n: usize = if include_last_group || len == 0 {
            len
        } else {
            len - 1
        };
        let rows: Vec<(usize, usize)> = self.rows_of_first_groups(n);
        let mut pairs: Vec<(usize, T)> = Vec::new();
        let mut i: usize = 0;
        while i < rows.len()
            invariant
                n <= self.spec_groups().len(),
                self.within(slice@.len()),
                rows@ == group_rows(self.spec_groups(), n as int),
                0 <= i <= rows@.len(),
                pairs@.len() == i,
                forall|k: int|
                    0 <= k < i ==> #[trigger] pairs@[k] == (
                        rows@[k].0,
                        slice@[rows@[k].1 as int],
                    ),
            decreases rows@.len() - i,
        {
            let (group_index, row) = rows[i];
            proof {
                lemma_group_rows(self.spec_groups(), n as int, i as int);
            }
            pairs.push((group_index, slice[row]));
            i += 1;
        }
        pairs
    }

    /// The number of groups so far.
    pub fn total_number_of_groups(&self) -> (total: usize)
        ensures
            total == self.total(),
    {
        self.total_number_of_groups
    }

    pub fn is_first_group_same_as_before(&self) -> (same: bool)
        requires
            self.spec_groups().len() > 0,
        ensures
            same == self.spec_groups()[0].is_same_as_before,
    {
        self.groups[0].is_same_as_before
    }

    /// If the entire input matches a single group.
    pub fn is_single_group(&self) -> (single: bool)
        ensures
            single == (self.spec_groups().len() == 1),
    {
        self.groups.len() == 1
    }

    pub fn are_all_single_item(&self) -> (all: bool)
        ensures
            all == (self.single_item_range().start == 0 && self.single_item_range().end
                == self.spec_groups().len()),
    {
        self.properties.range_of_single_item_groups.start == 0
            && self.properties.range_of_single_item_groups.end == self.groups.len()
    }

    pub fn are_all_single_item_except_first_group(&self) -> (all: bool)
        ensures
            all == (self.single_item_range().start == 1 && self.single_item_range().end
                == self.spec_groups().len()),
    {
        self.properties.range_of_single_item_groups.start == 1
            && self.properties.range_of_single_item_groups.end == self.groups.len()
    }

    /// All groups have a single row, save perhaps the first and the last one.
    pub fn are_all_single_item_ignoring_edges(&self) -> (all: bool)
        requires
            self.spec_groups().len() > 0,
        ensures
            all == (self.single_item_range().start <= 1 && self.single_item_range().end
                >= self.spec_groups().len() - 1),
    {
        self.properties.range_of_single_item_groups.start <= 1
            && self.properties.range_of_single_item_groups.end >= self.groups.len() - 1
    }

    /// When a batch contains the end of the last group and the start of a new one.
    pub fn is_boundry(&self) -> (boundry: bool)
        ensures
            boundry == (self.spec_groups().len() == 2),
    {
        self.groups.len() == 2
    }
}

/// Each row that is listed is a row of the group that it is listed with.
pub proof fn lemma_group_rows(groups: Seq<PartitionRange>, n: int, i: int)
    requires
        0 <= n <= groups.len(),
        n <= usize::MAX,
        0 <= i < group_rows(groups, n).len(),
    ensures
        ({
            let (group_index, row) = group_rows(groups, n)[i];
            &&& group_index < n
            &&& groups[group_index as int].start <= row < groups[group_index as int].end
        }),
    decreases n,
{
    if n > 0 {
        let before = group_rows(groups, n - 1);
        if i < before.len() {
            lemma_group_rows(groups, n - 1, i);
        } else {
            assert(group_rows(groups, n)[i] == rows_of(
                (n - 1) as usize,
                groups[n - 1],
            )[i - before.len()]);
        }
    }
}

/// Groups that are all single-row by their properties have a single row each.
pub proof fn law_single_item_groups(info: &GroupsInfo)
    requires
        info.wf(),
        info.single_item_range().start == 0,
        info.single_item_range().end == info.spec_groups().len(),
    ensures
        forall|i: int|
            0 <= i < info.spec_groups().len() ==> (#[trigger] info.spec_groups()[i]).end
                - info.spec_groups()[i].start == 1,
{
}

/// The rows that steps add, in order.
pub open spec fn accumulated(steps: Seq<GroupStep>) -> Seq<(usize, usize)>
    decreases steps.len(),
{
    if steps.len() == 0 {
        Seq::empty()
    } else {
        match steps.last() {
            GroupStep::FinishGroup => accumulated(steps.drop_last()),
            GroupStep::Accumulate { start, end } => accumulated(steps.drop_last()).push(
                (start, end),
            ),
        }
    }
}

/// How many groups steps finish.
pub open spec fn finished(steps: Seq<GroupStep>) -> nat
    decreases steps.len(),
{
    if steps.len() == 0 {
        0
    } else {
        finished(steps.drop_last()) + if steps.last() is FinishGroup {
            1nat
        } else {
            0nat
        }
    }
}

/// The steps of a batch add the rows of each group once, in order, and finish every group but the
/// last, and before them the group in progress where the first group is a new one.
pub proof fn law_steps_visit_every_group(groups: Seq<PartitionRange>)
    requires
        groups.len() > 0,
    ensures
        accumulated(group_steps(groups)) == groups.map_values(
            |group: PartitionRange| (group.start, group.end),
        ),
        finished(group_steps(groups)) == if groups[0].is_same_as_before {
            groups.len() - 1
        } else {
            groups.len() as int
        },
{
    let none = Seq::<GroupStep>::empty();
    let first = seq![GroupStep::FinishGroup];
    lemma_row_steps(none, groups);
    lemma_row_steps(first, groups);
    assert(none + row_steps(groups) =~= row_steps(groups));
    assert(first.drop_last() =~= none);
    reveal_with_fuel(accumulated, 2);
    reveal_with_fuel(finished, 2);
    let ranges = groups.map_values(|group: PartitionRange| (group.start, group.end));
    assert(Seq::<(usize, usize)>::empty() + ranges =~= ranges);
}

proof fn lemma_row_steps(before: Seq<GroupStep>, groups: Seq<PartitionRange>)
    ensures
        accumulated(before + row_steps(groups)) == accumulated(before) + groups.map_values(
            |group: PartitionRange| (group.start, group.end),
        ),
        groups.len() > 0 ==> finished(before + row_steps(groups)) == finished(before)
            + groups.len() - 1,
    decreases groups.len(),
{
    let range = |group: PartitionRange| (group.start, group.end);
    let ranges = groups.map_values(range);
    let all = before + row_steps(groups);
    if groups.len() == 0 {
        assert(all =~= before);
        assert(accumulated(before) + ranges =~= accumulated(before));
    } else {
        let last = accumulate(groups.last());
        lemma_row_steps(before, groups.drop_last());
        assert(ranges =~= groups.drop_last().map_values(range).push(range(groups.last())));
        if groups.len() == 1 {
            assert(all =~= before.push(last));
            assert(all.drop_last() =~= before);
            assert(accumulated(all) =~= accumulated(before) + ranges);
        } else {
            let inner = before + row_steps(groups.drop_last());
            let mid = inner.push(GroupStep::FinishGroup);
            assert(all =~= mid.push(last));
            assert(all.drop_last() =~= mid);
            assert(mid.drop_last() =~= inner);
            assert(accumulated(mid) == accumulated(inner));
            assert(finished(mid) == finished(inner) + 1);
            assert(accumulated(all) =~= accumulated(before) + ranges);
        }
    }
}

} // verus!
