//! One operation over values that are ordered by group.

use crate::collections::vec_allocated_size;
use crate::memory::covers;
use crate::ordered_groups_accumulator::{
    accumulate, group_steps, row_steps, GroupStep, GroupsInfo, PartitionRange,
};
use vstd::prelude::*;

verus! {

/// An operation that takes values up into a running value, such as a sum.
pub trait PrimitiveOp<N> {
    /// The running value with one more value.
    spec fn apply(&self, current: N, value: N) -> N;

    fn update(&self, current: &mut N, value: N)
        ensures
            *final(current) == self.apply(*old(current), value),
    ;
}

/// The sum, modulo the size of the type.
#[derive(Debug, Clone, Copy)]
pub struct WrappingSum;

impl PrimitiveOp<i64> for WrappingSum {
    open spec fn apply(&self, current: i64, value: i64) -> i64 {
        current.wrapping_add(value)
    }

    fn update(&self, current: &mut i64, value: i64) {
        *current = current.wrapping_add(value);
    }
}

/// The running value after some values.
pub open spec fn folded<N, F: PrimitiveOp<N>>(op: F, current: N, values: Seq<N>) -> N
    decreases values.len(),
{
    if values.len() == 0 {
        current
    } else {
        op.apply(folded(op, current, values.drop_last()), values.last())
    }
}

/// The values of the complete groups and the running value of the group in progress, after one
/// step.
pub open spec fn after_step<N, F: PrimitiveOp<N>>(
    op: F,
    starting: N,
    state: (Seq<N>, N),
    values: Seq<N>,
    step: GroupStep,
) -> (Seq<N>, N) {
    match step {
        GroupStep::FinishGroup => (state.0.push(state.1), starting),
        GroupStep::Accumulate { start, end } => (
            state.0,
            folded(op, state.1, values.subrange(start as int, end as int)),
        ),
    }
}

/// The same after several steps.
pub open spec fn after_steps<N, F: PrimitiveOp<N>>(
    op: F,
    starting: N,
    state: (Seq<N>, N),
    values: Seq<N>,
    steps: Seq<GroupStep>,
) -> (Seq<N>, N)
    decreases steps.len(),
{
    if steps.len() == 0 {
        state
    } else {
        after_step(
            op,
            starting,
            after_steps(op, starting, state, values, steps.drop_last()),
            values,
            steps.last(),
        )
    }
}

/// The rows of a group.
spec fn rows<N>(values: Seq<N>, group: PartitionRange) -> Seq<N> {
    values.subrange(group.start as int, group.end as int)
}

/// The value of each of the first `n` groups, the first one going on from `current`.
spec fn group_values<N, F: PrimitiveOp<N>>(
    op: F,
    starting: N,
    current: N,
    values: Seq<N>,
    groups: Seq<PartitionRange>,
    n: nat,
) -> Seq<N> {
    Seq::new(
        n,
        |i: int|
            folded(
                op,
                if i == 0 {
                    current
                } else {
                    starting
                },
                rows(values, groups[i]),
            ),
    )
}

proof fn lemma_one_step<N, F: PrimitiveOp<N>>(
    op: F,
    starting: N,
    state: (Seq<N>, N),
    values: Seq<N>,
    step: GroupStep,
)
    ensures
        after_steps(op, starting, state, values, seq![step]) == after_step(
            op,
            starting,
            state,
            values,
            step,
        ),
{
    reveal_with_fuel(after_steps, 2);
    assert(seq![step].drop_last() =~= Seq::<GroupStep>::empty());
}

/// Every group but the last gets its value; the last one is in progress.
proof fn lemma_row_steps<N, F: PrimitiveOp<N>>(
    op: F,
    starting: N,
    state: (Seq<N>, N),
    values: Seq<N>,
    groups: Seq<PartitionRange>,
)
    requires
        groups.len() > 0,
    ensures
        ({
            let n = (groups.len() - 1) as nat;
            after_steps(op, starting, state, values, row_steps(groups)) == (
                state.0 + group_values(op, starting, state.1, values, groups, n),
                folded(
                    op,
                    if n == 0 {
                        state.1
                    } else {
                        starting
                    },
                    rows(values, groups.last()),
                ),
            )
        }),
    decreases groups.len(),
{
    let steps = row_steps(groups);
    if groups.len() == 1 {
        lemma_one_step(op, starting, state, values, accumulate(groups[0]));
        assert(state.0 + group_values(op, starting, state.1, values, groups, 0) =~= state.0);
    } else {
        let init = groups.drop_last();
        lemma_row_steps(op, starting, state, values, init);
        let n = (groups.len() - 1) as nat;
        let before = row_steps(init);
        assert(steps.drop_last() =~= before.push(GroupStep::FinishGroup));
        assert(before.push(GroupStep::FinishGroup).drop_last() =~= before);
        let mid = after_steps(op, starting, state, values, before);
        assert(after_steps(op, starting, state, values, steps.drop_last()) == (
            mid.0.push(mid.1),
            starting,
        ));
        assert(mid.0.push(mid.1) =~= state.0 + group_values(
            op,
            starting,
            state.1,
            values,
            groups,
            n,
        )) by {
            let a = group_values(op, starting, state.1, values, init, (n - 1) as nat);
            let b = group_values(op, starting, state.1, values, groups, n);
            assert forall|i: int| 0 <= i < n - 1 implies a[i] == b[i] by {
                assert(init[i] == groups[i]);
            }
            assert(mid.1 == b[n - 1]);
        }
    }
}

/// Steps after steps are the steps one after the other.
pub proof fn lemma_after_steps_add<N, F: PrimitiveOp<N>>(
    op: F,
    starting: N,
    state: (Seq<N>, N),
    values: Seq<N>,
    a: Seq<GroupStep>,
    b: Seq<GroupStep>,
)
    ensures
        after_steps(op, starting, state, values, a + b) == after_steps(
            op,
            starting,
            after_steps(op, starting, state, values, a),
            values,
            b,
        ),
    decreases b.len(),
{
    if b.len() == 0 {
        assert(a + b =~= a);
    } else {
        assert((a + b).drop_last() =~= a + b.drop_last());
        lemma_after_steps_add(op, starting, state, values, a, b.drop_last());
    }
}

/// Taking up values in two parts is taking up all of them.
pub proof fn lemma_folded_add<N, F: PrimitiveOp<N>>(op: F, current: N, a: Seq<N>, b: Seq<N>)
    ensures
        folded(op, current, a + b) == folded(op, folded(op, current, a), b),
    decreases b.len(),
{
    if b.len() == 0 {
        assert(a + b =~= a);
    } else {
        assert((a + b).drop_last() =~= a + b.drop_last());
        lemma_folded_add(op, current, a, b.drop_last());
    }
}

/// Applies one operation over the values of each group, the state being of the type of the
/// values.
#[derive(Debug)]
pub struct PrimitiveOrderedGroupsAccumulator<N: Copy, F: PrimitiveOp<N>> {
    /// The values of the groups that are complete.
    ready_values: Vec<N>,
    /// The running value of the group in progress.
    in_progress: N,
    /// The starting value for new groups.
    starting_value: N,
    /// The operation.
    prim_fn: F,
}

impl<N: Copy, F: PrimitiveOp<N>> PrimitiveOrderedGroupsAccumulator<N, F> {
    /// The values of the complete groups and the running value of the group in progress.
    pub closed spec fn progress(&self) -> (Seq<N>, N) {
        (self.ready_values@, self.in_progress)
    }

    /// The starting value for new groups.
    pub closed spec fn starting(&self) -> N {
        self.starting_value
    }

    /// The operation.
    pub closed spec fn op(&self) -> F {
        self.prim_fn
    }

    /// An accumulator whose groups start from the default value.
    pub fn new(prim_fn: F) -> (accumulator: Self) where N: Default
        ensures
            accumulator.op() == prim_fn,
            accumulator.progress() == (Seq::<N>::empty(), accumulator.starting()),
            call_ensures(<N as Default>::default, (), accumulator.starting()),
    {
        let starting_value = <N as Default>::default();
        PrimitiveOrderedGroupsAccumulator {
            ready_values: Vec::new(),
            in_progress: starting_value,
            starting_value,
            prim_fn,
        }
    }

    /// Sets the starting value for new groups, the one in progress included.
    pub fn with_starting_value(self, starting_value: N) -> (accumulator: Self)
        ensures
            accumulator.op() == self.op(),
            accumulator.starting() == starting_value,
            accumulator.progress() == (self.progress().0, starting_value),
    {
        PrimitiveOrderedGroupsAccumulator {
            ready_values: self.ready_values,
            in_progress: starting_value,
            starting_value,
            prim_fn: self.prim_fn,
        }
    }

    /// `after` is this accumulator after the given steps.
    pub open spec fn stepped(&self, values: Seq<N>, steps: Seq<GroupStep>, after: &Self) -> bool {
        &&& after.op() == self.op()
        &&& after.starting() == self.starting()
        &&& after.progress() == after_steps(self.op(), self.starting(), self.progress(), values, steps)
    }

    /// Takes up the values of a batch.
    pub fn update_batch(&mut self, values: &[N], groups: &GroupsInfo)
        requires
            groups.wf(),
            groups.spec_groups().len() > 0,
            groups.within(values@.len()),
        ensures
            old(self).stepped(values@, group_steps(groups.spec_groups()), final(self)),
    {
        let ghost before = *self;
        let ghost all = groups.spec_groups();
        // The group in progress is complete if a new one starts.
        if !groups.is_first_group_same_as_before() {
            self.ready_values.push(self.in_progress);
            self.in_progress = self.starting_value;
        }
        let ghost state = self.progress();
        proof {
            lemma_group_steps(before.op(), before.starting(), before.progress(), values@, all);
        }
        if groups.is_single_group() {
            self.process_last_group(groups, values);
            assert(state.0 + group_values(
                before.op(),
                before.starting(),
                state.1,
                values@,
                all,
                0,
            ) =~= state.0);
        } else if groups.are_all_single_item_ignoring_edges() {
            self.update_batch_in_single_item(groups, values);
        } else {
            self.update_batch_group_by_group(groups, values);
        }
    }

    /// Takes up the values of a batch in which every group, save perhaps the first and the last
    /// one, has a single row. The first group goes on with the group in progress.
    fn update_batch_in_single_item(&mut self, groups: &GroupsInfo, values: &[N])
        requires
            groups.wf(),
            groups.spec_groups().len() > 1,
            groups.single_item_range().start <= 1,
            groups.single_item_range().end >= groups.spec_groups().len() - 1,
            groups.within(values@.len()),
        ensures
            final(self).op() == old(self).op(),
            final(self).starting() == old(self).starting(),
            final(self).progress() == (
                old(self).progress().0 + group_values(
                    old(self).op(),
                    old(self).starting(),
                    old(self).progress().1,
                    values@,
                    groups.spec_groups(),
                    (groups.spec_groups().len() - 1) as nat,
                ),
                folded(
                    old(self).op(),
                    old(self).starting(),
                    rows(values@, groups.spec_groups().last()),
                ),
            ),
    {
        let ghost before = *self;
        let ghost all = groups.spec_groups();
        let ghost op = before.op();
        let ghost n = (all.len() - 1) as nat;
        let ghost wanted = group_values(
            op,
            before.starting(),
            before.in_progress,
            values@,
            all,
            n,
        );
        let all_groups = groups.groups();
        let ready: usize = all_groups.len() - 1;
        // The first group goes on with the group in progress.
        let mut first_value = self.in_progress;
        self.in_progress = self.starting_value;
        self.fold_rows(&mut first_value, values, all_groups[0]);
        self.ready_values.push(first_value);
        assert(self.ready_values@ =~= before.ready_values@ + wanted.take(1));
        let mut i: usize = 1;
        while i < ready
            invariant
                groups.wf(),
                all == groups.spec_groups(),
                all_groups@ == all,
                ready == n == all.len() - 1,
                1 <= i <= ready,
                groups.single_item_range().start <= 1,
                groups.single_item_range().end >= ready,
                groups.within(values@.len()),
                self.starting_value == before.starting_value,
                self.in_progress == self.starting_value,
                self.prim_fn == before.prim_fn,
                op == before.prim_fn,
                wanted == group_values(
                    op,
                    before.starting_value,
                    before.in_progress,
                    values@,
                    all,
                    n,
                ),
                self.ready_values@ == before.ready_values@ + wanted.take(i as int),
            decreases ready - i,
        {
            assert(all[i as int].end - all[i as int].start == 1);
            let mut value = self.starting_value;
            let new_value = values[all_groups[i].start];
            self.prim_fn.update(&mut value, new_value);
            self.ready_values.push(value);
            proof {
                let row = rows(values@, all[i as int]);
                assert(row =~= seq![new_value]);
                assert(row.drop_last() =~= Seq::<N>::empty());
                assert(folded(op, before.starting_value, row.drop_last())
                    == before.starting_value);
                assert(self.ready_values@ =~= before.ready_values@ + wanted.take(i + 1));
            }
            i += 1;
        }
        assert(wanted.take(i as int) =~= wanted);
        self.process_last_group(groups, values);
    }

    /// Takes up the values of a batch, group by group. The first group goes on with the group in
    /// progress.
    fn update_batch_group_by_group(&mut self, groups: &GroupsInfo, values: &[N])
        requires
            groups.wf(),
            groups.spec_groups().len() > 1,
            groups.within(values@.len()),
        ensures
            final(self).op() == old(self).op(),
            final(self).starting() == old(self).starting(),
            final(self).progress() == (
                old(self).progress().0 + group_values(
                    old(self).op(),
                    old(self).starting(),
                    old(self).progress().1,
                    values@,
                    groups.spec_groups(),
                    (groups.spec_groups().len() - 1) as nat,
                ),
                folded(
                    old(self).op(),
                    old(self).starting(),
                    rows(values@, groups.spec_groups().last()),
                ),
            ),
    {
        let ghost before = *self;
        let ghost all = groups.spec_groups();
        let ghost op = before.op();
        let ghost n = (all.len() - 1) as nat;
        let ghost wanted = group_values(
            op,
            before.starting(),
            before.in_progress,
            values@,
            all,
            n,
        );
        let all_groups = groups.groups();
        let ready: usize = all_groups.len() - 1;
        let mut i: usize = 0;
        assert(before.ready_values@ + wanted.take(0) =~= before.ready_values@);
        while i < ready
            invariant
                groups.wf(),
                all == groups.spec_groups(),
                all_groups@ == all,
                ready == n == all.len() - 1,
                0 <= i <= ready,
                groups.within(values@.len()),
                self.starting_value == before.starting_value,
                self.in_progress == if i == 0 {
                    before.in_progress
                } else {
                    self.starting_value
                },
                self.prim_fn == before.prim_fn,
                op == before.prim_fn,
                wanted == group_values(
                    op,
                    before.starting_value,
                    before.in_progress,
                    values@,
                    all,
                    n,
                ),
                self.ready_values@ == before.ready_values@ + wanted.take(i as int),
            decreases ready - i,
        {
            assert(all[i as int].end <= values@.len());
            let mut value = self.in_progress;
            self.fold_rows(&mut value, values, all_groups[i]);
            self.ready_values.push(value);
            self.in_progress = self.starting_value;
            assert(self.ready_values@ =~= before.ready_values@ + wanted.take(i + 1));
            i += 1;
        }
        assert(wanted.take(i as int) =~= wanted);
        self.process_last_group(groups, values);
    }

    /// Takes the rows of a group up into a running value.
    fn fold_rows(&self, value: &mut N, values: &[N], group: PartitionRange)
        requires
            group.start <= group.end <= values@.len(),
        ensures
            *final(value) == folded(self.prim_fn, *old(value), rows(values@, group)),
    {
        let ghost start = *value;
        let ghost all = rows(values@, group);
        let mut row: usize = group.start;
        assert(all.take(0) =~= Seq::<N>::empty());
        while row < group.end
            invariant
                group.start <= row <= group.end <= values@.len(),
                all == rows(values@, group),
                *value == folded(self.prim_fn, start, all.take(row - group.start)),
            decreases group.end - row,
        {
            proof {
                let grown = all.take(row + 1 - group.start);
                assert(grown.drop_last() =~= all.take(row - group.start));
                assert(grown.last() == values@[row as int]);
            }
            self.prim_fn.update(value, values[row]);
            row += 1;
        }
        assert(all.take(all.len() as int) =~= all);
    }

    /// Takes the rows of the last group up into the group in progress.
    fn process_last_group(&mut self, groups: &GroupsInfo, values: &[N])
        requires
            groups.wf(),
            groups.spec_groups().len() > 0,
            groups.within(values@.len()),
        ensures
            final(self).ready_values == old(self).ready_values,
            final(self).starting_value == old(self).starting_value,
            final(self).prim_fn == old(self).prim_fn,
            final(self).in_progress == folded(
                old(self).prim_fn,
                old(self).in_progress,
                rows(values@, groups.spec_groups().last()),
            ),
    {
        let all_groups = groups.groups();
        let last = all_groups[all_groups.len() - 1];
        let mut value = self.in_progress;
        proof {
            let i = groups.spec_groups().len() - 1;
            assert(groups.spec_groups()[i].end <= values@.len());
        }
        self.fold_rows(&mut value, values, last);
        self.in_progress = value;
    }

    /// Takes up a batch of states, which are values of the same kind.
    pub fn merge_batch(&mut self, values: &[N], groups: &GroupsInfo)
        requires
            groups.wf(),
            groups.spec_groups().len() > 0,
            groups.within(values@.len()),
        ensures
            old(self).stepped(values@, group_steps(groups.spec_groups()), final(self)),
    {
        self.update_batch(values, groups);
    }

    /// Takes the values of the complete groups, and that of the group in progress where it is
    /// asked for.
    pub fn evaluate(&mut self, take_in_progress: bool) -> (values: Vec<N>)
        ensures
            values@ == if take_in_progress {
                old(self).progress().0.push(old(self).progress().1)
            } else {
                old(self).progress().0
            },
            final(self).op() == old(self).op(),
            final(self).starting() == old(self).starting(),
            final(self).progress() == (
                Seq::<N>::empty(),
                if take_in_progress {
                    old(self).starting()
                } else {
                    old(self).progress().1
                },
            ),
    {
        if take_in_progress {
            self.ready_values.push(self.in_progress);
            self.in_progress = self.starting_value;
        }
        let mut values: Vec<N> = Vec::new();
        core::mem::swap(&mut self.ready_values, &mut values);
        values
    }

    /// Takes values as [`Self::evaluate`] does, as the one column of a state.
    pub fn state(&mut self, take_in_progress: bool) -> (columns: Vec<Vec<N>>)
        ensures
            columns@.len() == 1,
            columns@[0]@ == if take_in_progress {
                old(self).progress().0.push(old(self).progress().1)
            } else {
                old(self).progress().0
            },
            final(self).op() == old(self).op(),
            final(self).starting() == old(self).starting(),
            final(self).progress() == (
                Seq::<N>::empty(),
                if take_in_progress {
                    old(self).starting()
                } else {
                    old(self).progress().1
                },
            ),
    {
        let values: Vec<N> = self.evaluate(take_in_progress);
        let mut columns: Vec<Vec<N>> = Vec::new();
        columns.push(values);
        columns
    }

    /// Heap bytes that the values of the complete groups have allocated.
    pub fn size(&self) -> (bytes: usize)
        ensures
            covers(bytes, vstd::layout::size_of::<N>() * self.progress().0.len()),
    {
        vec_allocated_size(&self.ready_values)
    }
}

/// The groups, `by` rows later.
pub open spec fn moved(groups: Seq<PartitionRange>, by: int) -> Seq<PartitionRange> {
    groups.map_values(
        |group: PartitionRange|
            PartitionRange {
                start: (group.start + by) as usize,
                end: (group.end + by) as usize,
                is_same_as_before: group.is_same_as_before,
            },
    )
}

/// The steps of a batch: those of its rows, after the end of the group in progress where the
/// first group is a new one.
proof fn lemma_group_steps<N, F: PrimitiveOp<N>>(
    op: F,
    starting: N,
    state: (Seq<N>, N),
    values: Seq<N>,
    groups: Seq<PartitionRange>,
)
    requires
        groups.len() > 0,
    ensures
        ({
            let begun = if groups[0].is_same_as_before {
                state
            } else {
                (state.0.push(state.1), starting)
            };
            let n = (groups.len() - 1) as nat;
            after_steps(op, starting, state, values, group_steps(groups)) == (
                begun.0 + group_values(op, starting, begun.1, values, groups, n),
                folded(
                    op,
                    if n == 0 {
                        begun.1
                    } else {
                        starting
                    },
                    rows(values, groups.last()),
                ),
            )
        }),
{
    if groups[0].is_same_as_before {
        lemma_row_steps(op, starting, state, values, groups);
    } else {
        let finish = seq![GroupStep::FinishGroup];
        lemma_one_step(op, starting, state, values, GroupStep::FinishGroup);
        lemma_after_steps_add(op, starting, state, values, finish, row_steps(groups));
        lemma_row_steps(op, starting, (state.0.push(state.1), starting), values, groups);
    }
}

/// It does not matter where a batch ends: a batch whose last group goes on in the next one gives,
/// together with the next one, what one batch with all the rows gives.
///
/// The batches have the values `a` and `b`. The first has the groups `before` and then one with
/// the rows from `start` on; the second goes on with that group up to row `end`, and then has the
/// groups `after`.
pub proof fn law_batches_can_be_split<N, F: PrimitiveOp<N>>(
    op: F,
    starting: N,
    state: (Seq<N>, N),
    a: Seq<N>,
    b: Seq<N>,
    before: Seq<PartitionRange>,
    start: usize,
    is_same_as_before: bool,
    end: usize,
    after: Seq<PartitionRange>,
)
    requires
        start <= a.len(),
        end <= b.len(),
        a.len() + b.len() <= usize::MAX,
        forall|i: int|
            0 <= i < before.len() ==> (#[trigger] before[i]).start <= before[i].end <= a.len(),
        forall|i: int|
            0 <= i < after.len() ==> (#[trigger] after[i]).start <= after[i].end <= b.len(),
    ensures
        ({
            let first = PartitionRange { start, end: a.len() as usize, is_same_as_before };
            let second = PartitionRange { start: 0, end, is_same_as_before: true };
            let whole = PartitionRange {
                start,
                end: (a.len() + end) as usize,
                is_same_as_before,
            };
            after_steps(
                op,
                starting,
                after_steps(op, starting, state, a, group_steps(before.push(first))),
                b,
                group_steps(seq![second] + after),
            ) == after_steps(
                op,
                starting,
                state,
                a + b,
                group_steps(before.push(whole) + moved(after, a.len() as int)),
            )
        }),
{
    let first = PartitionRange { start, end: a.len() as usize, is_same_as_before };
    let second = PartitionRange { start: 0, end, is_same_as_before: true };
    let whole = PartitionRange { start, end: (a.len() + end) as usize, is_same_as_before };
    let ga = before.push(first);
    let gb = seq![second] + after;
    let gw = before.push(whole) + moved(after, a.len() as int);
    let n = before.len() as int;
    let m = after.len() as int;
    let all = a + b;
    let mid = after_steps(op, starting, state, a, group_steps(ga));
    lemma_group_steps(op, starting, state, a, ga);
    lemma_group_steps(op, starting, mid, b, gb);
    lemma_group_steps(op, starting, state, all, gw);
    let begun = if ga[0].is_same_as_before {
        state
    } else {
        (state.0.push(state.1), starting)
    };
    let base = if n == 0 {
        begun.1
    } else {
        starting
    };
    // The group at the border has its rows in both batches.
    assert(rows(all, whole) =~= rows(a, first) + rows(b, second));
    lemma_folded_add(op, base, rows(a, first), rows(b, second));
    assert(mid.1 == folded(op, base, rows(a, first)));
    let va = group_values(op, starting, begun.1, a, ga, n as nat);
    let vb = group_values(op, starting, mid.1, b, gb, m as nat);
    let vw = group_values(op, starting, begun.1, all, gw, (n + m) as nat);
    assert forall|i: int| 0 <= i < n implies rows(all, #[trigger] before[i]) == rows(
        a,
        before[i],
    ) by {
        assert(rows(all, before[i]) =~= rows(a, before[i]));
    }
    assert forall|j: int| 0 <= j < m implies rows(
        all,
        #[trigger] moved(after, a.len() as int)[j],
    ) == rows(b, after[j]) by {
        assert(rows(all, moved(after, a.len() as int)[j]) =~= rows(b, after[j]));
    }
    assert(vw =~= va + vb) by {
        assert forall|i: int| 0 <= i < n + m implies vw[i] == (va + vb)[i] by {
            if i < n {
                assert(gw[i] == before[i]);
                assert(ga[i] == before[i]);
            } else if i == n {
                assert(gw[i] == whole);
                assert(gb[0] == second);
            } else {
                assert(gw[i] == moved(after, a.len() as int)[i - n - 1]);
                assert(gb[i - n] == after[i - n - 1]);
            }
        }
    }
    assert(begun.0 + va + vb =~= begun.0 + vw);
    if m == 0 {
        assert(gw.last() == whole);
        assert(gb.last() == second);
    } else {
        assert(gw.last() == moved(after, a.len() as int)[m - 1]);
        assert(gb.last() == after[m - 1]);
    }
}

} // verus!
