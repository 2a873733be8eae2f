//! What holds of batches whose rows are ordered by group, and of what is made of them.

use crate::aggregate::prim_op::{
    after_steps, folded, PrimitiveOp, PrimitiveOrderedGroupsAccumulator, WrappingSum,
};
use crate::ordered_groups_accumulator::{
    group_rows, group_steps, processed, row_steps, rows_of, with_standalone_groups, GroupStep,
    PartitionRange, ProcessGroups,
};
use vstd::prelude::*;

verus! {

/// Whether a batch first ends the group in progress: 1 if its first group is a new one, else 0.
pub open spec fn ended_first(groups: Seq<PartitionRange>) -> int {
    if groups[0].is_same_as_before {
        0
    } else {
        1
    }
}

/// One call of a processor.
pub enum Call {
    /// The group in progress is flushed as it is.
    Flush,
    /// The rows of a group are added to the group in progress, which is then flushed.
    FlushWith(PartitionRange),
    /// A group that lies within the batch.
    Standalone(PartitionRange),
    /// The rows of a group are added to the group in progress.
    AddLast(PartitionRange),
}

/// What a call makes of the accumulator.
pub open spec fn after_call<P: ProcessGroups>(accumulator: P::A, call: Call) -> P::A {
    match call {
        Call::Flush => P::flushed(accumulator, None),
        Call::FlushWith(group) => P::flushed(accumulator, Some(group)),
        Call::Standalone(group) => P::standalone_group(accumulator, group),
        Call::AddLast(group) => P::with_last_group(accumulator, group),
    }
}

/// What calls make of the accumulator, one after the other.
pub open spec fn after_calls<P: ProcessGroups>(accumulator: P::A, calls: Seq<Call>) -> P::A
    decreases calls.len(),
{
    if calls.len() == 0 {
        accumulator
    } else {
        after_call::<P>(after_calls::<P>(accumulator, calls.drop_last()), calls.last())
    }
}

/// The groups that calls hand over, in order.
pub open spec fn handed_over(calls: Seq<Call>) -> Seq<PartitionRange>
    decreases calls.len(),
{
    if calls.len() == 0 {
        Seq::empty()
    } else {
        let before = handed_over(calls.drop_last());
        match calls.last() {
            Call::Flush => before,
            Call::FlushWith(group) => before.push(group),
            Call::Standalone(group) => before.push(group),
            Call::AddLast(group) => before.push(group),
        }
    }
}

/// How often calls flush the group in progress.
pub open spec fn flushes(calls: Seq<Call>) -> nat
    decreases calls.len(),
{
    if calls.len() == 0 {
        0
    } else {
        flushes(calls.drop_last()) + match calls.last() {
            Call::Flush => 1nat,
            Call::FlushWith(_) => 1nat,
            _ => 0nat,
        }
    }
}

/// The call that hands over the `i`-th group.
spec fn call_for(groups: Seq<PartitionRange>, i: int) -> Call {
    if i == groups.len() - 1 {
        Call::AddLast(groups[i])
    } else if i == 0 && groups[0].is_same_as_before {
        Call::FlushWith(groups[0])
    } else {
        Call::Standalone(groups[i])
    }
}

/// The calls for the first `n` groups.
spec fn calls_for(groups: Seq<PartitionRange>, n: int) -> Seq<Call> {
    let calls = Seq::new(n as nat, |i: int| call_for(groups, i));
    if groups[0].is_same_as_before {
        calls
    } else {
        seq![Call::Flush] + calls
    }
}

proof fn lemma_calls<P: ProcessGroups>(accumulator: P::A, groups: Seq<PartitionRange>, n: int)
    requires
        0 <= n < groups.len(),
    ensures
        handed_over(calls_for(groups, n)) == groups.take(n),
        flushes(calls_for(groups, n)) == if groups[0].is_same_as_before && n == 0 {
            0nat
        } else {
            1
        },
        after_calls::<P>(accumulator, calls_for(groups, n)) == if groups[0].is_same_as_before {
            if n == 0 {
                accumulator
            } else {
                with_standalone_groups::<P>(
                    P::flushed(accumulator, Some(groups[0])),
                    groups.subrange(1, n),
                )
            }
        } else {
            with_standalone_groups::<P>(P::flushed(accumulator, None), groups.take(n))
        },
    decreases n,
{
    let calls = calls_for(groups, n);
    if n == 0 {
        assert(groups.take(0) =~= Seq::<PartitionRange>::empty());
        reveal_with_fuel(after_calls, 2);
        reveal_with_fuel(handed_over, 2);
        reveal_with_fuel(flushes, 2);
        if groups[0].is_same_as_before {
            assert(calls =~= Seq::<Call>::empty());
        } else {
            assert(calls =~= seq![Call::Flush]);
            assert(calls.drop_last() =~= Seq::<Call>::empty());
        }
    } else {
        lemma_calls::<P>(accumulator, groups, n - 1);
        assert(calls.drop_last() =~= calls_for(groups, n - 1));
        assert(calls.last() == call_for(groups, n - 1));
        assert(groups.take(n) =~= groups.take(n - 1).push(groups[n - 1]));
        assert(groups.take(n).drop_last() =~= groups.take(n - 1));
        if groups[0].is_same_as_before {
            if n == 1 {
                assert(groups.subrange(1, 1) =~= Seq::<PartitionRange>::empty());
            } else {
                assert(groups.subrange(1, n).drop_last() =~= groups.subrange(1, n - 1));
            }
        }
    }
}

/// The groups of a batch are all handed over, each once and in order: the last one to be added to
/// the group in progress; the first one, if the group in progress goes on with it and it is not the
/// last, to be added before that is flushed; all others as they are. The group in progress is
/// flushed before any other group if the first group is a new one, and never twice.
pub proof fn law_every_group_is_handed_over<P: ProcessGroups>(
    before: P::A,
    groups: Seq<PartitionRange>,
    after: P::A,
)
    requires
        after == processed::<P>(before, groups),
    ensures
        groups.len() == 0 ==> after == before,
        groups.len() > 0 ==> exists|calls: Seq<Call>|
            {
                let same = groups[0].is_same_as_before;
                let shift = ended_first(groups);
                &&& after == #[trigger] after_calls::<P>(before, calls)
                &&& handed_over(calls) == groups
                &&& flushes(calls) == if same && groups.len() == 1 {
                    0nat
                } else {
                    1
                }
                &&& calls.len() == groups.len() + shift
                &&& !same ==> calls[0] is Flush
                &&& forall|i: int|
                    0 <= i < groups.len() ==> calls[i + shift] == if i == groups.len() - 1 {
                        Call::AddLast(#[trigger] groups[i])
                    } else if i == 0 && same {
                        Call::FlushWith(groups[i])
                    } else {
                        Call::Standalone(groups[i])
                    }
            },
{
    if groups.len() > 0 {
        let n = groups.len() as int;
        let calls = calls_for(groups, n);
        lemma_calls::<P>(before, groups, n - 1);
        assert(calls.drop_last() =~= calls_for(groups, n - 1));
        assert(calls.last() == Call::AddLast(groups.last()));
        assert(groups.take(n - 1).push(groups.last()) =~= groups);
        assert(groups.take(n - 1) =~= groups.drop_last());
        if n == 1 && !groups[0].is_same_as_before {
            assert(groups.take(0) =~= Seq::<PartitionRange>::empty());
        }
        assert(after == after_calls::<P>(before, calls));
        let shift = ended_first(groups);
        assert forall|i: int|
            #![trigger groups[i]]
            0 <= i < n implies calls[i + shift] == call_for(groups, i) by {}
    }
}

/// The steps of a batch are, for each group in order, its rows, with the end of the group in
/// progress between two groups, and before the first one if that is a new one.
pub proof fn law_steps_alternate(groups: Seq<PartitionRange>, steps: Seq<GroupStep>)
    requires
        steps == group_steps(groups),
    ensures
        groups.len() == 0 ==> steps.len() == 0,
        groups.len() > 0 ==> {
            let shift = ended_first(groups);
            &&& steps.len() == 2 * groups.len() - 1 + shift
            &&& shift == 1 ==> steps[0] is FinishGroup
            &&& forall|i: int|
                0 <= i < groups.len() ==> {
                    let group = #[trigger] groups[i];
                    &&& steps[shift + 2 * i] == (GroupStep::Accumulate {
                        start: group.start,
                        end: group.end,
                    })
                    &&& i < groups.len() - 1 ==> steps[shift + 2 * i + 1] is FinishGroup
                }
        },
{
    if groups.len() > 0 {
        lemma_row_steps_alternate(groups);
        let rows = row_steps(groups);
        let shift = ended_first(groups);
        assert forall|i: int| 0 <= i < groups.len() implies {
            let group = #[trigger] groups[i];
            &&& steps[shift + 2 * i] == (GroupStep::Accumulate {
                start: group.start,
                end: group.end,
            })
            &&& i < groups.len() - 1 ==> steps[shift + 2 * i + 1] is FinishGroup
        } by {
            assert(steps[shift + 2 * i] == rows[2 * i]);
            if i < groups.len() - 1 {
                assert(steps[shift + 2 * i + 1] == rows[2 * i + 1]);
            }
        }
    }
}

proof fn lemma_row_steps_alternate(groups: Seq<PartitionRange>)
    requires
        groups.len() > 0,
    ensures
        row_steps(groups).len() == 2 * groups.len() - 1,
        forall|i: int|
            0 <= i < groups.len() ==> {
                let group = #[trigger] groups[i];
                &&& row_steps(groups)[2 * i] == (GroupStep::Accumulate {
                    start: group.start,
                    end: group.end,
                })
                &&& i < groups.len() - 1 ==> row_steps(groups)[2 * i + 1] is FinishGroup
            },
    decreases groups.len(),
{
    if groups.len() > 1 {
        lemma_row_steps_alternate(groups.drop_last());
        let before = row_steps(groups.drop_last());
        assert forall|i: int| 0 <= i < groups.len() implies {
            let group = #[trigger] groups[i];
            &&& row_steps(groups)[2 * i] == (GroupStep::Accumulate {
                start: group.start,
                end: group.end,
            })
            &&& i < groups.len() - 1 ==> row_steps(groups)[2 * i + 1] is FinishGroup
        } by {
            if i < groups.len() - 1 {
                assert(groups[i] == groups.drop_last()[i]);
                assert(row_steps(groups)[2 * i] == before[2 * i]);
                if i < groups.len() - 2 {
                    assert(row_steps(groups)[2 * i + 1] == before[2 * i + 1]);
                }
            }
        }
    }
}

/// The rows of a batch are listed group by group and in order, each row of each of the first `n`
/// groups exactly once, and nothing else.
pub proof fn law_rows_are_listed_by_group(groups: Seq<PartitionRange>, n: int)
    requires
        0 <= n <= groups.len() <= usize::MAX,
    ensures
        forall|g: usize, row: usize|
            #[trigger] group_rows(groups, n).contains((g, row)) <==> g < n && groups[g as int].start
                <= row < groups[g as int].end,
        forall|i: int, j: int|
            0 <= i < j < group_rows(groups, n).len() ==> {
                let a = #[trigger] group_rows(groups, n)[i];
                let b = #[trigger] group_rows(groups, n)[j];
                a.0 < b.0 || a.0 == b.0 && a.1 < b.1
            },
    decreases n,
{
    if n > 0 {
        law_rows_are_listed_by_group(groups, n - 1);
        let before = group_rows(groups, n - 1);
        let last = (n - 1) as usize;
        let more = rows_of(last, groups[n - 1]);
        let all = group_rows(groups, n);
        assert forall|i: int| 0 <= i < before.len() implies (#[trigger] before[i]).0 < last by {
            let (g, row) = before[i];
            assert(before.contains((g, row)));
        }
        assert forall|g: usize, row: usize| #[trigger]
            all.contains((g, row)) <==> g < n && groups[g as int].start <= row
            < groups[g as int].end by {
            assert(before.contains((g, row)) <==> g < n - 1 && groups[g as int].start <= row
                < groups[g as int].end);
            if all.contains((g, row)) {
                let i = choose|i: int| 0 <= i < all.len() && all[i] == (g, row);
                if i < before.len() {
                    assert(before[i] == (g, row));
                } else {
                    assert(more[i - before.len()] == (g, row));
                }
            }
            if g < n && groups[g as int].start <= row < groups[g as int].end {
                if g < n - 1 {
                    let i = choose|i: int| 0 <= i < before.len() && before[i] == (g, row);
                    assert(all[i] == (g, row));
                } else {
                    assert(all[before.len() + row - groups[n - 1].start] == (g, row));
                }
            }
        }
        assert forall|i: int, j: int| 0 <= i < j < all.len() implies {
            let a = #[trigger] all[i];
            let b = #[trigger] all[j];
            a.0 < b.0 || a.0 == b.0 && a.1 < b.1
        } by {
            if j < before.len() {
                assert(all[i] == before[i] && all[j] == before[j]);
            } else if i < before.len() {
                assert(all[i] == before[i]);
                assert(all[j] == more[j - before.len()]);
            } else {
                assert(all[i] == more[i - before.len()]);
                assert(all[j] == more[j - before.len()]);
            }
        }
    }
}

/// A running value, from `start` on, takes up the values of the rows from `from` up to `to`, one
/// after the other, and ends as `end`.
pub open spec fn takes_up<N, F: PrimitiveOp<N>>(
    op: F,
    start: N,
    values: Seq<N>,
    from: int,
    to: int,
    end: N,
) -> bool {
    exists|running: Seq<N>|
        {
            &&& running.len() == to - from + 1
            &&& running[0] == start
            &&& running.last() == end
            &&& forall|i: int|
                0 <= i < to - from ==> running[i + 1] == op.apply(
                    #[trigger] running[i],
                    values[from + i],
                )
        }
}

proof fn lemma_takes_up<N, F: PrimitiveOp<N>>(
    op: F,
    start: N,
    values: Seq<N>,
    from: int,
    to: int,
) -> (running: Seq<N>)
    requires
        0 <= from <= to <= values.len(),
    ensures
        running.len() == to - from + 1,
        running[0] == start,
        running.last() == folded(op, start, values.subrange(from, to)),
        forall|i: int|
            0 <= i < to - from ==> running[i + 1] == op.apply(
                #[trigger] running[i],
                values[from + i],
            ),
        takes_up(op, start, values, from, to, folded(op, start, values.subrange(from, to))),
    decreases to - from,
{
    if from == to {
        let running = seq![start];
        assert(values.subrange(from, to) =~= Seq::<N>::empty());
        assert(running[0] == start && running.last() == start);
        running
    } else {
        let before = lemma_takes_up(op, start, values, from, to - 1);
        let end = folded(op, start, values.subrange(from, to));
        assert(values.subrange(from, to).drop_last() =~= values.subrange(from, to - 1));
        let running = before.push(end);
        assert forall|i: int| 0 <= i < to - from implies running[i + 1] == op.apply(
            #[trigger] running[i],
            values[from + i],
        ) by {
            if i < to - from - 1 {
                assert(running[i] == before[i]);
                assert(running[i + 1] == before[i + 1]);
            } else {
                assert(running[i] == before.last());
            }
        }
        assert(running[0] == start && running.last() == end);
        running
    }
}

/// Rows of a batch that lie within it.
pub open spec fn lie_within(groups: Seq<PartitionRange>, num_rows: nat) -> bool {
    forall|i: int|
        0 <= i < groups.len() ==> (#[trigger] groups[i]).start <= groups[i].end <= num_rows
}

/// A batch leaves the values of the groups that were complete before. Behind them come that of the
/// group in progress, if the first group is a new one, and that of each group but the last one. A
/// group takes up the values of its rows in order: from the running value on if the first group goes
/// on with the group in progress, else from the starting value on. The last group is in progress.
pub proof fn law_groups_take_up_their_rows<N: Copy, F: PrimitiveOp<N>>(
    before: PrimitiveOrderedGroupsAccumulator<N, F>,
    values: Seq<N>,
    groups: Seq<PartitionRange>,
    after: PrimitiveOrderedGroupsAccumulator<N, F>,
)
    requires
        groups.len() > 0,
        lie_within(groups, values.len()),
        before.stepped(values, group_steps(groups), &after),
    ensures
        after.op() == before.op(),
        after.starting() == before.starting(),
        after.progress().0.len() == before.progress().0.len() + ended_first(groups) + groups.len()
            - 1,
        forall|i: int|
            0 <= i < before.progress().0.len() ==> (#[trigger] after.progress().0[i])
                == before.progress().0[i],
        !groups[0].is_same_as_before ==> after.progress().0[before.progress().0.len() as int]
            == before.progress().1,
        forall|i: int|
            0 <= i < groups.len() ==> takes_up(
                before.op(),
                if i == 0 && groups[0].is_same_as_before {
                    before.progress().1
                } else {
                    before.starting()
                },
                values,
                (#[trigger] groups[i]).start as int,
                groups[i].end as int,
                if i < groups.len() - 1 {
                    after.progress().0[before.progress().0.len() + ended_first(groups) + i]
                } else {
                    after.progress().1
                },
            ),
{
    let op = before.op();
    let starting = before.starting();
    let running = before.progress().1;
    let steps = group_steps(groups);
    law_steps_alternate(groups, steps);
    assert(steps.take(steps.len() as int) =~= steps);
    lemma_after_groups(
        op,
        starting,
        before.progress(),
        values,
        groups,
        groups.len() as int,
        after.progress(),
    );
    assert forall|i: int| 0 <= i < groups.len() implies takes_up(
        op,
        if i == 0 && groups[0].is_same_as_before {
            running
        } else {
            starting
        },
        values,
        (#[trigger] groups[i]).start as int,
        groups[i].end as int,
        if i < groups.len() - 1 {
            after.progress().0[before.progress().0.len() + ended_first(groups) + i]
        } else {
            after.progress().1
        },
    ) by {
        let group = groups[i];
        let start = if i == 0 && groups[0].is_same_as_before {
            running
        } else {
            starting
        };
        assert(group.start <= group.end <= values.len());
        let _ = lemma_takes_up(op, start, values, group.start as int, group.end as int);
    }
}

/// The state after the steps of the first `n` groups.
proof fn lemma_after_groups<N, F: PrimitiveOp<N>>(
    op: F,
    starting: N,
    state: (Seq<N>, N),
    values: Seq<N>,
    groups: Seq<PartitionRange>,
    n: int,
    now: (Seq<N>, N),
)
    requires
        1 <= n <= groups.len(),
        now == after_steps(
            op,
            starting,
            state,
            values,
            group_steps(groups).take(ended_first(groups) + 2 * n - 1),
        ),
    ensures
        now.0.len() == state.0.len() + ended_first(groups) + n - 1,
        forall|i: int| 0 <= i < state.0.len() ==> (#[trigger] now.0[i]) == state.0[i],
        !groups[0].is_same_as_before ==> now.0[state.0.len() as int] == state.1,
        forall|i: int|
            0 <= i < n ==> folded(
                op,
                if i == 0 && groups[0].is_same_as_before {
                    state.1
                } else {
                    starting
                },
                values.subrange((#[trigger] groups[i]).start as int, groups[i].end as int),
            ) == if i < n - 1 {
                now.0[state.0.len() + ended_first(groups) + i]
            } else {
                now.1
            },
    decreases n,
{
    let shift = ended_first(groups);
    let steps = group_steps(groups);
    law_steps_alternate(groups, steps);
    let all = steps.take(shift + 2 * n - 1);
    assert(all.drop_last() =~= steps.take(shift + 2 * n - 2));
    let group = groups[n - 1];
    assert(all.last() == (GroupStep::Accumulate { start: group.start, end: group.end }));
    if n == 1 {
        let none = Seq::<GroupStep>::empty();
        assert(after_steps(op, starting, state, values, none) == state);
        if groups[0].is_same_as_before {
            assert(all.drop_last() =~= none);
        } else {
            assert(all.drop_last().drop_last() =~= none);
            assert(after_steps(op, starting, state, values, all.drop_last()) == (
                state.0.push(state.1),
                starting,
            ));
        }
    } else {
        let earlier = steps.take(shift + 2 * (n - 1) - 1);
        let before = after_steps(op, starting, state, values, earlier);
        lemma_after_groups(op, starting, state, values, groups, n - 1, before);
        assert(all.drop_last().drop_last() =~= earlier);
        let previous = groups[n - 2];
        assert(all.drop_last().last() is FinishGroup);
        assert(after_steps(op, starting, state, values, all.drop_last()) == (
            before.0.push(before.1),
            starting,
        ));
        assert(now.0 == before.0.push(before.1));
        assert forall|i: int| 0 <= i < state.0.len() implies (#[trigger] now.0[i])
            == state.0[i] by {
            assert(now.0[i] == before.0[i]);
        }
    }
}

/// The sum is the sum but for multiples of the size of the type.
pub proof fn law_sum_is_modular(current: i64, value: i64)
    ensures
        (WrappingSum.apply(current, value) - (current + value)) % 0x1_0000_0000_0000_0000 == 0,
        i64::MIN <= current + value <= i64::MAX ==> WrappingSum.apply(current, value) == current
            + value,
{
}

} // verus!
