//! What is emitted of the groups, and what is kept of their values.

use crate::aggregate::count_distinct::bytes_group_accumulator::{
    byte_lists_fit, group_bytes, is_emptied, ByteLists, CollectSetBytesGroupsAccumulator,
};
use crate::aggregate::count_distinct::collect_set::{
    all_values, count_groups, has_rooms, is_left_accounted, left_accounted, lemma_output_remove,
    output_total, sets_bytes, AccumulatorState, CollectSetGroups, EmitTo,
};
use crate::aggregate::count_distinct::distinct_value::{DistinctValue, PrimitiveKey};
use crate::aggregate::count_distinct::helpers::group_accumulator_unique_values::{
    are_heap_sizes, unique_values_bytes, CollectSetGroupAccumulatorValues, GetHeapAllocatedSize, GetSizeBytes,
    OnlyOnStackSize,
};
use crate::aggregate::count_distinct::helpers::track_single_group_unique_indices::{
    accounted, is_accounted, is_listing,
};
use crate::aggregate::count_distinct::lists::{
    group_sizes, is_lists_of, lemma_listing_len, list_at, lists_fit,
};
use crate::aggregate::count_distinct::native_group_accumulator::CountDistinctPrimitiveGroupsAccumulator;
use crate::arrow_buffers::buffer_bytes;
use crate::blocked_helpers::blocked_byte_array_builder::{lemma_cut_again, lens};
use crate::blocked_helpers::byte_array_laws::{is_between, law_strings_of_a_block};
use crate::blocked_helpers::item_laws::law_offsets_of_lengths;
use crate::blocked_helpers::layout::sum;
use crate::blocked_helpers::offset_size::{total, OffsetSize};
use crate::memory::{covers, has_room};
use vstd::layout::size_of;
use vstd::prelude::*;

verus! {

/// How many groups are emitted.
pub open spec fn emitted<T>(groups: Seq<T>, emit_to: EmitTo) -> int {
    match emit_to {
        EmitTo::All => groups.len() as int,
        EmitTo::First(n) => n as int,
    }
}

/// All groups are emitted, or so many as are asked for.
pub proof fn law_emitted_groups<T>(groups: Seq<T>, emit_to: EmitTo)
    ensures
        EmitTo::All.count(groups.len()) == groups.len(),
        forall|n: usize| (#[trigger] EmitTo::First(n).count(groups.len())) == n,
        emit_to.count(groups.len()) == emitted(groups, emit_to),
{
}

/// The value is in the list of a group: at a place from its offset up to the next one.
pub open spec fn is_listed<M>(offsets: Seq<i32>, values: Seq<M>, g: int, value: M) -> bool {
    exists|j: int| offsets[g] <= j < offsets[g + 1] && #[trigger] values[j] == value
}

/// When groups are emitted, there is a list for each: it has exactly the values of the group, each
/// at one place only. The lists lie one behind the other and there is nothing else. The groups that
/// are not emitted move up.
pub proof fn law_lists_of_emitted_groups<M>(
    before: Seq<Set<M>>,
    emit_to: EmitTo,
    offsets: Seq<i32>,
    values: Seq<M>,
    after: Seq<Set<M>>,
    g: int,
)
    requires
        emitted(before, emit_to) <= before.len(),
        is_lists_of(offsets, values, before.take(emit_to.count(before.len()) as int)),
        after == before.skip(emit_to.count(before.len()) as int),
    ensures
        offsets.len() == emitted(before, emit_to) + 1,
        offsets[0] == 0,
        offsets.last() == values.len(),
        after.len() == before.len() - emitted(before, emit_to),
        emitted(before, emit_to) <= g < before.len() ==> after[g - emitted(before, emit_to)]
            == before[g],
        0 <= g < emitted(before, emit_to) ==> {
            &&& 0 <= offsets[g] <= offsets[g + 1] <= values.len()
            &&& forall|value: M| #[trigger]
                before[g].contains(value) <==> is_listed(offsets, values, g, value)
            &&& forall|i: int, j: int|
                offsets[g] <= i < j < offsets[g + 1] ==> #[trigger] values[i]
                    != #[trigger] values[j]
        },
{
    let n = emitted(before, emit_to);
    let groups = before.take(n);
    law_offsets_of_lengths(offsets, group_sizes(groups));
    if 0 <= g < n {
        assert(offsets[0] <= offsets[g]);
        assert(offsets[g] <= offsets[g + 1]);
        assert(offsets[g + 1] <= offsets[n]);
        let list = list_at(offsets, values, g);
        assert(is_listing(list, groups[g]));
        lemma_listed(list, groups[g], offsets[g] as int, offsets[g + 1] as int, values);
        assert forall|value: M| #[trigger] before[g].contains(value) <==> is_listed(
            offsets,
            values,
            g,
            value,
        ) by {
            assert(groups[g].contains(value) <==> exists|j: int|
                offsets[g] <= j < offsets[g + 1] && #[trigger] values[j] == value);
        }
    }
}

/// A stretch of values lists a set.
proof fn lemma_listed<M>(list: Seq<M>, set: Set<M>, from: int, to: int, values: Seq<M>)
    requires
        0 <= from <= to <= values.len(),
        list == values.subrange(from, to),
        is_listing(list, set),
    ensures
        forall|value: M| #[trigger]
            set.contains(value) <==> exists|j: int|
                from <= j < to && #[trigger] values[j] == value,
        forall|i: int, j: int| from <= i < j < to ==> #[trigger] values[i] != #[trigger] values[j],
{
    assert forall|value: M| #[trigger] set.contains(value) <==> exists|j: int|
        from <= j < to && #[trigger] values[j] == value by {
        assert(list.to_set().contains(value) == list.contains(value));
        if list.contains(value) {
            let k = choose|k: int| 0 <= k < list.len() && list[k] == value;
            assert(values[from + k] == value);
        }
        if exists|j: int| from <= j < to && #[trigger] values[j] == value {
            let j = choose|j: int| from <= j < to && #[trigger] values[j] == value;
            assert(list[j - from] == value);
        }
    }
    assert forall|i: int, j: int| from <= i < j < to implies #[trigger] values[i]
        != #[trigger] values[j] by {
        assert(list[i - from] == values[i]);
        assert(list[j - from] == values[j]);
    }
}

/// The string is in the list of a group: it is the bytes between two offsets.
pub open spec fn is_listed_string<O: OffsetSize>(
    lists: ByteLists<O>,
    g: int,
    string: Seq<u8>,
) -> bool {
    exists|k: int|
        lists.offsets@[g] <= k < lists.offsets@[g + 1] && #[trigger] is_between(
            lists.values.offsets@,
            buffer_bytes(lists.values.bytes),
            k,
            string,
        )
}

/// When groups of strings are emitted, there is a list for each: it has exactly the strings of the
/// group, with all their bytes. No string is null.
pub proof fn law_lists_of_emitted_strings<O: OffsetSize>(
    before: Seq<Set<Seq<u8>>>,
    emit_to: EmitTo,
    lists: ByteLists<O>,
    g: int,
    string: Seq<u8>,
)
    requires
        emitted(before, emit_to) <= before.len(),
        lists.lists(before.take(emit_to.count(before.len()) as int)),
        0 <= g < emitted(before, emit_to),
    ensures
        lists.values.nulls is None,
        lists.offsets@.len() == emitted(before, emit_to) + 1,
        lists.offsets@[0] == 0,
        lists.offsets@.last() == lists.values.offsets@.len() - 1,
        lists.values.offsets@[0].val() == 0,
        lists.values.offsets@.last().val() == buffer_bytes(lists.values.bytes).len(),
        before[g].contains(string) <==> is_listed_string(lists, g, string),
{
    let items = lists.values.items();
    let offsets = lists.offsets@;
    let n = emitted(before, emit_to);
    law_lists_of_emitted_groups(before, emit_to, offsets, items, before.skip(n), g);
    law_offsets_of_lengths(lists.values.offsets@, lens(items));
    lemma_cut_again(items);
    assert(before[g].contains(string) <==> is_listed(offsets, items, g, string));
    assert(0 <= offsets[g] <= offsets[g + 1] <= items.len());
    if is_listed(offsets, items, g, string) {
        let j = choose|j: int| offsets[g] <= j < offsets[g + 1] && #[trigger] items[j] == string;
        law_strings_of_a_block(lists.values, j);
    }
    if is_listed_string(lists, g, string) {
        let k = choose|k: int|
            offsets[g] <= k < offsets[g + 1] && #[trigger] is_between(
                lists.values.offsets@,
                buffer_bytes(lists.values.bytes),
                k,
                string,
            );
        law_strings_of_a_block(lists.values, k);
        assert(items[k] == string);
    }
}

/// Groups can be emitted if they exist and have no more values together than there are offsets.
pub proof fn law_when_sets_can_be_emitted<M>(groups: Seq<Set<M>>, emit_to: EmitTo)
    ensures
        lists_fit(groups, emit_to) <==> emitted(groups, emit_to) <= groups.len() && total(
            Seq::new(
                emitted(groups, emit_to) as nat,
                |g: int| groups[g].len() as int,
            ),
        ) <= 0x7fff_ffff,
{
    let n = emitted(groups, emit_to);
    if n <= groups.len() {
        assert(group_sizes(groups.take(n)) =~= Seq::new(
            n as nat,
            |g: int| groups[g].len() as int,
        ));
    }
}

/// Groups of strings can be emitted if in addition their strings have no more bytes together than
/// there are offsets into them.
pub proof fn law_when_strings_can_be_emitted<O: OffsetSize>(
    groups: Seq<Set<Seq<u8>>>,
    emit_to: EmitTo,
)
    ensures
        byte_lists_fit::<O>(groups, emit_to) <==> lists_fit(groups, emit_to) && total(
            Seq::new(
                emitted(groups, emit_to) as nat,
                |g: int| output_total::<Vec<u8>>(groups[g]) as int,
            ),
        ) <= O::max_offset(),
{
    let n = emitted(groups, emit_to);
    if n <= groups.len() {
        assert(group_bytes(groups.take(n)) =~= Seq::new(
            n as nat,
            |g: int| output_total::<Vec<u8>>(groups[g]) as int,
        ));
    }
}

/// Byte strings are compared by all their bytes.
pub proof fn law_strings_are_told_apart(string: Vec<u8>, other: &[u8])
    ensures
        <Vec<u8> as DistinctValue>::model(&string) == string@,
        <Vec<u8> as DistinctValue>::probe_model(other) == other@,
        <Vec<u8> as DistinctValue>::output_bytes(string@) == string@.len(),
{
}

/// Primitive values are compared as they are.
pub proof fn law_values_are_told_apart<N: PrimitiveKey>(value: N)
    ensures
        <N as DistinctValue>::model(&value) == value,
        <N as DistinctValue>::probe_model(&value) == value,
        <N as DistinctValue>::output_bytes(value) == size_of::<N>(),
{
}

/// The groups of an accumulator are those that its sets have, to which batches are added.
pub proof fn law_groups_of_accumulators<N: PrimitiveKey, O: OffsetSize>(
    values: CountDistinctPrimitiveGroupsAccumulator<N>,
    strings: CollectSetBytesGroupsAccumulator<O>,
)
    ensures
        values.groups() == values.sets().groups(),
        strings.groups() == strings.sets().groups(),
{
}

/// A listing of a set has each of its elements at one place, and nothing else.
pub proof fn law_listing<T>(items: Seq<T>, set: Set<T>)
    requires
        is_listing(items, set),
    ensures
        items.len() == set.len(),
        forall|i: int| 0 <= i < items.len() ==> set.contains(#[trigger] items[i]),
        forall|item: T|
            #[trigger] set.contains(item) ==> exists|i: int|
                0 <= i < items.len() && #[trigger] items[i] == item,
        forall|i: int, j: int|
            0 <= i < j < items.len() ==> #[trigger] items[i] != #[trigger] items[j],
{
    lemma_listing_len(items, set);
    assert forall|i: int| 0 <= i < items.len() implies set.contains(#[trigger] items[i]) by {
        assert(items.to_set().contains(items[i]));
    }
    assert forall|item: T| #[trigger] set.contains(item) implies exists|i: int|
        0 <= i < items.len() && #[trigger] items[i] == item by {
        assert(items.to_set().contains(item));
        assert(items.contains(item));
    }
}

/// The bytes that values take in an output: none without values, and with every value more those of
/// that value.
pub proof fn law_output_bytes<V: DistinctValue>(values: Set<V::Model>, value: V::Model)
    requires
        values.finite(),
        !values.contains(value),
    ensures
        output_total::<V>(Set::empty()) == 0,
        output_total::<V>(values.insert(value)) == output_total::<V>(values) + V::output_bytes(
            value,
        ),
{
    assert(values.insert(value).remove(value) =~= values);
    lemma_output_remove::<V>(values.insert(value), value);
}

/// More groups use a value: only its count goes up.
pub proof fn law_counted_up<T, GetSizeV: GetHeapAllocatedSize<T>>(
    before: CollectSetGroupAccumulatorValues<T, GetSizeV>,
    index: usize,
    count: usize,
    after: CollectSetGroupAccumulatorValues<T, GetSizeV>,
)
    requires
        index < before.ref_counts().len(),
        before.ref_counts()[index as int] + count <= usize::MAX,
        before.counted_up(index, count, &after),
    ensures
        after.values() == before.values(),
        after.available() == before.available(),
        after.ref_counts().len() == before.ref_counts().len(),
        forall|i: int|
            0 <= i < before.ref_counts().len() ==> (#[trigger] after.ref_counts()[i])
                - before.ref_counts()[i] == if i == index {
                count as int
            } else {
                0
            },
{
}

/// One group less uses a value: only its count goes down, and its place becomes the last available
/// one exactly if no group is left that uses it.
pub proof fn law_counted_down<T, GetSizeV: GetHeapAllocatedSize<T>>(
    before: CollectSetGroupAccumulatorValues<T, GetSizeV>,
    index: usize,
    after: CollectSetGroupAccumulatorValues<T, GetSizeV>,
)
    requires
        index < before.ref_counts().len(),
        before.ref_counts()[index as int] > 0,
        before.counted_down(index, &after),
    ensures
        after.values() == before.values(),
        after.ref_counts().len() == before.ref_counts().len(),
        forall|i: int|
            0 <= i < before.ref_counts().len() ==> before.ref_counts()[i] - (
            #[trigger] after.ref_counts()[i]) == if i == index {
                1int
            } else {
                0
            },
        after.ref_counts()[index as int] > 0 ==> after.available() == before.available(),
        after.ref_counts()[index as int] == 0 ==> {
            &&& after.available().len() == before.available().len() + 1
            &&& after.available().last() == index
            &&& forall|k: int|
                0 <= k < before.available().len() ==> (#[trigger] after.available()[k])
                    == before.available()[k]
        },
{
}

/// Places that became available, and no others, may have another value afterwards.
pub proof fn law_only_vacated_places_change<T: Clone, GetSizeV: GetHeapAllocatedSize<T>>(
    before: CollectSetGroupAccumulatorValues<T, GetSizeV>,
    blank: Option<T>,
    after: CollectSetGroupAccumulatorValues<T, GetSizeV>,
    i: int,
)
    requires
        before.vacated(blank, &after),
        0 <= i < before.values().len(),
    ensures
        after.values().len() == before.values().len(),
        before.available().len() <= after.available().len(),
        forall|k: int|
            0 <= k < before.available().len() ==> (#[trigger] after.available()[k])
                == before.available()[k],
        blank is None ==> after.values()[i] == before.values()[i],
        blank is Some ==> if after.available().skip(before.available().len() as int).contains(
            i as usize,
        ) && i <= usize::MAX {
            cloned(blank->0, after.values()[i])
        } else {
            after.values()[i] == before.values()[i]
        },
{
    let old_len = before.available().len() as int;
    assert forall|k: int| 0 <= k < old_len implies (#[trigger] after.available()[k])
        == before.available()[k] by {
        assert(after.available().take(old_len)[k] == before.available()[k]);
    }
    let more = after.available().skip(old_len);
    if i <= usize::MAX && more.contains(i as usize) {
        let k = choose|k: int| 0 <= k < more.len() && more[k] == i as usize;
        assert(after.available()[old_len + k] == i);
        assert(before.is_vacated(i, &after));
    }
    if before.is_vacated(i, &after) {
        let k = choose|k: int|
            old_len <= k < after.available().len() && (#[trigger] after.available()[k]) == i;
        assert(more[k - old_len] == i as usize);
    }
}

/// Once groups of strings are emitted, strings at places that became available have no bytes any
/// more, and the others are the same; none is left if all groups are emitted.
pub proof fn law_vacated_strings_are_emptied(
    before: CollectSetGroupAccumulatorValues<Vec<u8>, GetSizeBytes>,
    after: CollectSetGroupAccumulatorValues<Vec<u8>, GetSizeBytes>,
    all: bool,
    i: int,
)
    requires
        is_emptied(before, after, all),
        0 <= i < before.values().len(),
    ensures
        all ==> after.values().len() == 0,
        !all ==> {
            &&& after.values().len() == before.values().len()
            &&& after.values()[i]@ == if i <= usize::MAX && after.available().skip(
                before.available().len() as int,
            ).contains(i as usize) {
                Seq::<u8>::empty()
            } else {
                before.values()[i]@
            }
        },
{
    if !all {
        let old_len = before.available().len() as int;
        let more = after.available().skip(old_len);
        if i <= usize::MAX && more.contains(i as usize) {
            let k = choose|k: int| 0 <= k < more.len() && more[k] == i as usize;
            assert(after.available()[old_len + k] == i);
            assert(before.is_vacated(i, &after));
        }
        if before.is_vacated(i, &after) {
            let k = choose|k: int|
                old_len <= k < after.available().len() && (#[trigger] after.available()[k]) == i;
            assert(more[k - old_len] == i as usize);
        }
    }
}

/// Capacities are accounted for as they grow, and taken off as they go, within the numbers there
/// are.
pub proof fn law_accounting(
    capacities: usize,
    prev_capacity: usize,
    capacity: usize,
    rooms: Seq<usize>,
)
    ensures
        capacity <= prev_capacity ==> accounted(capacities, prev_capacity, capacity) == capacities,
        capacity > prev_capacity && capacities + (capacity - prev_capacity) <= usize::MAX
            ==> accounted(capacities, prev_capacity, capacity) == capacities + (capacity
            - prev_capacity),
        capacities + (capacity - prev_capacity) > usize::MAX ==> accounted(
            capacities,
            prev_capacity,
            capacity,
        ) == usize::MAX,
        sum(rooms) <= capacities ==> left_accounted(capacities, rooms) == capacities - sum(rooms),
        sum(rooms) > capacities ==> left_accounted(capacities, rooms) == 0,
{
}

/// What is accounted for grows by what the room in a set grows by: the set had room for its indices
/// before, and has room for them now.
pub proof fn law_accounting_of_a_set(before: usize, prev_len: nat, len: nat, after: usize) -> (found:
    (usize, usize))
    requires
        is_accounted(before, prev_len, len, after),
    ensures
        prev_len <= found.0,
        len <= found.1,
        found.0 * size_of::<usize>() <= isize::MAX,
        found.1 * size_of::<usize>() <= isize::MAX,
        after == accounted(before, found.0, found.1),
{
    choose|prev_capacity: usize, capacity: usize|
        {
            &&& has_room(prev_capacity, size_of::<usize>(), prev_len)
            &&& has_room(capacity, size_of::<usize>(), len)
            &&& after == #[trigger] accounted(before, prev_capacity, capacity)
        }
}

/// Nothing is accounted for once there are no groups; else what was accounted for is less the room
/// in the sets that are gone, each of which had room for its values.
pub proof fn law_accounting_of_groups<M>(
    before: usize,
    groups: Seq<Set<M>>,
    first: int,
    after: usize,
) -> (rooms: Seq<usize>)
    requires
        0 <= first <= groups.len(),
        is_left_accounted(before, groups, first, after),
    ensures
        first == groups.len() ==> after == 0,
        first < groups.len() ==> {
            &&& rooms.len() == first
            &&& forall|g: int|
                0 <= g < first ==> groups[g].len() <= #[trigger] rooms[g] && rooms[g] * size_of::<
                    usize,
                >() <= isize::MAX
            &&& after == if sum(rooms) < before {
                before - sum(rooms)
            } else {
                0
            }
        },
{
    if first < groups.len() {
        let gone = groups.take(first);
        let rooms = choose|rooms: Seq<usize>| #[trigger]
            has_rooms(rooms, gone) && after == left_accounted(before, rooms);
        assert forall|g: int| 0 <= g < first implies groups[g].len() <= #[trigger] rooms[g]
            && rooms[g] * size_of::<usize>() <= isize::MAX by {
            assert(gone[g] == groups[g]);
        }
        rooms
    } else {
        Seq::empty()
    }
}

/// The bytes of sets and of unique values add up, as long as there is such a number.
pub proof fn law_bytes_of_sets(
    states: usize,
    capacities: usize,
    entries: usize,
    values: usize,
    counts: usize,
    available: usize,
    heap: Seq<usize>,
)
    ensures
        states + capacities * size_of::<usize>() + entries * size_of::<(u64, usize)>() + values
            <= usize::MAX ==> sets_bytes(states, capacities, entries, values) == states + capacities
            * size_of::<usize>() + entries * size_of::<(u64, usize)>() + values,
        states + capacities * size_of::<usize>() + entries * size_of::<(u64, usize)>() + values
            > usize::MAX ==> sets_bytes(states, capacities, entries, values) == usize::MAX,
        values + counts + available * size_of::<usize>() + sum(heap) <= usize::MAX
            ==> unique_values_bytes(values, counts, available, heap) == values + counts + available
            * size_of::<usize>() + sum(heap),
        values + counts + available * size_of::<usize>() + sum(heap) > usize::MAX
            ==> unique_values_bytes(values, counts, available, heap) == usize::MAX,
{
    assert(capacities * size_of::<usize>() >= 0) by (nonlinear_arith);
    assert(entries * size_of::<(u64, usize)>() >= 0) by (nonlinear_arith);
    assert(available * size_of::<usize>() >= 0) by (nonlinear_arith);
}

/// The size of sets is that of the room for groups, of what is accounted for, of the room in the
/// table, and of the unique values; no room is less than what is used of it.
pub proof fn law_size_of_sets<V: DistinctValue, GetSizeV: GetHeapAllocatedSize<V>>(
    sets: CollectSetGroups<V, GetSizeV>,
    bytes: usize,
) -> (found: (usize, usize, usize))
    requires
        sets.is_size(bytes),
    ensures
        size_of::<AccumulatorState>() * sets.groups().len() <= found.0 <= isize::MAX,
        all_values(sets.groups()).len() <= found.1,
        found.1 * size_of::<(u64, usize)>() <= isize::MAX,
        sets.unique_values().is_size(found.2),
        bytes == sets_bytes(found.0, sets.accounted_capacities(), found.1, found.2),
{
    choose|states: usize, entries: usize, values: usize|
        {
            &&& #[trigger] covers(states, size_of::<AccumulatorState>() * sets.groups().len())
            &&& #[trigger] has_room(
                entries,
                size_of::<(u64, usize)>(),
                all_values(sets.groups()).len(),
            )
            &&& #[trigger] sets.unique_values().is_size(values)
            &&& bytes == sets_bytes(states, sets.accounted_capacities(), entries, values)
        }
}

/// The size of unique values is that of the room for them, for their counts and for the places that
/// can be used again, and of what each has on the heap.
pub proof fn law_size_of_unique_values<T, GetSizeV: GetHeapAllocatedSize<T>>(
    values: CollectSetGroupAccumulatorValues<T, GetSizeV>,
    bytes: usize,
) -> (found: (usize, usize, usize, Seq<usize>))
    requires
        values.is_size(bytes),
    ensures
        size_of::<T>() * values.values().len() <= found.0 <= isize::MAX,
        size_of::<usize>() * values.ref_counts().len() <= found.1 <= isize::MAX,
        values.available().len() <= found.2,
        found.2 * size_of::<usize>() <= isize::MAX,
        found.3.len() == values.values().len(),
        forall|i: int|
            0 <= i < found.3.len() ==> GetSizeV::is_heap_size(
                values.values()[i],
                #[trigger] found.3[i],
            ),
        bytes == unique_values_bytes(found.0, found.1, found.2, found.3),
{
    choose|room: usize, counts: usize, available: usize, heap: Seq<usize>|
        {
            &&& #[trigger] covers(room, size_of::<T>() * values.values().len())
            &&& #[trigger] covers(counts, size_of::<usize>() * values.ref_counts().len())
            &&& #[trigger] has_room(available, size_of::<usize>(), values.available().len())
            &&& #[trigger] are_heap_sizes::<T, GetSizeV>(heap, values.values())
            &&& bytes == unique_values_bytes(room, counts, available, heap)
        }
}

/// A value on the stack has nothing on the heap; a string has at least its bytes there.
pub proof fn law_bytes_on_the_heap<T>(value: T, string: Vec<u8>, bytes: usize)
    ensures
        <OnlyOnStackSize as GetHeapAllocatedSize<T>>::is_heap_size(value, bytes) <==> bytes == 0,
        <GetSizeBytes as GetHeapAllocatedSize<Vec<u8>>>::is_heap_size(string, bytes)
            <==> string@.len() <= bytes <= isize::MAX,
{
}

/// A value is among all values if a group has it.
pub proof fn law_all_values<M>(groups: Seq<Set<M>>, value: M)
    ensures
        all_values(groups).contains(value) <==> exists|g: int|
            0 <= g < groups.len() && (#[trigger] groups[g]).contains(value),
{
}

/// In how many groups an index is: with every group that has it one more.
pub proof fn law_number_of_groups(a: Seq<Set<usize>>, set: Set<usize>, b: Seq<Set<usize>>, i: usize)
    ensures
        count_groups(Seq::empty(), i) == 0,
        count_groups(seq![set], i) == if set.contains(i) {
            1nat
        } else {
            0
        },
        count_groups(a + b, i) == count_groups(a, i) + count_groups(b, i),
    decreases a.len(),
{
    assert(seq![set].skip(1) =~= Seq::<Set<usize>>::empty());
    reveal_with_fuel(count_groups, 2);
    if a.len() == 0 {
        assert(a + b =~= b);
    } else {
        assert((a + b).skip(1) =~= a.skip(1) + b);
        law_number_of_groups(a.skip(1), set, b, i);
    }
}

} // verus!
