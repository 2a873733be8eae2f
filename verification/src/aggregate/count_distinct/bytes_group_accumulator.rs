//! The distinct values of groups of byte strings.

use crate::aggregate::count_distinct::batches::{BatchError, ListRows};
use crate::aggregate::count_distinct::collect_set::{
    is_left_accounted, lemma_output_remove, output_total, CollectSetGroups, DistinctRows, EmitTo,
};
use crate::aggregate::count_distinct::helpers::group_accumulator_unique_values::{
    CollectSetGroupAccumulatorValues, GetSizeBytes,
};
use crate::aggregate::count_distinct::helpers::row_filter::{
    fits_batch, is_kept, kept_mask, selected, RowFilter,
};
use crate::aggregate::count_distinct::helpers::track_single_group_unique_indices::is_listing;
use crate::aggregate::count_distinct::lists::{
    build_list_offsets, group_sizes, is_lists_of, lemma_lists, list_at, lists_fit,
};
use crate::arrow_buffers::{buffer_bytes, buffer_from_bytes};
use crate::blocked_helpers::blocked_byte_array_builder::{
    lemma_cut_again, lens, ByteBlock, ByteColumn,
};
use crate::blocked_helpers::layout::{concat, lemma_concat_at, lemma_concat_push};
use crate::blocked_helpers::offset_block::OffsetBlock;
use crate::blocked_helpers::offset_size::{
    is_offsets_of, lemma_total_add, lemma_total_part, lemma_total_push, total, OffsetSize,
};
use crate::blocked_helpers::take_n_helpers::BlockBuilder;
use crate::memory::saturated;
use arrow::buffer::Buffer;
use std::marker::PhantomData;
use vstd::layout::size_of;
use vstd::prelude::*;

verus! {

impl<'a, O: OffsetSize> DistinctRows<Vec<u8>> for ByteColumn<'a, O> {
    open spec fn models(&self) -> Seq<Seq<u8>> {
        if self.wf() {
            self.ranges()
        } else {
            Seq::empty()
        }
    }

    fn row(&self, index: usize) -> (probe: &[u8]) {
        proof {
            assert(self.bytes@.len() == self.bytes.len());
            assert(self.offsets@.len() == self.offsets.len());
            let o = self.offsets@;
            assert(o[0].val() <= o[index as int].val());
            assert(o[index as int].val() <= o[index + 1].val());
            assert(o[index + 1].val() <= o[o.len() - 1].val());
        }
        vstd::slice::slice_subrange(
            self.bytes,
            self.offsets[index].as_usize(),
            self.offsets[index + 1].as_usize(),
        )
    }
}

/// The number of bytes of all the strings in a set.
pub open spec fn bytes_in(set: Set<Seq<u8>>) -> nat {
    output_total::<Vec<u8>>(set)
}

/// The strings of a set, one after the other, have as many bytes as the set.
proof fn lemma_bytes_in_listing(items: Seq<Seq<u8>>, set: Set<Seq<u8>>)
    requires
        is_listing(items, set),
    ensures
        total(lens(items)) == bytes_in(set),
    decreases items.len(),
{
    items.unique_seq_to_set();
    if items.len() > 0 {
        let last = items.last();
        let init = items.drop_last();
        assert(items.to_set().contains(last));
        assert forall|string: Seq<u8>| init.to_set().contains(string) == set.remove(
            last,
        ).contains(string) by {
            if init.to_set().contains(string) {
                let k = choose|k: int| 0 <= k < init.len() && init[k] == string;
                assert(items[k] == string);
                assert(items.to_set().contains(string));
            }
            if set.remove(last).contains(string) {
                assert(items.to_set().contains(string));
                let k = choose|k: int| 0 <= k < items.len() && items[k] == string;
                assert(init[k] == string);
            }
        }
        assert(init.to_set() =~= set.remove(last));
        lemma_bytes_in_listing(init, set.remove(last));
        lemma_output_remove::<Vec<u8>>(set, last);
        assert(lens(items).drop_last() =~= lens(init));
    }
}

/// The number of bytes in each group.
pub open spec fn group_bytes(groups: Seq<Set<Seq<u8>>>) -> Seq<int> {
    Seq::new(groups.len(), |g: int| bytes_in(groups[g]) as int)
}

/// The groups exist, and lists of their strings have offsets.
pub open spec fn byte_lists_fit<O: OffsetSize>(
    groups: Seq<Set<Seq<u8>>>,
    emit_to: EmitTo,
) -> bool {
    let n = emit_to.count(groups.len()) as int;
    &&& lists_fit(groups, emit_to)
    &&& total(group_bytes(groups.take(n))) <= O::max_offset()
}

/// Lists of byte strings.
pub struct ByteLists<O: OffsetSize> {
    pub offsets: Vec<i32>,
    pub values: ByteBlock<O>,
}

impl<O: OffsetSize> ByteLists<O> {
    /// The list of a group.
    pub open spec fn list(&self, g: int) -> Seq<Seq<u8>> {
        list_at(self.offsets@, self.values.items(), g)
    }

    /// For each group there is a list of its strings, each once, and there is nothing else.
    pub open spec fn lists(&self, groups: Seq<Set<Seq<u8>>>) -> bool {
        &&& self.values.nulls is None
        &&& is_offsets_of(self.values.offsets@, lens(self.values.items()))
        &&& buffer_bytes(self.values.bytes) == concat(self.values.items())
        &&& is_lists_of(self.offsets@, self.values.items(), groups)
    }
}

/// Collects the distinct byte strings of each group.
///
/// Each string is stored once. For the groups
/// 1. "hello", "you"
/// 2. "hello", "world"
/// 3. "how", "are", "you", "?"
///
/// the strings and the number of groups that use each are
///
/// | index  | 0       | 1     | 2       | 3     | 4     | 5   |
/// |--------|---------|-------|---------|-------|-------|-----|
/// | string | "hello" | "you" | "world" | "how" | "are" | "?" |
/// | groups | 2       | 2     | 1       | 1     | 1     | 1   |
///
/// and the groups are `[0, 1]`, `[0, 2]` and `[3, 4, 1, 5]`. When a group is emitted, its strings
/// are counted down; the place of a string that no group uses any more is used again.
pub struct CollectSetBytesGroupsAccumulator<O: OffsetSize> {
    groups: CollectSetGroups<Vec<u8>, GetSizeBytes>,
    phantom_data: PhantomData<O>,
}

impl<O: OffsetSize> CollectSetBytesGroupsAccumulator<O> {
    /// The strings of each group.
    pub open spec fn groups(&self) -> Seq<Set<Seq<u8>>> {
        self.sets().groups()
    }

    /// The groups with what is kept for them.
    pub closed spec fn sets(&self) -> CollectSetGroups<Vec<u8>, GetSizeBytes> {
        self.groups
    }

    pub closed spec fn wf(&self) -> bool {
        self.groups.wf()
    }

    /// No groups yet.
    pub fn new() -> (accumulator: Self)
        ensures
            accumulator.wf(),
            accumulator.groups() == Seq::<Set<Seq<u8>>>::empty(),
            accumulator.sets().accounted_capacities() == 0,
    {
        CollectSetBytesGroupsAccumulator {
            groups: CollectSetGroups::new(),
            phantom_data: PhantomData,
        }
    }

    /// The number of groups.
    pub fn len(&self) -> (len: usize)
        ensures
            len == self.groups().len(),
    {
        self.groups.len()
    }

    /// Adds the string of each row to the row's group, but for rows that are null or do not pass
    /// the filter. There are `total_num_groups` groups afterwards.
    pub fn update_batch(
        &mut self,
        column: &ByteColumn<'_, O>,
        group_indices: &[usize],
        opt_filter: Option<&RowFilter>,
        total_num_groups: usize,
    ) -> (result: Result<(), BatchError>)
        requires
            old(self).wf(),
            old(self).groups().len() <= total_num_groups,
            column.wf(),
            column.len() == group_indices@.len(),
            fits_batch(opt_filter, column.nulls, group_indices@.len()),
            forall|i: int|
                0 <= i < group_indices@.len() && is_kept(opt_filter, column.nulls, i) ==> (
                #[trigger] group_indices@[i]) < total_num_groups,
        ensures
            result is Ok,
            final(self).wf(),
            old(self).sets().added(
                selected(
                    Seq::new(column.len(), |i: int| (group_indices@[i], column.ranges()[i])),
                    kept_mask(opt_filter, column.nulls, column.len()),
                ),
                total_num_groups as nat,
                &final(self).sets(),
            ),
    {
        self.groups.update_batch(
            column,
            column.nulls,
            group_indices,
            opt_filter,
            total_num_groups,
        );
        Ok(())
    }

    /// Adds the strings of each list to the list's group, but for lists that are null or do not
    /// pass the filter. There are `total_num_groups` groups afterwards. If one of the lists has a
    /// null in it, nothing is added.
    pub fn merge_batch(
        &mut self,
        column: &ByteColumn<'_, O>,
        lists: &ListRows<'_>,
        group_indices: &[usize],
        opt_filter: Option<&RowFilter>,
        total_num_groups: usize,
    ) -> (result: Result<(), BatchError>)
        requires
            old(self).wf(),
            old(self).groups().len() <= total_num_groups,
            column.wf(),
            column.nulls == lists.value_nulls,
            lists.within(column.len()),
            lists.len() == group_indices@.len(),
            fits_batch(opt_filter, lists.nulls, group_indices@.len()),
            forall|i: int|
                0 <= i < group_indices@.len() && is_kept(opt_filter, lists.nulls, i) ==> (
                #[trigger] group_indices@[i]) < total_num_groups,
        ensures
            final(self).wf(),
            result is Err <==> exists|i: int|
                0 <= i < lists.len() && is_kept(opt_filter, lists.nulls, i)
                    && #[trigger] lists.has_null(i),
            old(self).sets().added(
                if result is Err {
                    Seq::empty()
                } else {
                    concat(
                        selected(
                            Seq::new(
                                lists.len(),
                                |i: int| lists.pairs(column.ranges(), group_indices@, i),
                            ),
                            kept_mask(opt_filter, lists.nulls, lists.len()),
                        ),
                    )
                },
                total_num_groups as nat,
                &final(self).sets(),
            ),
    {
        self.groups.merge_batch(column, lists, group_indices, opt_filter, total_num_groups)
    }

    /// Whether [`Self::evaluate`] and [`Self::state`] can emit these groups and their bytes can be
    /// counted.
    pub fn can_emit(&self, emit_to: EmitTo) -> (fit: bool)
        requires
            self.wf(),
        ensures
            fit == {
                &&& byte_lists_fit::<O>(self.groups(), emit_to)
                &&& total(
                    group_bytes(self.groups().take(emit_to.count(self.groups().len()) as int)),
                ) < usize::MAX
            },
    {
        if !self.groups.lists_fit(emit_to) {
            return false;
        }
        let n: usize = match emit_to {
            EmitTo::All => self.groups.len(),
            EmitTo::First(n) => n,
        };
        let ghost sizes = group_bytes(self.groups().take(n as int));
        let limit: usize = O::max_usize();
        let mut left: usize = limit;
        let mut g: usize = 0;
        assert(sizes.take(0) =~= Seq::<int>::empty());
        while g < n
            invariant
                self.wf(),
                0 <= g <= n <= self.groups().len(),
                n == emit_to.count(self.groups().len()),
                lists_fit(self.groups(), emit_to),
                sizes == group_bytes(self.groups().take(n as int)),
                limit == if O::max_offset() <= usize::MAX {
                    O::max_offset()
                } else {
                    usize::MAX as int
                },
                left == limit - total(sizes.take(g as int)),
                total(sizes.take(g as int)) < usize::MAX,
            decreases n - g,
        {
            let size: usize = self.groups.group_size(g);
            proof {
                let bytes = sizes[g as int];
                assert(bytes == bytes_in(self.groups()[g as int]));
                assert(sizes.take(g + 1) =~= sizes.take(g as int).push(bytes));
                lemma_total_push(sizes.take(g as int), bytes);
                lemma_total_part(sizes, 0, g as int);
                lemma_total_part(sizes, 0, g + 1);
                assert(sizes.subrange(0, g as int) =~= sizes.take(g as int));
                assert(sizes.subrange(0, g + 1) =~= sizes.take(g + 1));
            }
            if size > left || limit - (left - size) == usize::MAX {
                return false;
            }
            left -= size;
            g += 1;
        }
        assert(sizes.take(n as int) =~= sizes);
        true
    }

    /// Emits groups: a list of the strings of each. The groups that are left move up.
    pub fn evaluate(&mut self, emit_to: EmitTo) -> (lists: ByteLists<O>)
        requires
            old(self).wf(),
            byte_lists_fit::<O>(old(self).groups(), emit_to),
        ensures
            final(self).wf(),
            lists.lists(old(self).groups().take(emit_to.count(old(self).groups().len()) as int)),
            final(self).groups() == old(self).groups().skip(
                emit_to.count(old(self).groups().len()) as int,
            ),
            is_left_accounted(
                old(self).sets().accounted_capacities(),
                old(self).groups(),
                emit_to.count(old(self).groups().len()) as int,
                final(self).sets().accounted_capacities(),
            ),
            is_emptied(
                old(self).sets().unique_values(),
                final(self).sets().unique_values(),
                emit_to.count(old(self).groups().len()) == old(self).groups().len(),
            ),
    {
        let n: usize = match emit_to {
            EmitTo::All => self.groups.len(),
            EmitTo::First(n) => n,
        };
        let indices: Vec<Vec<usize>> = self.groups.group_lists(n);
        let lists = self.build_list(&indices, Ghost(self.groups().take(n as int)));
        let blank: Vec<u8> = Vec::new();
        self.groups.release_first(&indices, Some(&blank));
        lists
    }

    /// Emits groups as [`Self::evaluate`] does, as the one column of a state.
    pub fn state(&mut self, emit_to: EmitTo) -> (columns: Vec<ByteLists<O>>)
        requires
            old(self).wf(),
            byte_lists_fit::<O>(old(self).groups(), emit_to),
        ensures
            final(self).wf(),
            columns@.len() == 1,
            columns@[0].lists(
                old(self).groups().take(emit_to.count(old(self).groups().len()) as int),
            ),
            final(self).groups() == old(self).groups().skip(
                emit_to.count(old(self).groups().len()) as int,
            ),
            is_left_accounted(
                old(self).sets().accounted_capacities(),
                old(self).groups(),
                emit_to.count(old(self).groups().len()) as int,
                final(self).sets().accounted_capacities(),
            ),
            is_emptied(
                old(self).sets().unique_values(),
                final(self).sets().unique_values(),
                emit_to.count(old(self).groups().len()) == old(self).groups().len(),
            ),
    {
        let lists = self.evaluate(emit_to);
        let mut columns: Vec<ByteLists<O>> = Vec::new();
        columns.push(lists);
        columns
    }

    /// The strings at the given places, a list for each group.
    fn build_list(&self, indices: &Vec<Vec<usize>>, Ghost(groups): Ghost<Seq<Set<Seq<u8>>>>) -> (
    lists: ByteLists<O>)
        requires
            self.wf(),
            self.groups.are_lists(indices@, groups),
            total(group_sizes(groups)) <= i32::MAX,
            total(group_bytes(groups)) <= O::max_offset(),
        ensures
            lists.lists(groups),
    {
        let ghost all = self.groups.lists_at(indices@);
        proof {
            self.groups.lemma_list_lens(indices@, groups);
            lemma_flat_bytes(all, groups);
        }
        let offsets: Vec<i32> = build_list_offsets(indices);
        let bytes: Buffer = self.build_byte_values(indices, Ghost(groups));
        let byte_offsets: Vec<O> = self.build_bytes_offsets(indices, Ghost(groups));
        let values = ByteBlock { offsets: byte_offsets, bytes, nulls: None };
        proof {
            lemma_cut_again(concat(all));
            lemma_lists(offsets@, all, groups);
        }
        ByteLists { offsets, values }
    }

    /// The offsets of the strings at the given places.
    fn build_bytes_offsets(
        &self,
        indices: &Vec<Vec<usize>>,
        Ghost(groups): Ghost<Seq<Set<Seq<u8>>>>,
    ) -> (offsets: Vec<O>)
        requires
            self.groups.are_lists(indices@, groups),
            total(lens(concat(self.groups.lists_at(indices@)))) <= O::max_offset(),
        ensures
            is_offsets_of(offsets@, lens(concat(self.groups.lists_at(indices@)))),
    {
        let ghost all = self.groups.lists_at(indices@);
        let ghost flat = concat(all);
        let mut block: OffsetBlock<O> = OffsetBlock::new();
        let mut g: usize = 0;
        assert(all.take(0) =~= Seq::<Seq<Seq<u8>>>::empty());
        assert(lens(Seq::<Seq<u8>>::empty()) =~= Seq::<int>::empty());
        while g < indices.len()
            invariant
                self.groups.are_lists(indices@, groups),
                all == self.groups.lists_at(indices@),
                flat == concat(all),
                total(lens(flat)) <= O::max_offset(),
                0 <= g <= indices@.len(),
                block.valid(),
                block.items() == lens(concat(all.take(g as int))),
            decreases indices@.len() - g,
        {
            let mut k: usize = 0;
            proof {
                lemma_concat_push(all.take(g as int), all[g as int]);
                assert(all.take(g + 1) =~= all.take(g as int).push(all[g as int]));
                assert(concat(all.take(g as int)) + all[g as int].take(0) =~= concat(
                    all.take(g as int),
                ));
            }
            while k < indices[g].len()
                invariant
                    self.groups.are_lists(indices@, groups),
                    all == self.groups.lists_at(indices@),
                    flat == concat(all),
                    total(lens(flat)) <= O::max_offset(),
                    0 <= g < indices@.len(),
                    0 <= k <= indices@[g as int]@.len(),
                    block.valid(),
                    block.items() == lens(concat(all.take(g as int)) + all[g as int].take(k as int)),
                decreases indices@[g as int]@.len() - k,
            {
                assert(self.groups.has(indices@[g as int]@[k as int]));
                let len: usize = self.groups.value_at(indices[g][k]).len();
                proof {
                    lemma_next_len(all, g as int, k as int);
                }
                block.push_length(O::usize_as(len));
                k += 1;
            }
            assert(all[g as int].take(k as int) =~= all[g as int]);
            g += 1;
        }
        assert(all.take(g as int) =~= all);
        block.finish()
    }

    /// The bytes of the strings at the given places.
    fn build_byte_values(
        &self,
        indices: &Vec<Vec<usize>>,
        Ghost(groups): Ghost<Seq<Set<Seq<u8>>>>,
    ) -> (bytes: Buffer)
        requires
            self.groups.are_lists(indices@, groups),
        ensures
            buffer_bytes(bytes) == concat(concat(self.groups.lists_at(indices@))),
    {
        let ghost all = self.groups.lists_at(indices@);
        let mut bytes: Vec<u8> = Vec::new();
        let mut g: usize = 0;
        assert(all.take(0) =~= Seq::<Seq<Seq<u8>>>::empty());
        while g < indices.len()
            invariant
                self.groups.are_lists(indices@, groups),
                all == self.groups.lists_at(indices@),
                0 <= g <= indices@.len(),
                bytes@ == concat(concat(all.take(g as int))),
            decreases indices@.len() - g,
        {
            let mut k: usize = 0;
            proof {
                lemma_concat_push(all.take(g as int), all[g as int]);
                assert(all.take(g + 1) =~= all.take(g as int).push(all[g as int]));
                assert(concat(all.take(g as int)) + all[g as int].take(0) =~= concat(
                    all.take(g as int),
                ));
            }
            while k < indices[g].len()
                invariant
                    self.groups.are_lists(indices@, groups),
                    all == self.groups.lists_at(indices@),
                    0 <= g < indices@.len(),
                    0 <= k <= indices@[g as int]@.len(),
                    bytes@ == concat(concat(all.take(g as int)) + all[g as int].take(k as int)),
                decreases indices@[g as int]@.len() - k,
            {
                assert(self.groups.has(indices@[g as int]@[k as int]));
                let string: &Vec<u8> = self.groups.value_at(indices[g][k]);
                let ghost before = concat(all.take(g as int)) + all[g as int].take(k as int);
                let ghost so_far = bytes@;
                bytes.extend_from_slice(string.as_slice());
                proof {
                    assert(bytes@ =~= so_far + string@);
                    lemma_concat_push(before, string@);
                    assert(all[g as int].take(k + 1) =~= all[g as int].take(k as int).push(string@));
                    assert(concat(all.take(g as int)) + all[g as int].take(k + 1) =~= before.push(
                        string@,
                    ));
                }
                k += 1;
            }
            assert(all[g as int].take(k as int) =~= all[g as int]);
            g += 1;
        }
        assert(all.take(g as int) =~= all);
        buffer_from_bytes(bytes)
    }

    /// Bytes that the accumulator takes, or the largest number there is if they are more than that.
    pub fn size(&self) -> (bytes: usize)
        requires
            self.wf(),
        ensures
            exists|sets: usize| #[trigger]
                self.sets().is_size(sets) && bytes == saturated(size_of::<Self>() + sets as nat),
    {
        let sets: usize = self.groups.size();
        assert(self.sets().is_size(sets));
        core::mem::size_of::<Self>().saturating_add(sets)
    }
}

/// The unique strings after groups were emitted: none if all groups were; else those at places that
/// became available hold no bytes, and the others are the same.
pub open spec fn is_emptied(
    before: CollectSetGroupAccumulatorValues<Vec<u8>, GetSizeBytes>,
    after: CollectSetGroupAccumulatorValues<Vec<u8>, GetSizeBytes>,
    all: bool,
) -> bool {
    if all {
        after.values() == Seq::<Vec<u8>>::empty()
    } else {
        &&& before.available().len() <= after.available().len()
        &&& after.available().take(before.available().len() as int) == before.available()
        &&& after.values().len() == before.values().len()
        &&& forall|i: int|
            0 <= i < after.values().len() ==> (#[trigger] after.values()[i])@
                == if before.is_vacated(i, &after) {
                Seq::<u8>::empty()
            } else {
                before.values()[i]@
            }
    }
}

/// What comes before an item of a list, and the item, start all the items.
proof fn lemma_prefix(all: Seq<Seq<Seq<u8>>>, g: int, k: int)
    requires
        0 <= g < all.len(),
        0 <= k < all[g].len(),
    ensures
        ({
            let before = concat(all.take(g)) + all[g].take(k);
            &&& before.len() < concat(all).len()
            &&& concat(all).take(before.len() as int) == before
            &&& concat(all)[before.len() as int] == all[g][k]
        }),
{
    lemma_concat_at(all, g);
    let before = concat(all.take(g)) + all[g].take(k);
    assert(concat(all).take(before.len() as int) =~= before);
}

/// The lengths up to an item and with it.
proof fn lemma_next_len(all: Seq<Seq<Seq<u8>>>, g: int, k: int)
    requires
        0 <= g < all.len(),
        0 <= k < all[g].len(),
    ensures
        ({
            let before = lens(concat(all.take(g)) + all[g].take(k));
            let after = lens(concat(all.take(g)) + all[g].take(k + 1));
            &&& after == before.push(all[g][k].len() as int)
            &&& total(after) == total(before) + all[g][k].len()
            &&& 0 <= total(before) <= total(after) <= total(lens(concat(all)))
        }),
{
    let string = all[g][k];
    let before = concat(all.take(g)) + all[g].take(k);
    let after = before.push(string);
    let flat = concat(all);
    lemma_prefix(all, g, k);
    assert(all[g].take(k + 1) =~= all[g].take(k).push(string));
    assert(concat(all.take(g)) + all[g].take(k + 1) =~= after);
    assert(lens(after) =~= lens(before).push(string.len() as int));
    lemma_total_push(lens(before), string.len() as int);
    assert(lens(flat).subrange(0, after.len() as int) =~= lens(after));
    lemma_total_part(lens(flat), 0, after.len() as int);
    lemma_total_part(lens(flat), 0, before.len() as int);
    assert(lens(flat).subrange(0, before.len() as int) =~= lens(before));
}

/// All the strings together have as many bytes as the groups.
proof fn lemma_flat_bytes(all: Seq<Seq<Seq<u8>>>, groups: Seq<Set<Seq<u8>>>)
    requires
        all.len() == groups.len(),
        forall|g: int| 0 <= g < all.len() ==> is_listing(#[trigger] all[g], groups[g]),
    ensures
        total(lens(concat(all))) == total(group_bytes(groups)),
    decreases all.len(),
{
    if all.len() > 0 {
        let n = all.len() - 1;
        let init = all.drop_last();
        let rest = groups.drop_last();
        assert forall|g: int| 0 <= g < init.len() implies is_listing(
            #[trigger] init[g],
            rest[g],
        ) by {
            assert(is_listing(all[g], groups[g]));
        }
        lemma_flat_bytes(init, rest);
        assert(is_listing(all[n], groups[n]));
        lemma_bytes_in_listing(all[n], groups[n]);
        assert(group_bytes(groups).drop_last() =~= group_bytes(rest));
        assert(lens(concat(init) + all[n]) =~= lens(concat(init)) + lens(all[n]));
        lemma_total_add(lens(concat(init)), lens(all[n]));
    } else {
        assert(lens(concat(all)) =~= Seq::<int>::empty());
    }
}

} // verus!
