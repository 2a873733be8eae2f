//! The values of groups as lists.

use crate::aggregate::count_distinct::collect_set::{CollectSetGroups, EmitTo};
use crate::aggregate::count_distinct::distinct_value::DistinctValue;
use crate::aggregate::count_distinct::helpers::group_accumulator_unique_values::GetHeapAllocatedSize;
use crate::aggregate::count_distinct::helpers::track_single_group_unique_indices::is_listing;
use crate::arrow_buffers::offsets_from_lengths;
use crate::blocked_helpers::layout::{concat, lemma_concat_at};
use crate::blocked_helpers::offset_size::{
    is_offsets_of, lemma_offset_is_total, lemma_total_part, lemma_total_push, total,
};
use vstd::prelude::*;

verus! {

/// The number of values in each group.
pub open spec fn group_sizes<M>(groups: Seq<Set<M>>) -> Seq<int> {
    Seq::new(groups.len(), |g: int| groups[g].len() as int)
}

/// The list of a group: the values between two offsets.
pub open spec fn list_at<M>(offsets: Seq<i32>, values: Seq<M>, g: int) -> Seq<M> {
    values.subrange(offsets[g] as int, offsets[g + 1] as int)
}

/// For each group there is a list of its values, each once, and there is nothing else.
pub open spec fn is_lists_of<M>(offsets: Seq<i32>, values: Seq<M>, groups: Seq<Set<M>>) -> bool {
    &&& is_offsets_of(offsets, group_sizes(groups))
    &&& values.len() == offsets.last()
    &&& forall|g: int|
        0 <= g < groups.len() ==> is_listing(#[trigger] list_at(offsets, values, g), groups[g])
}

/// The lengths of the lists.
pub open spec fn lens_of<M>(lists: Seq<Seq<M>>) -> Seq<int> {
    Seq::new(lists.len(), |g: int| lists[g].len() as int)
}

/// All the lists behind each other are as long as the sum of their lengths.
pub proof fn lemma_concat_len<M>(lists: Seq<Seq<M>>)
    ensures
        concat(lists).len() == total(lens_of(lists)),
    decreases lists.len(),
{
    if lists.len() > 0 {
        lemma_concat_len(lists.drop_last());
        assert(lens_of(lists).drop_last() =~= lens_of(lists.drop_last()));
    }
}

/// A listing is as long as the set that it lists is large.
pub proof fn lemma_listing_len<M>(items: Seq<M>, set: Set<M>)
    requires
        is_listing(items, set),
    ensures
        items.len() == set.len(),
{
    items.unique_seq_to_set();
}

/// Lists of the values of each group, put behind each other.
pub proof fn lemma_lists<M>(offsets: Seq<i32>, lists: Seq<Seq<M>>, groups: Seq<Set<M>>)
    requires
        lists.len() == groups.len(),
        forall|g: int| 0 <= g < lists.len() ==> is_listing(#[trigger] lists[g], groups[g]),
        is_offsets_of(offsets, lens_of(lists)),
    ensures
        is_lists_of(offsets, concat(lists), groups),
{
    let values = concat(lists);
    let lens = lens_of(lists);
    assert forall|g: int| 0 <= g < groups.len() implies lens[g] == groups[g].len() by {
        lemma_listing_len(lists[g], groups[g]);
    }
    assert(group_sizes(groups) =~= lens);
    lemma_concat_len(lists);
    lemma_offset_is_total(offsets, offsets.len() - 1);
    assert(lens.take(offsets.len() - 1) =~= lens);
    assert forall|g: int| 0 <= g < groups.len() implies is_listing(
        #[trigger] list_at(offsets, values, g),
        groups[g],
    ) by {
        lemma_concat_at(lists, g);
        lemma_concat_len(lists.take(g));
        assert(lens_of(lists.take(g)) =~= lens.take(g));
        lemma_offset_is_total(offsets, g);
        assert(lens[g] == offsets[g + 1] - offsets[g]);
        assert(list_at(offsets, values, g) =~= lists[g]);
    }
}

/// The offsets of lists.
pub(crate) fn build_list_offsets(lists: &Vec<Vec<usize>>) -> (offsets: Vec<i32>)
    requires
        total(lens_of(views(lists@))) <= i32::MAX,
    ensures
        is_offsets_of(offsets@, lens_of(views(lists@))),
{
    let mut lengths: Vec<usize> = Vec::with_capacity(lists.len());
    let mut g: usize = 0;
    while g < lists.len()
        invariant
            0 <= g <= lists@.len(),
            lengths@.len() == g,
            forall|i: int| 0 <= i < g ==> (#[trigger] lengths@[i]) == lists@[i]@.len(),
        decreases lists@.len() - g,
    {
        lengths.push(lists[g].len());
        g += 1;
    }
    assert(lengths@.map_values(|len: usize| len as int) =~= lens_of(views(lists@)));
    offsets_from_lengths(lengths)
}

impl<V: DistinctValue, GetSizeV: GetHeapAllocatedSize<V>> CollectSetGroups<V, GetSizeV> {
    /// The values at the places in each list.
    pub open spec fn lists_at(&self, lists: Seq<Vec<usize>>) -> Seq<Seq<V::Model>> {
        Seq::new(lists.len(), |g: int| self.models_at(lists[g]@))
    }

    /// For each group there is a list of the places of its values.
    pub open spec fn are_lists(&self, lists: Seq<Vec<usize>>, groups: Seq<Set<V::Model>>) -> bool {
        &&& lists.len() == groups.len()
        &&& forall|g: int, k: int|
            0 <= g < lists.len() && 0 <= k < lists[g]@.len() ==> self.has(
                #[trigger] lists[g]@[k],
            )
        &&& forall|g: int|
            0 <= g < lists.len() ==> is_listing(
                self.models_at((#[trigger] lists[g])@),
                groups[g],
            )
    }

    /// The lists are as long as the groups are large.
    pub proof fn lemma_list_lens(&self, lists: Seq<Vec<usize>>, groups: Seq<Set<V::Model>>)
        requires
            self.are_lists(lists, groups),
        ensures
            lens_of(views(lists)) == group_sizes(groups),
            lens_of(self.lists_at(lists)) == group_sizes(groups),
            forall|g: int|
                0 <= g < lists.len() ==> is_listing(
                    #[trigger] self.lists_at(lists)[g],
                    groups[g],
                ),
    {
        assert forall|g: int| 0 <= g < lists.len() implies lists[g]@.len() == groups[g].len() by {
            lemma_listing_len(self.models_at(lists[g]@), groups[g]);
        }
        assert(lens_of(views(lists)) =~= group_sizes(groups));
        assert(lens_of(self.lists_at(lists)) =~= group_sizes(groups));
    }

    /// Whether these groups exist and their values fit into lists with 32 bit offsets.
    pub fn lists_fit(&self, emit_to: EmitTo) -> (fit: bool)
        requires
            self.wf(),
        ensures
            fit == lists_fit(self.groups(), emit_to),
    {
        let len: usize = self.len();
        let n: usize = match emit_to {
            EmitTo::All => len,
            EmitTo::First(n) => n,
        };
        if n > len {
            return false;
        }
        let ghost sizes = group_sizes(self.groups().take(n as int));
        let mut left: usize = i32::MAX as usize;
        let mut g: usize = 0;
        assert(sizes.take(0) =~= Seq::<int>::empty());
        while g < n
            invariant
                self.wf(),
                0 <= g <= n <= self.groups().len(),
                n == emit_to.count(self.groups().len()),
                sizes == group_sizes(self.groups().take(n as int)),
                left == i32::MAX - total(sizes.take(g as int)),
            decreases n - g,
        {
            let size: usize = self.group_len(g);
            proof {
                assert(sizes.take(g + 1) =~= sizes.take(g as int).push(size as int));
                lemma_total_push(sizes.take(g as int), size as int);
                lemma_total_part(sizes, 0, g + 1);
                assert(sizes.subrange(0, g + 1) =~= sizes.take(g + 1));
            }
            if size > left {
                return false;
            }
            left -= size;
            g += 1;
        }
        assert(sizes.take(n as int) =~= sizes);
        true
    }
}

/// The groups exist, and their values fit into lists with 32 bit offsets.
pub open spec fn lists_fit<M>(groups: Seq<Set<M>>, emit_to: EmitTo) -> bool {
    let n = emit_to.count(groups.len());
    &&& n <= groups.len()
    &&& total(group_sizes(groups.take(n as int))) <= i32::MAX
}

/// What the vectors hold.
pub open spec fn views<T>(lists: Seq<Vec<T>>) -> Seq<Seq<T>> {
    Seq::new(lists.len(), |g: int| lists[g]@)
}

} // verus!
