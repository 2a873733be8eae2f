//! Values of any kind in blocks of any kind.

use crate::blocked_helpers::layout::{
    appended, concat, count_blocks_needed, lemma_appended, lemma_appended_nothing,
    lemma_appended_step, lemma_appended_twice, lemma_appended_within, lemma_concat_at,
    lemma_concat_first, lemma_concat_one, valid_blocks,
};
use crate::collections::{deque_at_mut, deque_capacity, take_from};
use crate::memory::{allocated_bytes, cover, has_room, is_queue_size};
use crate::groups_accumulator::BlocksIndex;
use std::collections::VecDeque;
use std::ops::Index;
use vstd::layout::size_of;
use vstd::prelude::*;
use vstd::std_specs::iter::IteratorSpec;

verus! {

/// Makes the blocks that a builder fills.
pub trait BlockProvider {
    type Block: Block;

    fn new_block(&self) -> (block: Self::Block)
        ensures
            block.items() == Seq::<<Self::Block as Block>::Item>::empty(),
    ;
}

/// Turns a block that is no longer written to into its final form.
pub trait BlockProviderFinish: BlockProvider {
    type FinishedBlock;

    /// The finished block holds exactly these items.
    spec fn is_finished(
        finished: Self::FinishedBlock,
        items: Seq<<Self::Block as Block>::Item>,
    ) -> bool;

    fn finish(&self, block: Self::Block) -> (finished: Self::FinishedBlock)
        ensures
            Self::is_finished(finished, block.items()),
    ;
}

/// A block of items.
pub trait Block: Sized {
    type Item;

    /// The items in the block.
    spec fn items(&self) -> Seq<Self::Item>;

    /// The bytes that these items take in a block.
    spec fn bytes_of(items: Seq<Self::Item>) -> nat;

    /// Allocated bytes on the heap (not including `size_of::<Self>()`), at least those that the
    /// items take and no more than one allocation can have.
    fn allocated_size(&self) -> (bytes: usize)
        ensures
            Self::bytes_of(self.items()) <= bytes <= isize::MAX,
    ;

    fn push(&mut self, item: Self::Item)
        requires
            old(self).items().len() < usize::MAX,
        ensures
            final(self).items() == old(self).items().push(item),
    ;

    fn extend<I: Iterator<Item = Self::Item>>(&mut self, iter: I)
        requires
            iter.obeys_prophetic_iter_laws(),
            iter.decrease() is Some,
            old(self).items().len() + iter.remaining().len() <= usize::MAX,
        ensures
            final(self).items() == old(self).items() + iter.remaining(),
    ;

    /// Number of items in the block.
    fn len(&self) -> (len: usize)
        ensures
            len == self.items().len(),
    ;

    fn is_empty(&self) -> (empty: bool)
        ensures
            empty == (self.items().len() == 0),
    ;
}

/// A block that can take items it is not given to keep.
pub trait BlockWithSlice: Block {
    /// The block stores `stored` when it is given `given`.
    spec fn stores(given: Self::Item, stored: Self::Item) -> bool;

    fn extend_from_slice(&mut self, slice: &[Self::Item])
        requires
            old(self).items().len() + slice@.len() <= usize::MAX,
        ensures
            final(self).items().len() == old(self).items().len() + slice@.len(),
            final(self).items().take(old(self).items().len() as int) == old(self).items(),
            forall|i: int|
                0 <= i < slice@.len() ==> Self::stores(
                    #[trigger] slice@[i],
                    final(self).items()[old(self).items().len() + i],
                ),
    ;

    fn append_n(&mut self, item: Self::Item, n: usize)
        requires
            old(self).items().len() + n <= usize::MAX,
        ensures
            final(self).items().len() == old(self).items().len() + n,
            final(self).items().take(old(self).items().len() as int) == old(self).items(),
            forall|i: int|
                old(self).items().len() <= i < final(self).items().len() ==> Self::stores(
                    item,
                    #[trigger] final(self).items()[i],
                ),
    ;
}

/// A block whose items can be reached by their index.
pub trait IndexedBlock: Block {
    fn item(&self, index: usize) -> (item: &Self::Item)
        requires
            index < self.items().len(),
        ensures
            *item == self.items()[index as int],
    ;

    fn item_mut(&mut self, index: usize) -> (item: &mut Self::Item)
        requires
            index < old(self).items().len(),
        ensures
            *item == old(self).items()[index as int],
            final(self).items() == old(self).items().update(index as int, *final(item)),
    ;
}

/// The items of each block.
pub open spec fn block_items<B: Block>(blocks: Seq<B>) -> Seq<Seq<B::Item>> {
    Seq::new(blocks.len(), |i: int| blocks[i].items())
}

/// The bytes that the items of each block take.
pub open spec fn bytes_in_blocks<B: Block>(blocks: Seq<Seq<B::Item>>) -> Seq<nat> {
    Seq::new(blocks.len(), |i: int| B::bytes_of(blocks[i]))
}

/// What the blocks store when they are given the items of a slice.
pub open spec fn stored<B: BlockWithSlice>(given: Seq<B::Item>, stored: Seq<B::Item>) -> bool {
    &&& stored.len() == given.len()
    &&& forall|i: int| 0 <= i < given.len() ==> B::stores(#[trigger] given[i], stored[i])
}

/// What the blocks store when they are given clones of a value.
pub open spec fn stored_clones<B: BlockWithSlice>(value: B::Item, stored: Seq<B::Item>) -> bool
    where B::Item: Clone
 {
    forall|i: int|
        0 <= i < stored.len() ==> stores_clone::<B>(value, #[trigger] stored[i])
}

/// The block stores `stored` when it is given `value` or a clone of it.
pub open spec fn stores_clone<B: BlockWithSlice>(value: B::Item, stored: B::Item) -> bool where
    B::Item: Clone
 {
    exists|copy: B::Item| #[trigger] cloned(value, copy) && B::stores(copy, stored)
}

/// Collects items, block by block.
///
/// When `FIXED_BLOCK_SIZING` is true every block is closed once it holds `block_size` items;
/// otherwise the callers decide when a new block starts.
#[derive(Debug)]
pub struct BlockedCustomInputBuilder<
    const FIXED_BLOCK_SIZING: bool,
    CustomBlockProvider: BlockProvider,
> {
    blocks_provider: CustomBlockProvider,
    /// A queue, so that the first block can be handed out. There is always a block to write to.
    blocks: VecDeque<CustomBlockProvider::Block>,
    /// The number of items in a full block.
    block_size: usize,
    /// The number of items.
    len: usize,
    /// The last block was only opened to have one to write to: while nothing goes into it,
    /// it is not one of the blocks that can be taken.
    pending_block: bool,
}

impl<
    const FIXED_BLOCK_SIZING: bool,
    CustomBlockProvider: BlockProvider,
> BlockedCustomInputBuilder<FIXED_BLOCK_SIZING, CustomBlockProvider> {
    /// The items in each block, the block being written to included.
    pub closed spec fn blocks(&self) -> Seq<Seq<<CustomBlockProvider::Block as Block>::Item>> {
        block_items(self.blocks@)
    }

    /// The last block is empty and not yet one of those that can be taken.
    pub closed spec fn pending(&self) -> bool {
        self.pending_block
    }

    /// The number of items in a full block.
    pub closed spec fn cap(&self) -> nat {
        self.block_size as nat
    }

    /// What makes the blocks.
    pub closed spec fn provider(&self) -> CustomBlockProvider {
        self.blocks_provider
    }

    /// All the items.
    pub open spec fn items(&self) -> Seq<<CustomBlockProvider::Block as Block>::Item> {
        concat(self.blocks())
    }

    /// There is a block to take.
    pub open spec fn has_block(&self) -> bool {
        !self.pending() || self.blocks().len() > 1
    }

    /// A position where there is an item.
    pub open spec fn has(&self, index: BlocksIndex) -> bool {
        &&& index.block_index < self.blocks().len()
        &&& index.index_in_block < self.blocks()[index.block_index as int].len()
    }

    pub closed spec fn wf(&self) -> bool {
        &&& valid_blocks(FIXED_BLOCK_SIZING, self.cap(), self.blocks())
        &&& self.len == self.items().len()
        &&& self.pending() ==> self.blocks().last().len() == 0
    }

    /// `after` is this builder with `items` added behind the others.
    pub open spec fn added(
        &self,
        items: Seq<<CustomBlockProvider::Block as Block>::Item>,
        after: &Self,
    ) -> bool {
        &&& after.wf()
        &&& after.cap() == self.cap()
        &&& after.provider() == self.provider()
        &&& after.blocks() == appended(FIXED_BLOCK_SIZING, self.cap(), self.blocks(), items)
    }

    /// `after` is this builder after an item was pushed. The last block is pending exactly if it was
    /// opened because the item filled the one before.
    pub open spec fn pushed(
        &self,
        item: <CustomBlockProvider::Block as Block>::Item,
        after: &Self,
    ) -> bool {
        &&& self.added(seq![item], after)
        &&& after.pending() == (FIXED_BLOCK_SIZING && self.blocks().last().len() + 1 == self.cap())
    }

    /// `after` is this builder after the items of a slice were added: what the blocks store of them.
    pub open spec fn added_slice(
        &self,
        slice: Seq<<CustomBlockProvider::Block as Block>::Item>,
        after: &Self,
    ) -> bool where CustomBlockProvider::Block: BlockWithSlice {
        &&& exists|items: Seq<<CustomBlockProvider::Block as Block>::Item>| #[trigger]
            stored::<CustomBlockProvider::Block>(slice, items) && self.added(items, after)
        &&& after.pending() == if slice.len() == 0 {
            self.pending()
        } else {
            FIXED_BLOCK_SIZING && after.blocks().last().len() == 0
        }
    }

    /// `after` is this builder after a value was added `n` times: what the blocks store of it and
    /// its clones.
    pub open spec fn added_n(
        &self,
        value: <CustomBlockProvider::Block as Block>::Item,
        n: nat,
        after: &Self,
    ) -> bool where
        CustomBlockProvider::Block: BlockWithSlice,
        <CustomBlockProvider::Block as Block>::Item: Clone,
     {
        &&& exists|items: Seq<<CustomBlockProvider::Block as Block>::Item>|
            {
                &&& items.len() == n
                &&& #[trigger] stored_clones::<CustomBlockProvider::Block>(value, items)
                &&& self.added(items, after)
            }
        &&& after.pending() == if FIXED_BLOCK_SIZING && n == 0 {
            self.pending()
        } else {
            FIXED_BLOCK_SIZING && after.blocks().last().len() == 0
        }
    }

    /// `after` is this builder without its first block.
    pub open spec fn without_first_block(&self, after: &Self) -> bool {
        &&& after.wf()
        &&& after.cap() == self.cap()
        &&& after.provider() == self.provider()
        &&& after.blocks() == if self.blocks().len() == 1 {
            seq![Seq::empty()]
        } else {
            self.blocks().skip(1)
        }
        &&& after.pending() == (self.pending() || self.blocks().len() == 1)
    }

    /// What holds of the blocks of every builder.
    pub proof fn lemma_wf(&self)
        requires
            self.wf(),
        ensures
            valid_blocks(FIXED_BLOCK_SIZING, self.cap(), self.blocks()),
            self.pending() ==> self.blocks().last().len() == 0,
            self.items().len() <= usize::MAX,
    {
    }

    /// The last block is no longer than all blocks together.
    proof fn lemma_last_len(&self)
        requires
            self.wf(),
        ensures
            self.blocks().last().len() <= self.items().len(),
    {
        lemma_concat_at(self.blocks(), self.blocks().len() - 1);
    }

    /// The last block of the builder after adding items that the last block has room for is
    /// empty exactly if they filled it.
    proof fn lemma_filled(
        &self,
        items: Seq<<CustomBlockProvider::Block as Block>::Item>,
        after: &Self,
    )
        requires
            self.wf(),
            self.added(items, after),
            items.len() > 0,
            FIXED_BLOCK_SIZING ==> self.blocks().last().len() + items.len() <= self.cap(),
        ensures
            (after.blocks().last().len() == 0) == (FIXED_BLOCK_SIZING && self.blocks().last().len()
                + items.len() == self.cap()),
            after.items() == self.items() + items,
    {
        lemma_appended_within(FIXED_BLOCK_SIZING, self.cap(), self.blocks(), items);
        lemma_appended(FIXED_BLOCK_SIZING, self.cap(), self.blocks(), items);
    }

    /// Adding in two steps adds both parts.
    proof fn lemma_added_more(
        &self,
        items: Seq<<CustomBlockProvider::Block as Block>::Item>,
        now: &Self,
        more: Seq<<CustomBlockProvider::Block as Block>::Item>,
        after: &Self,
    )
        requires
            self.wf(),
            self.added(items, now),
            now.added(more, after),
        ensures
            self.added(items + more, after),
            after.items() == self.items() + (items + more),
    {
        lemma_appended_twice(FIXED_BLOCK_SIZING, self.cap(), self.blocks(), items, more);
        lemma_appended(FIXED_BLOCK_SIZING, self.cap(), self.blocks(), items + more);
    }

    pub fn new(block_size: usize, blocks_provider: CustomBlockProvider) -> (builder: Self)
        requires
            FIXED_BLOCK_SIZING ==> block_size > 0,
        ensures
            builder.wf(),
            builder.blocks() == seq![Seq::<<CustomBlockProvider::Block as Block>::Item>::empty()],
            !builder.pending(),
            builder.cap() == block_size,
            builder.provider() == blocks_provider,
    {
        let mut blocks: VecDeque<CustomBlockProvider::Block> = VecDeque::new();
        blocks.push_back(blocks_provider.new_block());
        let builder = BlockedCustomInputBuilder {
            blocks_provider,
            blocks,
            block_size,
            len: 0,
            pending_block: false,
        };
        proof {
            let none = Seq::<<CustomBlockProvider::Block as Block>::Item>::empty();
            assert(builder.blocks() =~= seq![none]);
            lemma_concat_one(none);
        }
        builder
    }

    pub fn blocks_provider(&self) -> (provider: &CustomBlockProvider)
        ensures
            *provider == self.provider(),
    {
        &self.blocks_provider
    }

    pub fn is_empty(&self) -> (empty: bool)
        requires
            self.wf(),
        ensures
            empty == (self.items().len() == 0),
    {
        self.len == 0
    }

    /// The number of items.
    pub fn len(&self) -> (len: usize)
        requires
            self.wf(),
        ensures
            len == self.items().len(),
    {
        self.len
    }

    /// The number of items in a full block.
    pub fn block_size(&self) -> (block_size: usize)
        ensures
            block_size == self.cap(),
    {
        self.block_size
    }

    /// Heap bytes that the builder has allocated, or the largest number there is if they are
    /// more than that.
    pub fn allocated_size(&self) -> (bytes: usize)
        requires
            self.wf(),
        ensures
            is_queue_size(
                bytes,
                size_of::<CustomBlockProvider::Block>(),
                bytes_in_blocks::<CustomBlockProvider::Block>(self.blocks()),
            ),
    {
        let ghost used = bytes_in_blocks::<CustomBlockProvider::Block>(self.blocks());
        let mut sizes: Vec<usize> = Vec::new();
        let mut i: usize = 0;
        while i < self.blocks.len()
            invariant
                used == bytes_in_blocks::<CustomBlockProvider::Block>(self.blocks()),
                i == sizes@.len() <= self.blocks@.len(),
                forall|k: int| 0 <= k < i ==> used[k] <= #[trigger] sizes@[k] <= isize::MAX,
            decreases self.blocks@.len() - i,
        {
            sizes.push(self.blocks[i].allocated_size());
            i += 1;
        }
        let capacity: usize = deque_capacity(&self.blocks);
        let item_size: usize = core::mem::size_of::<CustomBlockProvider::Block>();
        let bytes: usize = allocated_bytes(capacity, item_size, sizes.as_slice());
        assert(has_room(capacity, item_size as nat, used.len()) && cover(sizes@, used));
        bytes
    }

    /// The number of items in the current block.
    pub fn current_block_len(&self) -> (len: usize)
        requires
            self.wf(),
        ensures
            len == self.blocks().last().len(),
    {
        self.blocks[self.blocks.len() - 1].len()
    }

    /// Opens a new block. It counts as a block only once something goes into it, and until then no
    /// other can be opened.
    pub fn start_new_block(&mut self)
        requires
            old(self).wf(),
            !old(self).pending(),
        ensures
            final(self).wf(),
            final(self).cap() == old(self).cap(),
            final(self).provider() == old(self).provider(),
            final(self).blocks() == old(self).blocks().push(Seq::empty()),
            final(self).pending(),
    {
        self.open_block();
    }

    fn open_block(&mut self)
        requires
            old(self).len == old(self).items().len(),
            FIXED_BLOCK_SIZING ==> {
                &&& 0 < old(self).block_size
                &&& forall|i: int|
                    0 <= i < old(self).blocks().len() ==> (#[trigger] old(self).blocks()[i]).len()
                        <= old(self).cap()
            },
        ensures
            final(self).wf(),
            final(self).cap() == old(self).cap(),
            final(self).provider() == old(self).provider(),
            final(self).blocks() == old(self).blocks().push(Seq::empty()),
            final(self).pending(),
    {
        let ghost before = self.blocks();
        self.blocks.push_back(self.blocks_provider.new_block());
        self.pending_block = true;
        proof {
            assert(self.blocks() =~= before.push(Seq::empty()));
            assert(self.blocks().drop_last() =~= before);
            assert(concat(before) + Seq::empty() =~= concat(before));
        }
    }

    /// Counts `added` items that were put into the current block, and opens a new block if they
    /// filled it. Returns whether they did.
    fn count_added(&mut self, added: usize, Ghost(before): Ghost<Self>, Ghost(items): Ghost<
        Seq<<CustomBlockProvider::Block as Block>::Item>,
    >) -> (finished_block: bool)
        requires
            before.wf(),
            items.len() == added,
            before.items().len() + added <= usize::MAX,
            FIXED_BLOCK_SIZING ==> before.blocks().last().len() + added <= before.cap(),
            old(self).block_size == before.block_size,
            old(self).len == before.len,
            old(self).provider() == before.provider(),
            old(self).blocks() == before.blocks().update(
                before.blocks().len() - 1,
                before.blocks().last() + items,
            ),
        ensures
            before.added(items, final(self)),
            finished_block == (FIXED_BLOCK_SIZING && before.blocks().last().len() + added
                == before.cap()),
            final(self).pending() == finished_block,
    {
        let ghost grown = self.blocks();
        proof {
            lemma_appended_within(FIXED_BLOCK_SIZING, before.cap(), before.blocks(), items);
            lemma_appended(FIXED_BLOCK_SIZING, before.cap(), before.blocks(), items);
            assert(grown.drop_last() =~= before.blocks().drop_last());
            assert(concat(grown) =~= before.items() + items);
        }
        self.len = self.len + added;
        self.pending_block = false;
        if FIXED_BLOCK_SIZING && self.blocks[self.blocks.len() - 1].len() == self.block_size {
            self.open_block();
            true
        } else {
            false
        }
    }

    /// Makes room in the queue for `n` more blocks.
    pub(crate) fn reserve_blocks(&mut self, n: usize)
        requires
            old(self).wf(),
        ensures
            final(self).wf(),
            final(self).cap() == old(self).cap(),
            final(self).provider() == old(self).provider(),
            final(self).blocks() == old(self).blocks(),
            final(self).pending() == old(self).pending(),
    {
        self.blocks.reserve(n);
    }

    /// Adds an item. Returns whether the block is full now.
    pub fn push(&mut self, value: <CustomBlockProvider::Block as Block>::Item) -> (finished_block:
        bool)
        requires
            old(self).wf(),
            old(self).items().len() < usize::MAX,
        ensures
            old(self).pushed(value, final(self)),
            finished_block == final(self).pending(),
    {
        let ghost before = *self;
        let ghost items = seq![value];
        let current: usize = self.blocks.len() - 1;
        proof {
            self.lemma_last_len();
        }
        deque_at_mut(&mut self.blocks, current).push(value);
        proof {
            let last = before.blocks().last();
            assert(last + items =~= last.push(value));
            assert(self.blocks() =~= before.blocks().update(current as int, last + items));
        }
        self.count_added(1, Ghost(before), Ghost(items))
    }

    /// Adds the items that the iterator yields to the current block. Returns whether it is full
    /// now.
    ///
    /// Unless `should_mark_empty`, adding nothing does not make a pending block one that can be
    /// taken.
    pub(crate) fn extend_in_block<I: Iterator<Item = <CustomBlockProvider::Block as Block>::Item>>(
        &mut self,
        iter: I,
        should_mark_empty: bool,
    ) -> (finished_block: bool)
        requires
            old(self).wf(),
            iter.obeys_prophetic_iter_laws(),
            iter.decrease() is Some,
            old(self).items().len() + iter.remaining().len() <= usize::MAX,
            FIXED_BLOCK_SIZING ==> old(self).blocks().last().len() + iter.remaining().len() <= old(self).cap(),
        ensures
            old(self).added(iter.remaining(), final(self)),
            finished_block == (FIXED_BLOCK_SIZING && old(self).blocks().last().len()
                + iter.remaining().len() == old(self).cap()),
            final(self).pending() == if iter.remaining().len() == 0 && !should_mark_empty {
                old(self).pending()
            } else {
                finished_block
            },
    {
        let ghost before = *self;
        let ghost all = iter.remaining();
        let ghost last = before.blocks().last();
        let current: usize = self.blocks.len() - 1;
        let prev_block_len: usize = self.blocks[current].len();
        proof {
            self.lemma_last_len();
        }
        deque_at_mut(&mut self.blocks, current).extend(iter);
        let ghost grown = self.blocks()[current as int];
        let ghost items = grown.skip(last.len() as int);
        proof {
            assert(items =~= all);
            assert(self.blocks() =~= before.blocks().update(current as int, last + items));
        }
        let added_items: usize = self.blocks[current].len() - prev_block_len;
        if added_items > 0 || should_mark_empty {
            self.count_added(added_items, Ghost(before), Ghost(items))
        } else {
            proof {
                assert(items =~= Seq::empty());
                assert(last + items =~= last);
                assert(self.blocks() =~= before.blocks());
                lemma_appended_nothing(FIXED_BLOCK_SIZING, before.cap(), before.blocks());
            }
            false
        }
    }

    /// How many items the current block still has room for.
    pub(crate) fn current_block_remaining_len(&self) -> (remaining: usize)
        requires
            self.wf(),
            FIXED_BLOCK_SIZING,
        ensures
            remaining == self.cap() - self.blocks().last().len(),
            remaining > 0,
    {
        self.block_size - self.blocks[self.blocks.len() - 1].len()
    }

    /// Adds the items that the iterator yields.
    pub fn extend<I: Iterator<Item = <CustomBlockProvider::Block as Block>::Item>>(
        &mut self,
        iter: I,
    )
        requires
            old(self).wf(),
            iter.obeys_prophetic_iter_laws(),
            iter.decrease() is Some,
            old(self).items().len() + iter.remaining().len() <= usize::MAX,
        ensures
            old(self).added(iter.remaining(), final(self)),
            final(self).pending() == (FIXED_BLOCK_SIZING && iter.remaining().len() > 0 && final(self).blocks().last().len() == 0),
    {
        let mut iter = iter;
        if !FIXED_BLOCK_SIZING {
            let _ = self.extend_in_block(iter, true);
            return;
        }
        let ghost before = *self;
        let ghost all = iter.remaining();
        let ghost target = appended(true, before.cap(), before.blocks(), all);
        let mut is_first = true;
        loop
            invariant_except_break
                !is_first ==> all.len() > 0 && self.pending(),
            invariant
                FIXED_BLOCK_SIZING,
                self.wf(),
                self.cap() == before.cap(),
                self.provider() == before.provider(),
                iter.obeys_prophetic_iter_laws(),
                iter.decrease() is Some,
                appended(true, self.cap(), self.blocks(), iter.remaining()) == target,
                self.items().len() + iter.remaining().len() == before.items().len() + all.len(),
                before.items().len() + all.len() <= usize::MAX,
                is_first ==> iter.remaining() == all,
            ensures
                iter.remaining().len() == 0,
                all.len() == 0 ==> !self.pending(),
                all.len() > 0 ==> self.pending() == (self.blocks().last().len() == 0),
            decreases iter.decrease()->0,
        {
            let remaining_in_current_block: usize = self.current_block_remaining_len();
            let ghost now = *self;
            let ghost left = iter.remaining();
            let part = take_from(&mut iter, remaining_in_current_block);
            let ghost k = part@.len() as int;
            let ghost items = part@;
            proof {
                assert(left.take(k) =~= items);
                assert(left.skip(k) =~= iter.remaining());
                lemma_appended_step(now.cap(), now.blocks(), left, k);
            }
            let block_finished = self.extend_in_block(part.into_iter(), is_first);
            proof {
                if k > 0 {
                    now.lemma_filled(items, self);
                } else {
                    assert(items =~= Seq::empty());
                    lemma_appended_nothing(true, now.cap(), now.blocks());
                }
            }
            is_first = false;
            if !block_finished {
                break;
            }
        }
        proof {
            assert(iter.remaining() =~= Seq::empty());
            lemma_appended_nothing(true, self.cap(), self.blocks());
        }
    }

    /// Adds the items of a slice to the current block. Returns whether it is full now.
    pub(crate) fn extend_from_slice_in_block(
        &mut self,
        slice: &[<CustomBlockProvider::Block as Block>::Item],
    ) -> (finished_block: bool) where CustomBlockProvider::Block: BlockWithSlice
        requires
            old(self).wf(),
            old(self).items().len() + slice@.len() <= usize::MAX,
            FIXED_BLOCK_SIZING ==> old(self).blocks().last().len() + slice@.len() <= old(self).cap(),
        ensures
            exists|items: Seq<<CustomBlockProvider::Block as Block>::Item>|
                #[trigger] stored::<CustomBlockProvider::Block>(slice@, items) && old(self).added(
                    items,
                    final(self),
                ),
            finished_block == (FIXED_BLOCK_SIZING && old(self).blocks().last().len() + slice@.len()
                == old(self).cap()),
            final(self).pending() == if slice@.len() == 0 {
                old(self).pending()
            } else {
                finished_block
            },
    {
        let ghost before = *self;
        let ghost last = before.blocks().last();
        let current: usize = self.blocks.len() - 1;
        let prev_block_len: usize = self.blocks[current].len();
        proof {
            self.lemma_last_len();
        }
        deque_at_mut(&mut self.blocks, current).extend_from_slice(slice);
        let ghost grown = self.blocks()[current as int];
        let ghost items = grown.skip(last.len() as int);
        proof {
            assert(grown =~= grown.take(last.len() as int) + items);
            assert(self.blocks() =~= before.blocks().update(current as int, last + items));
            assert(stored::<CustomBlockProvider::Block>(slice@, items));
        }
        let added_items: usize = self.blocks[current].len() - prev_block_len;
        if added_items > 0 {
            self.count_added(added_items, Ghost(before), Ghost(items))
        } else {
            proof {
                assert(items =~= Seq::empty());
                assert(last + items =~= last);
                assert(self.blocks() =~= before.blocks());
                lemma_appended_nothing(FIXED_BLOCK_SIZING, before.cap(), before.blocks());
            }
            false
        }
    }

    /// Adds the items of a slice.
    pub fn extend_from_slice(
        &mut self,
        buffer: &[<CustomBlockProvider::Block as Block>::Item],
    ) where CustomBlockProvider::Block: BlockWithSlice
        requires
            old(self).wf(),
            old(self).items().len() + buffer@.len() <= usize::MAX,
        ensures
            old(self).added_slice(buffer@, final(self)),
    {
        if !FIXED_BLOCK_SIZING {
            let _ = self.extend_from_slice_in_block(buffer);
            return;
        }
        let len: usize = buffer.len();
        let remaining: usize = self.current_block_remaining_len();
        let to_reserve: usize = count_blocks_needed(len, remaining, self.block_size);
        self.reserve_blocks(to_reserve);
        let ghost before = *self;
        let ghost mut items = Seq::<<CustomBlockProvider::Block as Block>::Item>::empty();
        let mut done: usize = 0;
        proof {
            lemma_appended_nothing(true, before.cap(), before.blocks());
            lemma_appended(true, before.cap(), before.blocks(), items);
        }
        while done < len
            invariant
                FIXED_BLOCK_SIZING,
                before.wf(),
                self.wf(),
                before.added(items, self),
                self.items() == before.items() + items,
                len == buffer@.len(),
                0 <= done <= len,
                stored::<CustomBlockProvider::Block>(buffer@.take(done as int), items),
                before.items().len() + len <= usize::MAX,
                done == 0 ==> self.pending() == before.pending(),
                done > 0 ==> self.pending() == (self.blocks().last().len() == 0),
            decreases len - done,
        {
            let remaining_in_current_block: usize = self.current_block_remaining_len();
            let to_add: usize = if remaining_in_current_block < len - done {
                remaining_in_current_block
            } else {
                len - done
            };
            let ghost now = *self;
            let part = vstd::slice::slice_subrange(buffer, done, done + to_add);
            let _ = self.extend_from_slice_in_block(part);
            proof {
                let more = choose|more: Seq<<CustomBlockProvider::Block as Block>::Item>|
                    #[trigger] stored::<CustomBlockProvider::Block>(part@, more) && now.added(
                        more,
                        self,
                    );
                now.lemma_filled(more, self);
                before.lemma_added_more(items, &now, more, self);
                lemma_stored_add::<CustomBlockProvider::Block>(
                    buffer@.take(done as int),
                    items,
                    part@,
                    more,
                );
                assert(buffer@.take(done as int) + part@ =~= buffer@.take(done + to_add));
                items = items + more;
            }
            done += to_add;
        }
        assert(buffer@.take(done as int) =~= buffer@);
    }

    /// Adds a value `n` times to the current block. Returns whether it is full now.
    pub(crate) fn push_value_n_within_block(
        &mut self,
        value: <CustomBlockProvider::Block as Block>::Item,
        n: usize,
    ) -> (finished_block: bool) where CustomBlockProvider::Block: BlockWithSlice
        requires
            old(self).wf(),
            old(self).items().len() + n <= usize::MAX,
            FIXED_BLOCK_SIZING ==> old(self).blocks().last().len() + n <= old(self).cap(),
        ensures
            exists|items: Seq<<CustomBlockProvider::Block as Block>::Item>|
                {
                    &&& items.len() == n
                    &&& forall|i: int|
                        0 <= i < items.len() ==> CustomBlockProvider::Block::stores(
                            value,
                            #[trigger] items[i],
                        )
                    &&& #[trigger] old(self).added(items, final(self))
                },
            finished_block == (FIXED_BLOCK_SIZING && old(self).blocks().last().len() + n == old(self).cap()),
            final(self).pending() == finished_block,
    {
        let ghost before = *self;
        let ghost last = before.blocks().last();
        let current: usize = self.blocks.len() - 1;
        proof {
            self.lemma_last_len();
        }
        deque_at_mut(&mut self.blocks, current).append_n(value, n);
        let ghost grown = self.blocks()[current as int];
        let ghost items = grown.skip(last.len() as int);
        proof {
            assert(grown =~= grown.take(last.len() as int) + items);
            assert(self.blocks() =~= before.blocks().update(current as int, last + items));
            assert forall|i: int| 0 <= i < items.len() implies CustomBlockProvider::Block::stores(
                value,
                #[trigger] items[i],
            ) by {
                assert(items[i] == grown[last.len() + i]);
            }
        }
        self.count_added(n, Ghost(before), Ghost(items))
    }

    /// Adds the default value `n` times.
    pub fn push_default_n(&mut self, n: usize) where
        CustomBlockProvider::Block: BlockWithSlice,
        <CustomBlockProvider::Block as Block>::Item: Default + Clone,

        requires
            old(self).wf(),
            old(self).items().len() + n <= usize::MAX,
        ensures
            exists|value: <CustomBlockProvider::Block as Block>::Item|
                {
                    &&& call_ensures(
                        <<CustomBlockProvider::Block as Block>::Item as Default>::default,
                        (),
                        value,
                    )
                    &&& #[trigger] old(self).added_n(value, n as nat, final(self))
                },
    {
        let value = <<CustomBlockProvider::Block as Block>::Item as Default>::default();
        self.push_value_n(value, n);
    }

    /// Adds a value `n` times.
    pub fn push_value_n(
        &mut self,
        value: <CustomBlockProvider::Block as Block>::Item,
        n: usize,
    ) where
        CustomBlockProvider::Block: BlockWithSlice,
        <CustomBlockProvider::Block as Block>::Item: Clone,

        requires
            old(self).wf(),
            old(self).items().len() + n <= usize::MAX,
        ensures
            old(self).added_n(value, n as nat, final(self)),
    {
        if !FIXED_BLOCK_SIZING {
            let ghost before = *self;
            let ghost given = value;
            let _ = self.push_value_n_within_block(value, n);
            proof {
                let items = choose|items: Seq<<CustomBlockProvider::Block as Block>::Item>|
                    {
                        &&& items.len() == n
                        &&& forall|i: int|
                            0 <= i < items.len() ==> CustomBlockProvider::Block::stores(
                                given,
                                #[trigger] items[i],
                            )
                        &&& #[trigger] before.added(items, self)
                    };
                assert(cloned(given, given));
                assert(stored_clones::<CustomBlockProvider::Block>(given, items));
            }
            return;
        }
        let remaining: usize = self.current_block_remaining_len();
        let to_reserve: usize = count_blocks_needed(n, remaining, self.block_size);
        self.reserve_blocks(to_reserve);
        let ghost before = *self;
        let ghost mut items = Seq::<<CustomBlockProvider::Block as Block>::Item>::empty();
        let mut done: usize = 0;
        proof {
            lemma_appended_nothing(true, before.cap(), before.blocks());
            lemma_appended(true, before.cap(), before.blocks(), items);
        }
        while done < n
            invariant
                FIXED_BLOCK_SIZING,
                before.wf(),
                self.wf(),
                before.added(items, self),
                self.items() == before.items() + items,
                0 <= done <= n,
                items.len() == done,
                stored_clones::<CustomBlockProvider::Block>(value, items),
                before.items().len() + n <= usize::MAX,
                done == 0 ==> self.pending() == before.pending(),
                done > 0 ==> self.pending() == (self.blocks().last().len() == 0),
            decreases n - done,
        {
            let remaining_in_current_block: usize = self.current_block_remaining_len();
            let to_add: usize = if remaining_in_current_block < n - done {
                remaining_in_current_block
            } else {
                n - done
            };
            let ghost now = *self;
            let copy = value.clone();
            let ghost given = copy;
            let _ = self.push_value_n_within_block(copy, to_add);
            proof {
                let more = choose|more: Seq<<CustomBlockProvider::Block as Block>::Item>|
                    {
                        &&& more.len() == to_add
                        &&& forall|i: int|
                            0 <= i < more.len() ==> CustomBlockProvider::Block::stores(
                                given,
                                #[trigger] more[i],
                            )
                        &&& #[trigger] now.added(more, self)
                    };
                assert(cloned(value, given));
                now.lemma_filled(more, self);
                before.lemma_added_more(items, &now, more, self);
                let all = items + more;
                assert forall|i: int| 0 <= i < all.len() implies stores_clone::<
                    CustomBlockProvider::Block,
                >(value, #[trigger] all[i]) by {
                    if i < items.len() {
                        assert(all[i] == items[i]);
                    } else {
                        assert(all[i] == more[i - items.len()]);
                    }
                }
                items = all;
            }
            done += to_add;
        }
    }

    /// Taking a block gives `taken` and leaves `after`: the first block, or `None` if all blocks
    /// were taken.
    pub open spec fn took_block(
        &self,
        taken: Option<CustomBlockProvider::Block>,
        after: &Self,
    ) -> bool {
        match taken {
            Some(block) => {
                &&& self.has_block()
                &&& block.items() == self.blocks()[0]
                &&& self.without_first_block(after)
            },
            None => !self.has_block() && *after == *self,
        }
    }

    /// Taking a block in its final form gives `taken` and leaves `after`: what the provider makes of
    /// the block that would be taken, or `None` if there is none.
    pub open spec fn took_block_finished(
        &self,
        taken: Option<<CustomBlockProvider as BlockProviderFinish>::FinishedBlock>,
        after: &Self,
    ) -> bool where CustomBlockProvider: BlockProviderFinish {
        match taken {
            Some(finished) => {
                &&& CustomBlockProvider::is_finished(finished, self.blocks()[0])
                &&& exists|block: CustomBlockProvider::Block|
                    self.took_block(Some(block), after) && #[trigger] call_ensures(
                        CustomBlockProvider::finish,
                        (&self.provider(), block),
                        finished,
                    )
            },
            None => self.took_block(None, after),
        }
    }

    /// Takes the first block. `None` if all blocks were taken.
    pub fn take_block(&mut self) -> (taken: Option<CustomBlockProvider::Block>)
        requires
            old(self).wf(),
        ensures
            old(self).took_block(taken, final(self)),
    {
        if self.pending_block && self.blocks.len() == 1 {
            return None;
        }
        let ghost before = self.blocks();
        proof {
            lemma_concat_first(before);
        }
        match self.blocks.pop_front() {
            Some(block) => {
                if self.blocks.len() == 0 {
                    self.blocks.push_back(self.blocks_provider.new_block());
                    self.pending_block = true;
                    proof {
                        let none = Seq::<<CustomBlockProvider::Block as Block>::Item>::empty();
                        assert(before.skip(1) =~= Seq::empty());
                        assert(self.blocks() =~= seq![none]);
                        lemma_concat_one(none);
                    }
                } else {
                    assert(self.blocks() =~= before.skip(1));
                }
                self.len = self.len - block.len();
                Some(block)
            },
            None => None,
        }
    }

    /// Takes the first block in its final form. `None` if all blocks were taken.
    pub fn take_block_finished(&mut self) -> (taken: Option<
        <CustomBlockProvider as BlockProviderFinish>::FinishedBlock,
    >) where CustomBlockProvider: BlockProviderFinish
        requires
            old(self).wf(),
        ensures
            old(self).took_block_finished(taken, final(self)),
    {
        match self.take_block() {
            Some(block) => Some(self.blocks_provider.finish(block)),
            None => None,
        }
    }

    /// Drops all items.
    pub fn reset(&mut self)
        requires
            old(self).wf(),
        ensures
            final(self).wf(),
            final(self).cap() == old(self).cap(),
            final(self).provider() == old(self).provider(),
            final(self).blocks() == seq![
                Seq::<<CustomBlockProvider::Block as Block>::Item>::empty(),
            ],
            !final(self).pending(),
    {
        let mut blocks: VecDeque<CustomBlockProvider::Block> = VecDeque::new();
        blocks.push_back(self.blocks_provider.new_block());
        self.blocks = blocks;
        self.len = 0;
        self.pending_block = false;
        proof {
            let none = Seq::<<CustomBlockProvider::Block as Block>::Item>::empty();
            assert(self.blocks() =~= seq![none]);
            lemma_concat_one(none);
        }
    }

    /// Whether there is an item at a position.
    pub fn has_position(&self, index: BlocksIndex) -> (found: bool)
        ensures
            found == self.has(index),
    {
        index.block_index() < self.blocks.len() && index.index_in_block()
            < self.blocks[index.block_index()].len()
    }

    /// The item at a position.
    pub fn get(&self, index: BlocksIndex) -> (item: &<CustomBlockProvider::Block as Block>::Item)
        where CustomBlockProvider::Block: IndexedBlock
        requires
            self.wf(),
            self.has(index),
        ensures
            *item == self.blocks()[index.block_index as int][index.index_in_block as int],
    {
        self.blocks[index.block_index()].item(index.index_in_block())
    }

    /// The item at a position, for writing.
    pub fn get_mut(&mut self, index: BlocksIndex) -> (item: &mut <
        CustomBlockProvider::Block as Block>::Item) where CustomBlockProvider::Block: IndexedBlock
        requires
            old(self).wf(),
            old(self).has(index),
        ensures
            *item == old(self).blocks()[index.block_index as int][index.index_in_block as int],
            final(self).wf(),
            final(self).cap() == old(self).cap(),
            final(self).provider() == old(self).provider(),
            final(self).pending() == old(self).pending(),
            final(self).blocks() == old(self).blocks().update(
                index.block_index as int,
                old(self).blocks()[index.block_index as int].update(
                    index.index_in_block as int,
                    *final(item),
                ),
            ),
    {
        proof {
            let before = self.blocks();
            let i = index.block_index as int;
            let j = index.index_in_block as int;
            let cap = self.cap();
            assert forall|x: <CustomBlockProvider::Block as Block>::Item|
                {
                    let after = #[trigger] before.update(i, before[i].update(j, x));
                    &&& concat(after).len() == concat(before).len()
                    &&& valid_blocks(FIXED_BLOCK_SIZING, cap, after)
                    &&& after.last().len() == before.last().len()
                } by {
                let after = before.update(i, before[i].update(j, x));
                assert forall|k: int| 0 <= k < after.len() implies (#[trigger] after[k]).len()
                    == before[k].len() by {}
                lemma_concat_at(before, i);
                lemma_concat_at(after, i);
                assert(after.take(i) =~= before.take(i));
                assert(after.skip(i + 1) =~= before.skip(i + 1));
            }
        }
        let ghost before = self.blocks();
        let ghost i = index.block_index as int;
        let ghost j = index.index_in_block as int;
        let item = deque_at_mut(&mut self.blocks, index.block_index()).item_mut(
            index.index_in_block(),
        );
        assert(after_borrow(*self).blocks() =~= before.update(
            i,
            before[i].update(j, *final(item)),
        ));
        item
    }
}

impl<const FIXED_BLOCK_SIZING: bool, CustomBlockProvider: BlockProvider>
    vstd::std_specs::core::IndexSpecImpl<BlocksIndex>
    for BlockedCustomInputBuilder<FIXED_BLOCK_SIZING, CustomBlockProvider>
    where CustomBlockProvider::Block: IndexedBlock {
    open spec fn index_req(&self, index: &BlocksIndex) -> bool {
        self.wf() && self.has(*index)
    }
}

impl<const FIXED_BLOCK_SIZING: bool, CustomBlockProvider: BlockProvider>
    Index<BlocksIndex>
    for BlockedCustomInputBuilder<FIXED_BLOCK_SIZING, CustomBlockProvider>
    where CustomBlockProvider::Block: IndexedBlock {
    type Output = <CustomBlockProvider::Block as Block>::Item;

    fn index(&self, index: BlocksIndex) -> (item: &<CustomBlockProvider::Block as Block>::Item)
        ensures
            *item == self.blocks()[index.block_index as int][index.index_in_block as int],
    {
        self.get(index)
    }
}

// Only where the builder controls the blocks: otherwise they are not of the same size.
impl<CustomBlockProvider: BlockProvider>
    vstd::std_specs::core::IndexSpecImpl<usize>
    for BlockedCustomInputBuilder<true, CustomBlockProvider>
    where CustomBlockProvider::Block: IndexedBlock {
    open spec fn index_req(&self, index: &usize) -> bool {
        self.wf() && self.has(BlocksIndex::at(*index as int, self.cap() as int))
    }
}

impl<CustomBlockProvider: BlockProvider>
    Index<usize>
    for BlockedCustomInputBuilder<true, CustomBlockProvider>
    where CustomBlockProvider::Block: IndexedBlock {
    type Output = <CustomBlockProvider::Block as Block>::Item;

    fn index(&self, index: usize) -> (item: &<CustomBlockProvider::Block as Block>::Item)
        ensures
            ({
                let position = BlocksIndex::at(index as int, self.cap() as int);
                *item == self.blocks()[position.block_index as int][position.index_in_block as int]
            }),
    {
        proof {
            self.lemma_wf();
        }
        self.get(BlocksIndex::from_index_in_fixed_block_size(index, self.block_size))
    }
}

/// What is stored of two slices is stored of both together.
proof fn lemma_stored_add<B: BlockWithSlice>(
    a: Seq<B::Item>,
    x: Seq<B::Item>,
    b: Seq<B::Item>,
    y: Seq<B::Item>,
)
    requires
        stored::<B>(a, x),
        stored::<B>(b, y),
    ensures
        stored::<B>(a + b, x + y),
{
    assert forall|i: int| 0 <= i < (a + b).len() implies B::stores(
        #[trigger] (a + b)[i],
        (x + y)[i],
    ) by {
        if i < a.len() {
            assert((a + b)[i] == a[i]);
        } else {
            assert((a + b)[i] == b[i - a.len()]);
        }
    }
}

} // verus!
