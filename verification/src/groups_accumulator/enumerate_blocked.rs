//! Items with their positions.

use crate::collections::next_item;
use crate::groups_accumulator::blocks_index::{
    law_position_and_number, lemma_flat_bounds, lemma_flat_round_trip,
};
use crate::groups_accumulator::BlocksIndex;
use vstd::prelude::*;
use vstd::std_specs::iter::IteratorSpec;

verus! {

/// Gives iterators [`EnumerateBlockedIteratorExt::enumerate_blocked`].
pub trait EnumerateBlockedIteratorExt: Iterator {
    /// The items, each with its position when every block holds `block_size` items.
    fn enumerate_blocked(self, block_size: usize) -> (items: EnumerateBlocked<Self>) where
        Self: Sized,

        requires
            block_size > 0,
        ensures
            items.wf(),
            items.size() == block_size,
            items.position() == 0,
            items.iter() == self,
    {
        EnumerateBlocked::new(self, block_size)
    }
}

impl<T: Iterator> EnumerateBlockedIteratorExt for T {

}

/// Yields items, each with its position.
#[derive(Debug)]
#[must_use]
pub struct EnumerateBlocked<I> {
    block_size: usize,
    iter: I,
    index: BlocksIndex,
}

impl<I> EnumerateBlocked<I> {
    /// The number of items in a block.
    pub closed spec fn size(&self) -> nat {
        self.block_size as nat
    }

    /// What yields the items.
    pub closed spec fn iter(&self) -> I {
        self.iter
    }

    /// The number of items before the next one.
    pub closed spec fn position(&self) -> int {
        self.index.flat(self.block_size as int)
    }

    pub closed spec fn wf(&self) -> bool {
        self.index.index_in_block < self.block_size
    }

    pub(crate) fn new(iter: I, block_size: usize) -> (items: Self)
        requires
            block_size > 0,
        ensures
            items.wf(),
            items.size() == block_size,
            items.position() == 0,
            items.iter() == iter,
    {
        assert(0 * block_size == 0) by (nonlinear_arith);
        EnumerateBlocked { block_size, iter, index: BlocksIndex::default() }
    }
}

/// The position of an item when every block holds `block_size` items.
pub open spec fn at_position(position: int, block_size: nat) -> BlocksIndex {
    BlocksIndex::at(position, block_size as int)
}

/// The items, each with its position, the first one at the given position.
pub open spec fn pairs<T>(position: int, block_size: nat, items: Seq<T>) -> Seq<(BlocksIndex, T)> {
    Seq::new(items.len(), |i: int| (at_position(position + i, block_size), items[i]))
}

/// The accumulated values as the pairs are taken up, one after the other.
pub open spec fn folds_over<Acc, T, Fold: Fn(Acc, (BlocksIndex, T)) -> Acc>(
    fold: Fold,
    pairs: Seq<(BlocksIndex, T)>,
    accs: Seq<Acc>,
) -> bool {
    &&& accs.len() == pairs.len() + 1
    &&& forall|i: int|
        0 <= i < pairs.len() ==> call_ensures(fold, (#[trigger] accs[i], pairs[i]), accs[i + 1])
}

/// `acc` is what becomes of `init` when the pairs are taken up into it, one after the other.
pub open spec fn is_folded<Acc, T, Fold: Fn(Acc, (BlocksIndex, T)) -> Acc>(
    fold: Fold,
    pairs: Seq<(BlocksIndex, T)>,
    init: Acc,
    acc: Acc,
) -> bool {
    exists|accs: Seq<Acc>|
        #[trigger] folds_over(fold, pairs, accs) && accs[0] == init && accs.last() == acc
}

impl<I: Iterator> EnumerateBlocked<I> {
    /// The next item, with its position.
    pub fn next(&mut self) -> (next: Option<(BlocksIndex, I::Item)>)
        requires
            old(self).wf(),
            old(self).iter().obeys_prophetic_iter_laws(),
            old(self).iter().decrease() is Some,
            old(self).position() + old(self).iter().remaining().len() <= usize::MAX,
        ensures
            match next {
                Some((position, item)) => {
                    &&& old(self).iter().remaining().len() > 0
                    &&& position == at_position(old(self).position(), old(self).size())
                    &&& item == old(self).iter().remaining()[0]
                    &&& final(self).iter().decrease()->0 < old(self).iter().decrease()->0
                    &&& final(self).wf()
                    &&& final(self).iter().obeys_prophetic_iter_laws()
                    &&& final(self).iter().decrease() is Some
                    &&& final(self).position() + final(self).iter().remaining().len() <= usize::MAX
                    &&& final(self).size() == old(self).size()
                    &&& final(self).position() == old(self).position() + 1
                    &&& final(self).iter().remaining() == old(self).iter().remaining().skip(1)
                },
                None => {
                    &&& old(self).iter().remaining().len() == 0
                    &&& final(self).wf()
                    &&& final(self).iter().obeys_prophetic_iter_laws()
                    &&& final(self).iter().decrease() is Some
                    &&& final(self).position() + final(self).iter().remaining().len() <= usize::MAX
                    &&& final(self).size() == old(self).size()
                    &&& final(self).position() == old(self).position()
                    &&& final(self).iter().remaining() == old(self).iter().remaining()
                },
            },
    {
        let ghost before = *self;
        match next_item(&mut self.iter) {
            Some(item) => {
                let position = self.index;
                proof {
                    lemma_flat_round_trip(position, self.block_size as int);
                }
                self.index.next_mut_fixed(self.block_size);
                Some((position, item))
            },
            None => None,
        }
    }

    /// The hint is the one that the iterator underneath gives.
    pub closed spec fn is_own_hint(&self, hint: (usize, Option<usize>)) -> bool {
        call_ensures(iter_size_hint::<I>, (&self.iter,), hint)
    }

    /// How many items are left: at least so many, and at most so many if that is known. It is what
    /// the iterator underneath says.
    pub fn size_hint(&self) -> (hint: (usize, Option<usize>))
        ensures
            self.is_own_hint(hint),
            self.iter().obeys_prophetic_iter_laws() && self.iter().decrease() is Some ==> {
                &&& hint.0 <= self.iter().remaining().len()
                &&& hint.1 matches Some(most) ==> self.iter().remaining().len() <= most
            },
    {
        iter_size_hint(&self.iter)
    }

    /// The item after the next `n`, with its position. `None` if there are not so many left, and
    /// then none is left, and the position stays what it was.
    pub fn nth(&mut self, n: usize) -> (nth: Option<(BlocksIndex, I::Item)>)
        requires
            old(self).wf(),
            old(self).iter().obeys_prophetic_iter_laws(),
            old(self).iter().decrease() is Some,
            old(self).position() + old(self).iter().remaining().len() <= usize::MAX,
        ensures
            match nth {
                Some((position, item)) => {
                    &&& old(self).iter().remaining().len() > n
                    &&& position == at_position(old(self).position() + n, old(self).size())
                    &&& item == old(self).iter().remaining()[n as int]
                    &&& final(self).wf()
                    &&& final(self).iter().obeys_prophetic_iter_laws()
                    &&& final(self).iter().decrease() is Some
                    &&& final(self).position() + final(self).iter().remaining().len() <= usize::MAX
                    &&& final(self).size() == old(self).size()
                    &&& final(self).position() == old(self).position() + n + 1
                    &&& final(self).iter().remaining() == old(self).iter().remaining().skip(n + 1)
                },
                None => {
                    &&& old(self).iter().remaining().len() <= n
                    &&& final(self).wf()
                    &&& final(self).iter().obeys_prophetic_iter_laws()
                    &&& final(self).iter().decrease() is Some
                    &&& final(self).size() == old(self).size()
                    &&& final(self).position() == old(self).position()
                    &&& final(self).iter().remaining().len() == 0
                },
            },
    {
        let ghost before = *self;
        let start: BlocksIndex = self.index;
        let mut k: usize = 0;
        while k < n
            invariant_except_break
                self.wf(),
                self.iter().obeys_prophetic_iter_laws(),
                self.iter().decrease() is Some,
                self.position() + self.iter().remaining().len() <= usize::MAX,
                self.size() == before.size(),
                self.position() == before.position() + k as int,
                self.iter().remaining() == before.iter().remaining().skip(k as int),
            invariant
                before.wf(),
                before.iter().obeys_prophetic_iter_laws(),
                before.iter().decrease() is Some,
                before.position() + before.iter().remaining().len() <= usize::MAX,
                0 <= k <= n,
                k <= before.iter().remaining().len(),
            ensures
                k == n ==> {
                    &&& self.wf()
                    &&& self.iter().obeys_prophetic_iter_laws()
                    &&& self.iter().decrease() is Some
                    &&& self.position() + self.iter().remaining().len() <= usize::MAX
                    &&& self.size() == before.size()
                    &&& self.position() == before.position() + k
                    &&& self.iter().remaining() == before.iter().remaining().skip(k as int)
                },
                k < n ==> {
                    &&& before.iter().remaining().len() == k
                    &&& self.wf()
                    &&& self.iter().obeys_prophetic_iter_laws()
                    &&& self.iter().decrease() is Some
                    &&& self.size() == before.size()
                    &&& self.iter().remaining().len() == 0
                },
            decreases n - k,
        {
            match self.next() {
                Some(_) => {
                    assert(before.iter().remaining().skip(k as int).skip(1)
                        =~= before.iter().remaining().skip(k + 1));
                },
                None => {
                    break;
                },
            }
            k += 1;
        }
        if k < n {
            self.index = start;
            return None;
        }
        match self.next() {
            Some(next) => {
                assert(before.iter().remaining().skip(n as int).skip(1)
                    =~= before.iter().remaining().skip(n + 1));
                Some(next)
            },
            None => {
                self.index = start;
                None
            },
        }
    }

    /// The number of items that are left.
    pub fn count(self) -> (count: usize)
        requires
            self.wf(),
            self.iter().obeys_prophetic_iter_laws(),
            self.iter().decrease() is Some,
            self.position() + self.iter().remaining().len() <= usize::MAX,
        ensures
            count == self.iter().remaining().len(),
    {
        let mut iter = self.iter;
        let mut count: usize = 0;
        proof {
            lemma_flat_bounds(self.index, self.block_size as int);
        }
        loop
            invariant
                self.iter().remaining().len() <= usize::MAX,
                iter.obeys_prophetic_iter_laws(),
                iter.decrease() is Some,
                count + iter.remaining().len() == self.iter().remaining().len(),
            ensures
                count == self.iter().remaining().len(),
            decreases iter.decrease()->0,
        {
            match next_item(&mut iter) {
                Some(_) => {
                    count += 1;
                },
                None => {
                    break;
                },
            }
        }
        count
    }

    /// Takes the items that are left, each with its position, up into `init`, the first one first.
    pub fn fold<Acc, Fold: Fn(Acc, (BlocksIndex, I::Item)) -> Acc>(
        self,
        init: Acc,
        fold: Fold,
    ) -> (acc: Acc)
        requires
            self.wf(),
            self.iter().obeys_prophetic_iter_laws(),
            self.iter().decrease() is Some,
            self.position() + self.iter().remaining().len() <= usize::MAX,
            forall|acc: Acc, item: (BlocksIndex, I::Item)|
                #[trigger] call_requires(fold, (acc, item)),
        ensures
            is_folded(
                fold,
                pairs(self.position(), self.size(), self.iter().remaining()),
                init,
                acc,
            ),
    {
        let mut items = self;
        let mut acc = init;
        let ghost mut accs = seq![init];
        let ghost mut k: int = 0;
        assert(self.iter().remaining().skip(0) =~= self.iter().remaining());
        loop
            invariant
                items.wf(),
                items.iter().obeys_prophetic_iter_laws(),
                items.iter().decrease() is Some,
                items.position() + items.iter().remaining().len() <= usize::MAX,
                items.size() == self.size(),
                items.position() == self.position() + k,
                0 <= k <= self.iter().remaining().len(),
                items.iter().remaining() == self.iter().remaining().skip(k),
                forall|acc: Acc, item: (BlocksIndex, I::Item)|
                    #[trigger] call_requires(fold, (acc, item)),
                accs.len() == k + 1,
                accs[0] == init,
                accs.last() == acc,
                forall|i: int|
                    0 <= i < k ==> call_ensures(
                        fold,
                        (
                            #[trigger] accs[i],
                            (
                                at_position(self.position() + i, self.size()),
                                self.iter().remaining()[i],
                            ),
                        ),
                        accs[i + 1],
                    ),
            ensures
                k == self.iter().remaining().len(),
            decreases items.iter().decrease()->0,
        {
            match items.next() {
                Some(item) => {
                    acc = fold(acc, item);
                    proof {
                        assert(self.iter().remaining().skip(k).skip(1)
                            =~= self.iter().remaining().skip(k + 1));
                        accs = accs.push(acc);
                        k = k + 1;
                    }
                },
                None => {
                    break;
                },
            }
        }
        assert(folds_over(
            fold,
            pairs(self.position(), self.size(), self.iter().remaining()),
            accs,
        ));
        acc
    }
}

impl<I: DoubleEndedIterator + ExactSizeIterator> EnumerateBlocked<I> {
    /// The number of items that are left.
    pub fn len(&self) -> (len: usize)
        ensures
            self.iter().obeys_prophetic_iter_laws() ==> len == self.iter().remaining().len(),
    {
        exact_len(&self.iter)
    }

    /// The last item, with its position.
    pub fn next_back(&mut self) -> (next: Option<(BlocksIndex, I::Item)>)
        requires
            old(self).wf(),
            old(self).iter().obeys_prophetic_iter_laws(),
            old(self).position() + old(self).iter().remaining().len() <= usize::MAX,
        ensures
            final(self).wf(),
            final(self).iter().obeys_prophetic_iter_laws(),
            final(self).size() == old(self).size(),
            final(self).position() == old(self).position(),
            match next {
                Some((position, item)) => {
                    let n = old(self).iter().remaining().len();
                    &&& n > 0
                    &&& position == at_position(old(self).position() + n - 1, old(self).size())
                    &&& item == old(self).iter().remaining()[n - 1]
                    &&& final(self).iter().remaining() == old(self).iter().remaining().drop_last()
                },
                None => {
                    &&& old(self).iter().remaining().len() == 0
                    &&& final(self).iter().remaining().len() == 0
                },
            },
    {
        let item = self.iter.next_back();
        match item {
            Some(item) => {
                let len: usize = exact_len(&self.iter);
                let position = self.index.add_fixed(len, self.block_size);
                proof {
                    lemma_flat_round_trip(position, self.block_size as int);
                }
                Some((position, item))
            },
            None => None,
        }
    }

    /// The item before the last `n`, with its position. `None` if there are not so many left, and
    /// then none is left.
    pub fn nth_back(&mut self, n: usize) -> (nth: Option<(BlocksIndex, I::Item)>)
        requires
            old(self).wf(),
            old(self).iter().obeys_prophetic_iter_laws(),
            old(self).position() + old(self).iter().remaining().len() <= usize::MAX,
        ensures
            final(self).wf(),
            final(self).iter().obeys_prophetic_iter_laws(),
            final(self).size() == old(self).size(),
            final(self).position() == old(self).position(),
            match nth {
                Some((position, item)) => {
                    let k = old(self).iter().remaining().len() - n - 1;
                    &&& k >= 0
                    &&& position == at_position(old(self).position() + k, old(self).size())
                    &&& item == old(self).iter().remaining()[k]
                    &&& final(self).iter().remaining() == old(self).iter().remaining().take(k)
                },
                None => {
                    &&& old(self).iter().remaining().len() <= n
                    &&& final(self).iter().remaining().len() == 0
                },
            },
    {
        let ghost before = *self;
        let mut k: usize = 0;
        assert(before.iter().remaining().take(before.iter().remaining().len() as int)
            =~= before.iter().remaining());
        while k < n
            invariant_except_break
                k <= before.iter().remaining().len(),
                self.iter().remaining() == before.iter().remaining().take(
                    before.iter().remaining().len() - k,
                ),
            invariant
                before.position() + before.iter().remaining().len() <= usize::MAX,
                self.wf(),
                self.iter().obeys_prophetic_iter_laws(),
                self.size() == before.size(),
                self.position() == before.position(),
                0 <= k <= n,
            ensures
                k == n ==> {
                    &&& k <= before.iter().remaining().len()
                    &&& self.iter().remaining() == before.iter().remaining().take(
                        before.iter().remaining().len() - k,
                    )
                },
                k < n ==> {
                    &&& before.iter().remaining().len() == k
                    &&& self.iter().remaining().len() == 0
                },
            decreases n - k,
        {
            match self.next_back() {
                Some(_) => {
                    assert(before.iter().remaining().take(
                        before.iter().remaining().len() - k,
                    ).drop_last() =~= before.iter().remaining().take(
                        before.iter().remaining().len() - k - 1,
                    ));
                },
                None => {
                    break;
                },
            }
            k += 1;
        }
        if k < n {
            return None;
        }
        match self.next_back() {
            Some(next) => {
                assert(before.iter().remaining().take(
                    before.iter().remaining().len() - k,
                ).drop_last() =~= before.iter().remaining().take(
                    before.iter().remaining().len() - k - 1,
                ));
                Some(next)
            },
            None => None,
        }
    }

    /// Takes the items that are left, each with its position, up into `init`, the last one first.
    pub fn rfold<Acc, Fold: Fn(Acc, (BlocksIndex, I::Item)) -> Acc>(
        self,
        init: Acc,
        fold: Fold,
    ) -> (acc: Acc)
        requires
            self.wf(),
            self.iter().obeys_prophetic_iter_laws(),
            self.position() + self.iter().remaining().len() <= usize::MAX,
            forall|acc: Acc, item: (BlocksIndex, I::Item)|
                #[trigger] call_requires(fold, (acc, item)),
        ensures
            is_folded(
                fold,
                pairs(self.position(), self.size(), self.iter().remaining()).reverse(),
                init,
                acc,
            ),
    {
        let n: usize = self.len();
        let mut items = self;
        let mut acc = init;
        let ghost mut accs = seq![init];
        let mut k: usize = 0;
        assert(self.iter().remaining().take(n as int) =~= self.iter().remaining());
        while k < n
            invariant
                n == self.iter().remaining().len(),
                self.position() + n <= usize::MAX,
                items.wf(),
                items.iter().obeys_prophetic_iter_laws(),
                items.size() == self.size(),
                items.position() == self.position(),
                0 <= k <= n,
                items.iter().remaining() == self.iter().remaining().take(n - k),
                forall|acc: Acc, item: (BlocksIndex, I::Item)|
                    #[trigger] call_requires(fold, (acc, item)),
                accs.len() == k + 1,
                accs[0] == init,
                accs.last() == acc,
                forall|i: int|
                    0 <= i < k ==> call_ensures(
                        fold,
                        (
                            #[trigger] accs[i],
                            (
                                at_position(self.position() + n - 1 - i, self.size()),
                                self.iter().remaining()[n - 1 - i],
                            ),
                        ),
                        accs[i + 1],
                    ),
            decreases n - k,
        {
            match items.next_back() {
                Some(item) => {
                    acc = fold(acc, item);
                    proof {
                        assert(self.iter().remaining().take(n - k).drop_last()
                            =~= self.iter().remaining().take(n - k - 1));
                        accs = accs.push(acc);
                    }
                },
                None => {},
            }
            k += 1;
        }
        assert(folds_over(
            fold,
            pairs(self.position(), self.size(), self.iter().remaining()).reverse(),
            accs,
        ));
        acc
    }
}

/// Going on gives one item after the other, the `k`-th of them with position `k / block_size`,
/// `k % block_size`, and nothing once they are used up.
pub proof fn law_kth_item_has_the_kth_position<I: Iterator>(
    states: Seq<EnumerateBlocked<I>>,
    results: Seq<Option<(BlocksIndex, I::Item)>>,
    k: int,
)
    requires
        states.len() == results.len() + 1,
        0 <= k < results.len(),
        states[0].position() == 0,
        states[0].size() > 0,
        states[0].iter().remaining().len() <= usize::MAX,
        forall|i: int|
            0 <= i < results.len() ==> match #[trigger] results[i] {
                Some((position, item)) => {
                    &&& states[i].iter().remaining().len() > 0
                    &&& position == at_position(states[i].position(), states[i].size())
                    &&& item == states[i].iter().remaining()[0]
                    &&& states[i + 1].size() == states[i].size()
                    &&& states[i + 1].position() == states[i].position() + 1
                    &&& states[i + 1].iter().remaining() == states[i].iter().remaining().skip(1)
                },
                None => {
                    &&& states[i].iter().remaining().len() == 0
                    &&& states[i + 1].size() == states[i].size()
                    &&& states[i + 1].position() == states[i].position()
                    &&& states[i + 1].iter().remaining() == states[i].iter().remaining()
                },
            },
    ensures
        states[k].size() == states[0].size(),
        states[k].position() == if k < states[0].iter().remaining().len() {
            k
        } else {
            states[0].iter().remaining().len() as int
        },
        states[k].iter().remaining() == states[0].iter().remaining().skip(states[k].position()),
        results[k] is None <==> k >= states[0].iter().remaining().len(),
        results[k] matches Some((position, item)) ==> {
            &&& item == states[0].iter().remaining()[k]
            &&& position.block_index == k / states[0].size() as int
            &&& position.index_in_block == k % states[0].size() as int
        },
    decreases k,
{
    let all = states[0].iter().remaining();
    if k == 0 {
        assert(all.skip(0) =~= all);
    } else {
        law_kth_item_has_the_kth_position(states, results, k - 1);
        let before = states[k - 1].position();
        assert(results[k - 1] is Some ==> all.skip(before).skip(1) =~= all.skip(before + 1));
    }
    let size = states[0].size() as int;
    assert(0 <= k / size <= k && 0 <= k % size <= k) by (nonlinear_arith)
        requires
            size > 0,
            k >= 0,
    ;
}

/// What [`EnumerateBlocked::rfold`] takes up is what [`EnumerateBlocked::fold`] takes up, in
/// reverse: each item keeps the position that it has from the front.
pub proof fn law_from_the_back_is_the_reverse<T>(
    position: int,
    block_size: nat,
    items: Seq<T>,
    i: int,
)
    requires
        0 <= i < items.len(),
    ensures
        ({
            let from_the_front = pairs(position, block_size, items);
            let from_the_back = from_the_front.reverse();
            let k = items.len() - 1 - i;
            &&& from_the_back.len() == from_the_front.len() == items.len()
            &&& from_the_back[i] == from_the_front[k]
            &&& from_the_back[i] == (at_position(position + k, block_size), items[k])
        }),
{
}

/// Items are taken up in order, each once, with the position that has as many items before it as
/// were enumerated before.
pub proof fn law_items_are_taken_up_in_order<Acc, T, Fold: Fn(Acc, (BlocksIndex, T)) -> Acc>(
    fold: Fold,
    position: int,
    block_size: nat,
    items: Seq<T>,
    init: Acc,
    acc: Acc,
) -> (found: (Seq<Acc>, Seq<BlocksIndex>))
    requires
        0 < block_size <= usize::MAX,
        0 <= position,
        position + items.len() <= usize::MAX,
        is_folded(fold, pairs(position, block_size, items), init, acc),
    ensures
        found.0.len() == items.len() + 1,
        found.0[0] == init,
        found.0.last() == acc,
        found.1.len() == items.len(),
        forall|i: int|
            0 <= i < items.len() ==> {
                let at = #[trigger] found.1[i];
                &&& at.block_index * block_size + at.index_in_block == position + i
                &&& at.index_in_block < block_size
                &&& call_ensures(fold, (found.0[i], (at, items[i])), found.0[i + 1])
            },
{
    let all = pairs(position, block_size, items);
    let accs = choose|accs: Seq<Acc>|
        #[trigger] folds_over(fold, all, accs) && accs[0] == init && accs.last() == acc;
    let positions = Seq::new(items.len(), |i: int| all[i].0);
    assert forall|i: int| 0 <= i < items.len() implies {
        let at = #[trigger] positions[i];
        &&& at.block_index * block_size + at.index_in_block == position + i
        &&& at.index_in_block < block_size
        &&& call_ensures(fold, (accs[i], (at, items[i])), accs[i + 1])
    } by {
        law_position_and_number(positions[i], position + i, block_size as int);
        assert(all[i] == (positions[i], items[i]));
    }
    (accs, positions)
}

/// `Iterator::size_hint`: bounds on the number of items that are left. Claimed of iterators that do
/// what iterators do, and end.
#[verifier::external_body]
fn iter_size_hint<I: Iterator>(iter: &I) -> (hint: (usize, Option<usize>))
    ensures
        iter.obeys_prophetic_iter_laws() && iter.decrease() is Some ==> {
            &&& hint.0 <= iter.remaining().len()
            &&& hint.1 matches Some(most) ==> iter.remaining().len() <= most
        },
{
    iter.size_hint()
}

/// `ExactSizeIterator::len`: the exact number of items that are left. Claimed of iterators that do
/// what iterators do.
#[verifier::external_body]
fn exact_len<I: ExactSizeIterator>(iter: &I) -> (len: usize)
    ensures
        <I as IteratorSpec>::obeys_prophetic_iter_laws(iter) ==> len == <I as IteratorSpec>::remaining(
            iter,
        ).len(),
{
    iter.len()
}

} // verus!
