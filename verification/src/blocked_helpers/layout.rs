//! The mathematical model that the blocked builders share: a sequence of blocks,
//! each a sequence of values.

use vstd::arithmetic::div_mod::{
    lemma_fundamental_div_mod, lemma_fundamental_div_mod_converse, lemma_mod_bound,
};
use vstd::prelude::*;

verus! {

/// All the values, in order, with the block borders forgotten.
pub open spec fn concat<T>(blocks: Seq<Seq<T>>) -> Seq<T>
    decreases blocks.len(),
{
    if blocks.len() == 0 {
        Seq::empty()
    } else {
        concat(blocks.drop_last()) + blocks.last()
    }
}

/// `s` cut into blocks of exactly `cap` values, followed by one last block with
/// the fewer than `cap` values that are left (possibly none).
pub open spec fn chunks<T>(s: Seq<T>, cap: nat) -> Seq<Seq<T>>
    decreases s.len(),
{
    if cap == 0 || s.len() < cap {
        seq![s]
    } else {
        seq![s.take(cap as int)] + chunks(s.skip(cap as int), cap)
    }
}

/// `s` cut into consecutive blocks of the given sizes.
pub open spec fn split_by<T>(s: Seq<T>, sizes: Seq<usize>) -> Seq<Seq<T>>
    decreases sizes.len(),
{
    if sizes.len() == 0 {
        Seq::empty()
    } else {
        seq![s.take(sizes[0] as int)] + split_by(s.skip(sizes[0] as int), sizes.skip(1))
    }
}

/// The sum of the sizes.
pub open spec fn sum(sizes: Seq<usize>) -> nat
    decreases sizes.len(),
{
    if sizes.len() == 0 {
        0
    } else {
        sum(sizes.drop_last()) + sizes.last() as nat
    }
}

/// The sum of the counts.
pub open spec fn total_count(counts: Seq<nat>) -> nat
    decreases counts.len(),
{
    if counts.len() == 0 {
        0
    } else {
        total_count(counts.drop_last()) + counts.last()
    }
}

/// How many blocks of `cap` values it takes to hold those of `n` values that the current block,
/// with room for `remaining`, does not hold.
pub open spec fn blocks_needed(n: int, remaining: int, cap: int) -> int {
    if n <= remaining {
        0
    } else {
        (n - remaining + cap - 1) / cap
    }
}

/// Computes [`blocks_needed`].
pub(crate) fn count_blocks_needed(n: usize, remaining: usize, cap: usize) -> (blocks: usize)
    requires
        cap > 0,
    ensures
        blocks == blocks_needed(n as int, remaining as int, cap as int),
{
    if n <= remaining {
        return 0;
    }
    let left: usize = n - remaining;
    let full: usize = left / cap;
    let rest: usize = left % cap;
    proof {
        let d = cap as int;
        let q = left as int / d;
        let r = left as int % d;
        lemma_fundamental_div_mod(left as int, d);
        lemma_mod_bound(left as int, d);
        assert(d * q == q * d) by (nonlinear_arith);
        if r == 0 {
            lemma_fundamental_div_mod_converse(left + d - 1, d, q, d - 1);
        } else {
            assert(q * d + d == (q + 1) * d) by (nonlinear_arith);
            lemma_fundamental_div_mod_converse(left + d - 1, d, q + 1, r - 1);
            assert(q < left) by (nonlinear_arith)
                requires
                    q * d + r == left,
                    d >= 1,
                    r >= 1,
                    q >= 0,
            ;
        }
    }
    if rest == 0 {
        full
    } else {
        full + 1
    }
}

/// The blocks after `items` were added behind the last value.
///
/// With fixed sizing a block that reaches `cap` values is closed and a new, empty
/// block is opened; otherwise everything goes to the last block.
pub open spec fn appended<T>(
    fixed: bool,
    cap: nat,
    blocks: Seq<Seq<T>>,
    items: Seq<T>,
) -> Seq<Seq<T>> {
    if fixed {
        blocks.drop_last() + chunks(blocks.last() + items, cap)
    } else {
        blocks.drop_last().push(blocks.last() + items)
    }
}

/// The blocks after one item was added behind the last one. If that fills the last block, it is
/// closed and a new, empty block is opened.
pub open spec fn appended_until_full<T>(cap: nat, blocks: Seq<Seq<T>>, item: T) -> Seq<Seq<T>> {
    let grown = blocks.drop_last().push(blocks.last().push(item));
    if grown.last().len() == cap {
        grown.push(Seq::empty())
    } else {
        grown
    }
}

/// What every builder keeps of its blocks: there is always a block to write to, and
/// with fixed sizing no block holds more than `cap` values and the last one has room.
pub open spec fn valid_blocks<T>(fixed: bool, cap: nat, blocks: Seq<Seq<T>>) -> bool {
    &&& blocks.len() > 0
    &&& fixed ==> {
        &&& cap > 0
        &&& blocks.last().len() < cap
        &&& forall|i: int| 0 <= i < blocks.len() ==> (#[trigger] blocks[i]).len() <= cap
    }
}

/// Every block but the last holds exactly `cap` values.
pub open spec fn all_full_but_last<T>(cap: nat, blocks: Seq<Seq<T>>) -> bool {
    &&& blocks.len() > 0
    &&& forall|i: int| 0 <= i < blocks.len() - 1 ==> (#[trigger] blocks[i]).len() == cap
}

pub proof fn lemma_concat_push<T>(blocks: Seq<Seq<T>>, block: Seq<T>)
    ensures
        concat(blocks.push(block)) == concat(blocks) + block,
{
    assert(blocks.push(block).drop_last() =~= blocks);
}

pub proof fn lemma_concat_add<T>(a: Seq<Seq<T>>, b: Seq<Seq<T>>)
    ensures
        concat(a + b) == concat(a) + concat(b),
    decreases b.len(),
{
    if b.len() == 0 {
        assert(a + b =~= a);
        assert(concat(a) + concat(b) =~= concat(a));
    } else {
        assert((a + b).drop_last() =~= a + b.drop_last());
        lemma_concat_add(a, b.drop_last());
        assert(concat(a) + (concat(b.drop_last()) + b.last()) =~= concat(a) + concat(
            b.drop_last(),
        ) + b.last());
    }
}

pub proof fn lemma_concat_one<T>(block: Seq<T>)
    ensures
        concat(seq![block]) == block,
{
    assert(seq![block].drop_last() =~= Seq::<Seq<T>>::empty());
    assert(concat(Seq::<Seq<T>>::empty()) + block =~= block);
}

/// Taking the first block away drops its values from the front.
pub proof fn lemma_concat_first<T>(blocks: Seq<Seq<T>>)
    requires
        blocks.len() > 0,
    ensures
        concat(blocks) == blocks[0] + concat(blocks.skip(1)),
{
    assert(blocks =~= seq![blocks[0]] + blocks.skip(1));
    lemma_concat_add(seq![blocks[0]], blocks.skip(1));
    lemma_concat_one(blocks[0]);
}

/// Each block lies at its place among all the values.
pub proof fn lemma_concat_at<T>(blocks: Seq<Seq<T>>, i: int)
    requires
        0 <= i < blocks.len(),
    ensures
        concat(blocks) == concat(blocks.take(i)) + blocks[i] + concat(blocks.skip(i + 1)),
{
    assert(blocks =~= blocks.take(i) + blocks.skip(i));
    lemma_concat_add(blocks.take(i), blocks.skip(i));
    lemma_concat_first(blocks.skip(i));
    assert(blocks.skip(i).skip(1) =~= blocks.skip(i + 1));
    assert(concat(blocks.take(i)) + (blocks[i] + concat(blocks.skip(i + 1))) =~= concat(
        blocks.take(i),
    ) + blocks[i] + concat(blocks.skip(i + 1)));
}

pub proof fn lemma_chunks<T>(s: Seq<T>, cap: nat)
    requires
        cap > 0,
    ensures
        concat(chunks(s, cap)) == s,
        all_full_but_last(cap, chunks(s, cap)),
        chunks(s, cap).last().len() < cap,
        valid_blocks(true, cap, chunks(s, cap)),
    decreases s.len(),
{
    if s.len() < cap {
        lemma_concat_one(s);
    } else {
        let rest = chunks(s.skip(cap as int), cap);
        lemma_chunks(s.skip(cap as int), cap);
        lemma_concat_add(seq![s.take(cap as int)], rest);
        lemma_concat_one(s.take(cap as int));
        assert(s =~= s.take(cap as int) + s.skip(cap as int));
        let all = chunks(s, cap);
        assert(all.last() == rest.last());
        assert forall|i: int| 0 <= i < all.len() - 1 implies (#[trigger] all[i]).len() == cap by {
            if i > 0 {
                assert(all[i] == rest[i - 1]);
            }
        }
        assert forall|i: int| 0 <= i < all.len() implies (#[trigger] all[i]).len() <= cap by {
            if i > 0 {
                assert(all[i] == rest[i - 1]);
            }
        }
    }
}

/// A layout whose blocks are all full but the last one, which has room, is the one
/// that cutting its values gives.
pub proof fn lemma_full_is_chunks<T>(blocks: Seq<Seq<T>>, cap: nat)
    requires
        all_full_but_last(cap, blocks),
        blocks.last().len() < cap,
    ensures
        blocks == chunks(concat(blocks), cap),
    decreases blocks.len(),
{
    lemma_concat_first(blocks);
    if blocks.len() == 1 {
        assert(blocks.skip(1) =~= Seq::<Seq<T>>::empty());
        assert(blocks[0] + concat(blocks.skip(1)) =~= blocks[0]);
        assert(blocks =~= seq![blocks[0]]);
    } else {
        let rest = blocks.skip(1);
        assert(rest.last() == blocks.last());
        assert forall|i: int| 0 <= i < rest.len() - 1 implies (#[trigger] rest[i]).len() == cap by {
            assert(rest[i] == blocks[i + 1]);
        }
        lemma_full_is_chunks(rest, cap);
        let s = concat(blocks);
        assert(s.take(cap as int) =~= blocks[0]);
        assert(s.skip(cap as int) =~= concat(rest));
        assert(blocks =~= seq![blocks[0]] + rest);
    }
}

/// Cutting can go on from the last block: what was cut before stays as it is.
pub proof fn lemma_chunks_add<T>(s: Seq<T>, more: Seq<T>, cap: nat)
    requires
        cap > 0,
    ensures
        chunks(s, cap).len() > 0,
        chunks(s, cap).drop_last() + chunks(chunks(s, cap).last() + more, cap) == chunks(
            s + more,
            cap,
        ),
    decreases s.len(),
{
    if s.len() < cap {
        assert(chunks(s, cap).drop_last() =~= Seq::<Seq<T>>::empty());
        assert(chunks(s, cap).last() == s);
        assert(Seq::<Seq<T>>::empty() + chunks(s + more, cap) =~= chunks(s + more, cap));
    } else {
        let head = s.take(cap as int);
        let tail = s.skip(cap as int);
        let rest = chunks(tail, cap);
        lemma_chunks_add(tail, more, cap);
        let all = chunks(s, cap);
        assert(all =~= seq![head] + rest);
        assert(all.last() == rest.last());
        assert(all.drop_last() =~= seq![head] + rest.drop_last());
        assert((s + more).take(cap as int) =~= head);
        assert((s + more).skip(cap as int) =~= tail + more);
        assert(all.drop_last() + chunks(all.last() + more, cap) =~= seq![head] + (rest.drop_last()
            + chunks(rest.last() + more, cap)));
    }
}

/// Adding values in two steps gives the same blocks as adding them at once.
pub proof fn lemma_appended_twice<T>(
    fixed: bool,
    cap: nat,
    blocks: Seq<Seq<T>>,
    a: Seq<T>,
    b: Seq<T>,
)
    requires
        blocks.len() > 0,
        fixed ==> cap > 0,
    ensures
        appended(fixed, cap, appended(fixed, cap, blocks, a), b) == appended(
            fixed,
            cap,
            blocks,
            a + b,
        ),
{
    let first = appended(fixed, cap, blocks, a);
    if fixed {
        let c = chunks(blocks.last() + a, cap);
        lemma_chunks_add(blocks.last() + a, b, cap);
        assert(first.last() == c.last());
        assert(first.drop_last() =~= blocks.drop_last() + c.drop_last());
        assert(blocks.last() + a + b =~= blocks.last() + (a + b));
        assert(blocks.drop_last() + c.drop_last() + chunks(c.last() + b, cap)
            =~= blocks.drop_last() + (c.drop_last() + chunks(c.last() + b, cap)));
    } else {
        assert(first.drop_last() =~= blocks.drop_last());
        assert(blocks.last() + a + b =~= blocks.last() + (a + b));
    }
}

/// Adding nothing changes nothing.
pub proof fn lemma_appended_nothing<T>(fixed: bool, cap: nat, blocks: Seq<Seq<T>>)
    requires
        valid_blocks(fixed, cap, blocks),
    ensures
        appended(fixed, cap, blocks, Seq::empty()) == blocks,
{
    assert(blocks.last() + Seq::<T>::empty() =~= blocks.last());
    assert(blocks =~= blocks.drop_last() + seq![blocks.last()]);
    assert(blocks =~= blocks.drop_last().push(blocks.last()));
}

/// Values that fit into the last block go there; a new block is opened when it is full.
pub proof fn lemma_appended_within<T>(fixed: bool, cap: nat, blocks: Seq<Seq<T>>, items: Seq<T>)
    requires
        valid_blocks(fixed, cap, blocks),
        fixed ==> blocks.last().len() + items.len() <= cap,
    ensures
        ({
            let grown = blocks.update(blocks.len() - 1, blocks.last() + items);
            appended(fixed, cap, blocks, items) == if fixed && blocks.last().len() + items.len()
                == cap {
                grown.push(Seq::empty())
            } else {
                grown
            }
        }),
{
    let s = blocks.last() + items;
    let grown = blocks.update(blocks.len() - 1, s);
    assert(grown =~= blocks.drop_last().push(s));
    if fixed && s.len() == cap {
        assert(s.take(cap as int) =~= s);
        assert(s.skip(cap as int) =~= Seq::<T>::empty());
        assert(chunks(Seq::<T>::empty(), cap) =~= seq![Seq::<T>::empty()]);
        assert(chunks(s, cap) =~= seq![s].push(Seq::<T>::empty()));
        assert(blocks.drop_last() + chunks(s, cap) =~= grown.push(Seq::empty()));
    } else if fixed {
        assert(blocks.drop_last() + seq![s] =~= grown);
    }
}

/// Adding can be done block by block: first as many values as the last block has room for,
/// which gives that block its final content, then the others.
pub proof fn lemma_appended_step<T>(cap: nat, blocks: Seq<Seq<T>>, items: Seq<T>, k: int)
    requires
        valid_blocks(true, cap, blocks),
        0 <= k <= items.len(),
        k == items.len() || k == cap - blocks.last().len(),
        blocks.last().len() + k <= cap,
    ensures
        ({
            let all = appended(true, cap, blocks, items);
            &&& all.len() >= blocks.len()
            &&& all[blocks.len() - 1] == blocks.last() + items.take(k)
            &&& all == appended(
                true,
                cap,
                appended(true, cap, blocks, items.take(k)),
                items.skip(k),
            )
        }),
{
    let s = blocks.last() + items;
    let all = appended(true, cap, blocks, items);
    lemma_appended_twice(true, cap, blocks, items.take(k), items.skip(k));
    assert(items.take(k) + items.skip(k) =~= items);
    lemma_chunks(s, cap);
    assert(all[blocks.len() - 1] == chunks(s, cap)[0]);
    if s.len() < cap {
        assert(s =~= blocks.last() + items.take(k));
    } else {
        assert(s.take(cap as int) =~= blocks.last() + items.take(k));
    }
}

/// Adding values keeps the blocks valid and puts the values behind the others.
pub proof fn lemma_appended<T>(fixed: bool, cap: nat, blocks: Seq<Seq<T>>, items: Seq<T>)
    requires
        valid_blocks(fixed, cap, blocks),
    ensures
        valid_blocks(fixed, cap, appended(fixed, cap, blocks, items)),
        concat(appended(fixed, cap, blocks, items)) == concat(blocks) + items,
        fixed && all_full_but_last(cap, blocks) ==> all_full_but_last(
            cap,
            appended(fixed, cap, blocks, items),
        ),
{
    let s = blocks.last() + items;
    let init = blocks.drop_last();
    let all = appended(fixed, cap, blocks, items);
    assert(concat(blocks) + items =~= concat(init) + s);
    if fixed {
        let c = chunks(s, cap);
        lemma_chunks(s, cap);
        lemma_concat_add(init, c);
        assert(all.last() == c.last());
        assert forall|i: int| 0 <= i < all.len() implies (#[trigger] all[i]).len() <= cap by {
            if i < init.len() {
                assert(all[i] == blocks[i]);
            } else {
                assert(all[i] == c[i - init.len()]);
            }
        }
        if all_full_but_last(cap, blocks) {
            assert forall|i: int| 0 <= i < all.len() - 1 implies (#[trigger] all[i]).len()
                == cap by {
                if i < init.len() {
                    assert(all[i] == blocks[i]);
                } else {
                    assert(all[i] == c[i - init.len()]);
                }
            }
        }
    } else {
        lemma_concat_push(init, s);
    }
}

/// Adding only the first of some values gives blocks that start the blocks that adding all of
/// them gives.
pub proof fn lemma_appended_prefix<T>(
    fixed: bool,
    cap: nat,
    blocks: Seq<Seq<T>>,
    items: Seq<T>,
    k: int,
    i: int,
)
    requires
        valid_blocks(fixed, cap, blocks),
        0 <= k <= items.len(),
        0 <= i < appended(fixed, cap, blocks, items.take(k)).len(),
    ensures
        ({
            let part = appended(fixed, cap, blocks, items.take(k));
            let all = appended(fixed, cap, blocks, items);
            &&& i < all.len()
            &&& part[i].len() <= all[i].len()
            &&& all[i].take(part[i].len() as int) == part[i]
        }),
{
    let rest = items.skip(k);
    let part = appended(fixed, cap, blocks, items.take(k));
    let all = appended(fixed, cap, blocks, items);
    assert(items.take(k) + rest =~= items);
    lemma_appended_twice(fixed, cap, blocks, items.take(k), rest);
    lemma_appended(fixed, cap, blocks, items.take(k));
    if i < part.len() - 1 {
        assert(all[i] == part[i]);
    } else {
        let s = part.last() + rest;
        if fixed {
            lemma_chunks(s, cap);
            assert(all[i] == chunks(s, cap)[0]);
        } else {
            assert(all[i] == s);
        }
    }
    assert(all[i].take(part[i].len() as int) =~= part[i]);
}

/// The sizes give back blocks of those sizes, and together all the values.
pub proof fn lemma_split_by<T>(s: Seq<T>, sizes: Seq<usize>)
    requires
        sum(sizes) == s.len(),
    ensures
        split_by(s, sizes).len() == sizes.len(),
        forall|i: int|
            0 <= i < sizes.len() ==> (#[trigger] split_by(s, sizes)[i]).len() == sizes[i],
        concat(split_by(s, sizes)) == s,
    decreases sizes.len(),
{
    if sizes.len() > 0 {
        lemma_sum_first(sizes);
        let rest = s.skip(sizes[0] as int);
        lemma_split_by(rest, sizes.skip(1));
        let all = split_by(s, sizes);
        assert forall|i: int| 0 <= i < sizes.len() implies (#[trigger] all[i]).len()
            == sizes[i] by {
            if i > 0 {
                assert(all[i] == split_by(rest, sizes.skip(1))[i - 1]);
            }
        }
        lemma_concat_add(seq![s.take(sizes[0] as int)], split_by(rest, sizes.skip(1)));
        lemma_concat_one(s.take(sizes[0] as int));
        assert(s =~= s.take(sizes[0] as int) + rest);
    }
}

pub proof fn lemma_sum_first(sizes: Seq<usize>)
    requires
        sizes.len() > 0,
    ensures
        sum(sizes) == sizes[0] + sum(sizes.skip(1)),
    decreases sizes.len(),
{
    if sizes.len() == 1 {
        assert(sizes.drop_last() =~= Seq::<usize>::empty());
        assert(sizes.skip(1) =~= Seq::<usize>::empty());
    } else {
        lemma_sum_first(sizes.drop_last());
        assert(sizes.drop_last().skip(1) =~= sizes.skip(1).drop_last());
    }
}

} // verus!
