//! Adding up the bytes that a structure takes.
//!
//! How much room an allocator gives beyond what is asked for is its own affair. So the capacities
//! and sizes that were found are arguments here, and what they add up to is exact; where a
//! structure reports its size, there are such numbers, within bounds that always hold.

use crate::blocked_helpers::layout::{sum, total_count};
use vstd::prelude::*;

verus! {

/// The number, or the largest number there is if it is more than that.
pub open spec fn saturated(n: nat) -> usize {
    if n <= usize::MAX {
        n as usize
    } else {
        usize::MAX
    }
}

/// Adds up sizes.
pub fn total_size(sizes: &[usize]) -> (bytes: usize)
    ensures
        bytes == saturated(sum(sizes@)),
{
    let mut bytes: usize = 0;
    let mut i: usize = 0;
    assert(sizes@.take(0) =~= Seq::<usize>::empty());
    while i < sizes.len()
        invariant
            0 <= i <= sizes@.len(),
            bytes == saturated(sum(sizes@.take(i as int))),
        decreases sizes@.len() - i,
    {
        assert(sizes@.take(i + 1).drop_last() =~= sizes@.take(i as int));
        bytes = bytes.saturating_add(sizes[i]);
        i += 1;
    }
    assert(sizes@.take(i as int) =~= sizes@);
    bytes
}

/// The bytes of `count` items of the given size.
pub fn items_size(count: usize, item_size: usize) -> (bytes: usize)
    ensures
        bytes == saturated((count * item_size) as nat),
{
    assert(count * item_size >= 0) by (nonlinear_arith);
    match count.checked_mul(item_size) {
        Some(bytes) => bytes,
        None => usize::MAX,
    }
}

/// The bytes of a queue of blocks: the room in the queue for the blocks themselves, and what each
/// block has allocated.
pub fn allocated_bytes(
    queue_capacity: usize,
    block_struct_size: usize,
    block_sizes: &[usize],
) -> (bytes: usize)
    ensures
        bytes == saturated((queue_capacity * block_struct_size + sum(block_sizes@)) as nat),
{
    assert(queue_capacity * block_struct_size >= 0) by (nonlinear_arith);
    items_size(queue_capacity, block_struct_size).saturating_add(total_size(block_sizes))
}

/// A number that is too large is held at the largest one, and adding to it makes no difference.
pub proof fn law_saturated(a: nat, b: nat)
    ensures
        a <= usize::MAX ==> saturated(a) == a,
        a > usize::MAX ==> saturated(a) == usize::MAX,
        saturated(a + b) == saturated(saturated(a) as nat + b),
{
}

/// Sizes that may be found of allocations in which so many bytes are used. No allocation is larger
/// than `isize::MAX` bytes.
pub open spec fn cover(sizes: Seq<usize>, used: Seq<nat>) -> bool {
    &&& sizes.len() == used.len()
    &&& forall|i: int| 0 <= i < used.len() ==> used[i] <= #[trigger] sizes[i] <= isize::MAX
}

/// A size that may be found of an allocation in which so many bytes are used.
pub open spec fn covers(size: usize, used: nat) -> bool {
    used <= size <= isize::MAX
}

/// A capacity that may be found of a collection with so many items of the given size.
pub open spec fn has_room(capacity: usize, item_size: nat, len: nat) -> bool {
    &&& len <= capacity
    &&& capacity * item_size <= isize::MAX
}

/// The number of bytes may be found to be that of a queue of blocks, each block of the given size
/// itself, in whose allocations so many bytes are used.
pub open spec fn is_queue_size(bytes: usize, block_struct_size: nat, used: Seq<nat>) -> bool {
    exists|capacity: usize, sizes: Seq<usize>|
        {
            &&& #[trigger] has_room(capacity, block_struct_size, used.len())
            &&& #[trigger] cover(sizes, used)
            &&& bytes == saturated((capacity * block_struct_size + sum(sizes)) as nat)
        }
}

/// The bytes that the items of each block take, each of the given size.
pub open spec fn items_bytes<T>(item_size: nat, blocks: Seq<Seq<T>>) -> Seq<nat> {
    Seq::new(blocks.len(), |b: int| item_size * blocks[b].len())
}

/// What is found covers what is used.
proof fn lemma_cover(sizes: Seq<usize>, used: Seq<nat>)
    requires
        cover(sizes, used),
    ensures
        total_count(used) <= sum(sizes) <= used.len() * isize::MAX,
    decreases used.len(),
{
    if used.len() > 0 {
        let n = used.len() - 1;
        assert(cover(sizes.drop_last(), used.drop_last())) by {
            assert forall|i: int| 0 <= i < n implies used.drop_last()[i]
                <= #[trigger] sizes.drop_last()[i] <= isize::MAX by {
                assert(used[i] <= sizes[i] <= isize::MAX);
            }
        }
        lemma_cover(sizes.drop_last(), used.drop_last());
        assert(used[n] <= sizes[n] <= isize::MAX);
        assert(n * isize::MAX + isize::MAX == (n + 1) * isize::MAX) by (nonlinear_arith);
    } else {
        assert(0 * isize::MAX == 0) by (nonlinear_arith);
    }
}

/// The bytes of a queue are those of the room in it, for no fewer blocks than it has, and of one
/// allocation for each block, no smaller than what is used of it; or the largest number there is if
/// they are more.
pub proof fn law_queue_size_adds_up(bytes: usize, block_struct_size: nat, used: Seq<nat>) -> (found:
    (usize, Seq<usize>))
    requires
        is_queue_size(bytes, block_struct_size, used),
    ensures
        used.len() <= found.0,
        found.0 * block_struct_size <= isize::MAX,
        found.1.len() == used.len(),
        forall|i: int| 0 <= i < used.len() ==> used[i] <= #[trigger] found.1[i] <= isize::MAX,
        bytes == if found.0 * block_struct_size + sum(found.1) <= usize::MAX {
            found.0 * block_struct_size + sum(found.1)
        } else {
            usize::MAX as int
        },
{
    let (capacity, sizes) = choose|capacity: usize, sizes: Seq<usize>|
        {
            &&& #[trigger] has_room(capacity, block_struct_size, used.len())
            &&& #[trigger] cover(sizes, used)
            &&& bytes == saturated((capacity * block_struct_size + sum(sizes)) as nat)
        };
    assert(0 <= capacity * block_struct_size) by (nonlinear_arith);
    (capacity, sizes)
}

/// What is found of an allocation is no less than what is used of it, and no more than an allocation
/// can have.
pub proof fn law_found_sizes(size: usize, item_size: nat, len: nat)
    ensures
        covers(size, len) <==> len <= size <= isize::MAX,
        has_room(size, item_size, len) <==> len <= size && size * item_size <= isize::MAX,
{
}

/// The bytes that the items of a block take: as many as there are, each of its size.
pub proof fn law_bytes_of_items<T>(item_size: nat, blocks: Seq<Seq<T>>, b: int)
    requires
        0 <= b < blocks.len(),
    ensures
        items_bytes(item_size, blocks).len() == blocks.len(),
        items_bytes(item_size, blocks)[b] == item_size * blocks[b].len(),
{
}

/// A queue takes at least the bytes that its blocks use, and at most one allocation for each block
/// and one for the queue itself.
pub proof fn law_queue_size_bounds(bytes: usize, block_struct_size: nat, used: Seq<nat>)
    requires
        is_queue_size(bytes, block_struct_size, used),
    ensures
        bytes >= saturated(used.len() * block_struct_size + total_count(used)),
        bytes <= (used.len() + 1) * isize::MAX,
{
    let (capacity, sizes) = choose|capacity: usize, sizes: Seq<usize>|
        {
            &&& #[trigger] has_room(capacity, block_struct_size, used.len())
            &&& #[trigger] cover(sizes, used)
            &&& bytes == saturated((capacity * block_struct_size + sum(sizes)) as nat)
        };
    lemma_cover(sizes, used);
    assert(used.len() * block_struct_size <= capacity * block_struct_size) by (nonlinear_arith)
        requires
            used.len() <= capacity,
    ;
    assert(0 <= used.len() * block_struct_size) by (nonlinear_arith);
    assert((used.len() + 1) * isize::MAX == used.len() * isize::MAX + isize::MAX)
        by (nonlinear_arith);
}

} // verus!
