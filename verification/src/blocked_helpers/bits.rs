//! Bits packed into bytes, the lowest bit of a byte first.

use vstd::prelude::*;

verus! {

/// Bit `k` of a byte.
pub open spec fn byte_bit(byte: u8, k: int) -> bool {
    (byte >> (k as u8)) & 1 == 1
}

/// Bit `i` of the bytes.
pub open spec fn bit_at(bytes: Seq<u8>, i: int) -> bool {
    byte_bit(bytes[i / 8], i % 8)
}

/// The bits from `from` up to `to`.
pub open spec fn bits_in(bytes: Seq<u8>, from: int, to: int) -> Seq<bool> {
    Seq::new((to - from) as nat, |i: int| bit_at(bytes, from + i))
}

/// Eight bits from two neighbouring bytes, starting `shift` bits into the first.
proof fn lemma_joined_byte(a: u8, b: u8, shift: u8, joined: u8)
    requires
        0 < shift < 8,
        joined == (a >> shift) | (b << ((8 - shift) as u8)),
    ensures
        forall|k: int|
            0 <= k < 8 ==> #[trigger] byte_bit(joined, k) == if k + shift < 8 {
                byte_bit(a, k + shift)
            } else {
                byte_bit(b, k + shift - 8)
            },
{
    assert forall|k: int| 0 <= k < 8 implies #[trigger] byte_bit(joined, k) == if k + shift < 8 {
        byte_bit(a, k + shift)
    } else {
        byte_bit(b, k + shift - 8)
    } by {
        let k8 = k as u8;
        if k + shift < 8 {
            let up = (k + shift) as u8;
            assert((((a >> shift) | (b << ((8 - shift) as u8))) >> k8) & 1 == (a >> up) & 1)
                by (bit_vector)
                requires
                    0 < shift < 8,
                    k8 < 8,
                    k8 + shift < 8,
                    up == k8 + shift,
            ;
        } else {
            let down = (k + shift - 8) as u8;
            assert((((a >> shift) | (b << ((8 - shift) as u8))) >> k8) & 1 == (b >> down) & 1)
                by (bit_vector)
                requires
                    0 < shift < 8,
                    k8 < 8,
                    k8 + shift >= 8,
                    down == k8 + shift - 8,
            ;
        }
    }
}

/// Keeping the lowest `keep` bits of a byte clears the others.
proof fn lemma_masked_byte(byte: u8, keep: u8, masked: u8)
    requires
        0 < keep < 8,
        masked == byte & (((1u8 << keep) - 1) as u8),
    ensures
        forall|k: int|
            0 <= k < 8 ==> #[trigger] byte_bit(masked, k) == (k < keep && byte_bit(byte, k)),
{
    assert forall|k: int| 0 <= k < 8 implies #[trigger] byte_bit(masked, k) == (k < keep
        && byte_bit(byte, k)) by {
        let k8 = k as u8;
        assert(((byte & (((1u8 << keep) - 1) as u8)) >> k8) & 1 == if k8 < keep {
            (byte >> k8) & 1
        } else {
            0
        }) by (bit_vector)
            requires
                0 < keep < 8,
                k8 < 8,
        ;
    }
}

/// Moves the `len` bits from `offset` on to the start of the bytes, in place. The bits behind
/// them in the last byte that they take are cleared.
pub(crate) fn shift_bits_down(bytes: &mut [u8], offset: usize, len: usize)
    requires
        offset + len <= old(bytes)@.len() * 8,
        offset + len <= usize::MAX,
    ensures
        final(bytes)@.len() == old(bytes)@.len(),
        forall|i: int|
            0 <= i < len ==> #[trigger] bit_at(final(bytes)@, i) == bit_at(
                old(bytes)@,
                i + offset,
            ),
        forall|i: int|
            len <= i < (len + 7) / 8 * 8 ==> !#[trigger] bit_at(final(bytes)@, i),
{
    let ghost before = bytes@;
    let byte_offset: usize = offset / 8;
    let bit_offset: usize = offset % 8;
    let trailing: usize = len % 8;
    let dst_bytes: usize = len / 8 + if trailing == 0 {
        0
    } else {
        1
    };
    let src_bytes: usize = bytes.len();
    let mut dst: usize = 0;
    // A byte is written at or below the one that is read, so a forward pass never reads what
    // it has already overwritten.
    while dst < dst_bytes
        invariant
            byte_offset == offset / 8,
            bit_offset == offset % 8,
            bytes@.len() == before.len() == src_bytes,
            dst_bytes == (len + 7) / 8,
            offset + len <= before.len() * 8,
            0 <= dst <= dst_bytes,
            forall|d: int| dst <= d < before.len() ==> #[trigger] bytes@[d] == before[d],
            forall|i: int|
                0 <= i < dst * 8 && i < len ==> #[trigger] bit_at(bytes@, i) == bit_at(
                    before,
                    i + offset,
                ),
        decreases dst_bytes - dst,
    {
        let src: usize = dst + byte_offset;
        let ghost now = bytes@;
        assert(bytes@[src as int] == before[src as int]);
        if bit_offset == 0 {
            bytes[dst] = bytes[src];
            proof {
                assert forall|i: int| 0 <= i < (dst + 1) * 8 && i < len implies #[trigger] bit_at(
                    bytes@,
                    i,
                ) == bit_at(before, i + offset) by {
                    if i >= dst * 8 {
                        assert(i / 8 == dst as int);
                        assert((i + offset) / 8 == src as int);
                        assert((i + offset) % 8 == i % 8);
                    } else {
                        assert(bit_at(now, i) == bit_at(before, i + offset));
                    }
                }
            }
        } else {
            let shift: u8 = bit_offset as u8;
            let a: u8 = bytes[src];
            let b: u8 = if src + 1 < src_bytes {
                assert(bytes@[src + 1] == before[src + 1]);
                bytes[src + 1]
            } else {
                0
            };
            let joined: u8 = (a >> shift) | (b << (8 - shift));
            bytes[dst] = joined;
            proof {
                lemma_joined_byte(a, b, shift, joined);
                assert forall|i: int| 0 <= i < (dst + 1) * 8 && i < len implies #[trigger] bit_at(
                    bytes@,
                    i,
                ) == bit_at(before, i + offset) by {
                    if i >= dst * 8 {
                        let k = i % 8;
                        assert(i / 8 == dst as int);
                        assert(bit_at(bytes@, i) == byte_bit(joined, k));
                        if k + shift < 8 {
                            assert((i + offset) / 8 == src as int);
                            assert((i + offset) % 8 == k + shift);
                        } else {
                            assert((i + offset) / 8 == src + 1);
                            assert((i + offset) % 8 == k + shift - 8);
                        }
                    } else {
                        assert(bit_at(now, i) == bit_at(before, i + offset));
                    }
                }
            }
        }
        dst += 1;
    }
    if trailing != 0 {
        let ghost now = bytes@;
        let keep: u8 = trailing as u8;
        let last: usize = dst_bytes - 1;
        let byte: u8 = bytes[last];
        proof {
            assert(1 <= (1u8 << keep)) by (bit_vector)
                requires
                    0 < keep < 8,
            ;
        }
        let mask: u8 = (1u8 << keep) - 1;
        bytes[last] = byte & mask;
        proof {
            lemma_masked_byte(byte, keep, byte & mask);
            assert forall|i: int| 0 <= i < dst_bytes * 8 implies #[trigger] bit_at(bytes@, i) == (i
                < len && bit_at(now, i)) by {
                if i / 8 == last as int {
                    assert(i % 8 < keep <==> i < len);
                }
            }
        }
    }
}

/// Sets a bit.
pub(crate) fn set_packed_bit(bytes: &mut Vec<u8>, i: usize)
    requires
        i < old(bytes)@.len() * 8,
    ensures
        final(bytes)@.len() == old(bytes)@.len(),
        forall|j: int|
            0 <= j < old(bytes)@.len() * 8 ==> #[trigger] bit_at(final(bytes)@, j) == (j == i
                || bit_at(old(bytes)@, j)),
{
    let ghost before = bytes@;
    let k: u8 = (i % 8) as u8;
    let byte: u8 = bytes[i / 8];
    let with_bit: u8 = byte | (1u8 << k);
    bytes.set(i / 8, with_bit);
    proof {
        assert forall|j: int| 0 <= j < before.len() * 8 implies #[trigger] bit_at(bytes@, j) == (j
            == i || bit_at(before, j)) by {
            if j / 8 == i / 8 {
                let at = (j % 8) as u8;
                assert((((byte | (1u8 << k)) >> at) & 1 == 1) == (at == k || (byte >> at) & 1 == 1))
                    by (bit_vector)
                    requires
                        at < 8,
                        k < 8,
                ;
            }
        }
    }
}

/// No bit is set where all bytes are zero.
pub(crate) proof fn lemma_zero_bits(bytes: Seq<u8>, i: int)
    requires
        0 <= i < bytes.len() * 8,
        bytes[i / 8] == 0,
    ensures
        !bit_at(bytes, i),
{
    let k = (i % 8) as u8;
    assert((0u8 >> k) & 1 == 0) by (bit_vector);
}

} // verus!
