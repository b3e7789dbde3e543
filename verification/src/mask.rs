//! Netmasks as bit patterns: a run of one-bits followed by zero-bits.

use vstd::arithmetic::power2::pow2;
use vstd::bits::{lemma_u64_pow2_no_overflow, lemma_u64_shl_is_mul};
use vstd::prelude::*;

verus! {

/// The netmask with `prefix` leading one-bits. A prefix of 0 is the all-zero mask.
pub open spec fn netmask_of(prefix: u32) -> u32 {
    if prefix == 0 {
        0u32
    } else {
        0xffff_ffffu32 << ((32 - prefix) as u32)
    }
}

/// Whether `mask` is a run of one-bits followed by zero-bits.
pub open spec fn is_netmask(mask: u32) -> bool {
    exists|prefix: u32| prefix <= 32 && mask == #[trigger] netmask_of(prefix)
}

/// The prefix length of a netmask: the number of its one-bits.
pub open spec fn prefix_of(mask: u32) -> u32 {
    choose|prefix: u32| prefix <= 32 && mask == #[trigger] netmask_of(prefix)
}

/// The all-zero pattern is the netmask of prefix length 0.
pub proof fn lemma_zero_is_netmask()
    ensures
        is_netmask(0),
{
    assert(netmask_of(0) == 0);
}

/// Computes the netmask of a prefix length.
pub fn make_netmask(prefix: u32) -> (mask: u32)
    requires
        prefix <= 32,
    ensures
        mask == netmask_of(prefix),
        is_netmask(mask),
{
    if prefix == 0 {
        0
    } else {
        0xffff_ffffu32 << (32 - prefix)
    }
}

/// The bit of a netmask at position `k`, counted from the least significant:
/// one in the upper `prefix` positions, zero below them.
pub proof fn lemma_netmask_bit(prefix: u32, k: u32)
    requires
        prefix <= 32,
        k < 32,
    ensures
        (netmask_of(prefix) >> k) & 1 == if k + prefix >= 32 {
            1u32
        } else {
            0u32
        },
{
    if prefix > 0 {
        let shift = (32 - prefix) as u32;
        assert(((0xffff_ffffu32 << shift) >> k) & 1 == if k >= shift {
            1u32
        } else {
            0u32
        }) by (bit_vector)
            requires
                shift < 32,
                k < 32,
        ;
    } else {
        assert((0u32 >> k) & 1 == 0) by (bit_vector);
    }
}

/// The zero-bits of a netmask, turned into ones and read as a number, are one
/// less than the number of addresses in the block, which is 2 to the power of
/// 32 less the prefix length.
pub proof fn lemma_netmask_complement(prefix: u32)
    requires
        prefix <= 32,
    ensures
        !netmask_of(prefix) == pow2((32 - prefix) as nat) - 1,
{
    let k = (32 - prefix) as u64;
    lemma_u64_pow2_no_overflow(k as nat);
    lemma_u64_shl_is_mul(1, k);
    if prefix > 0 {
        let shift = (32 - prefix) as u32;
        assert(!(0xffff_ffffu32 << shift) == (1u64 << k) - 1) by (bit_vector)
            requires
                shift < 32,
                k == shift,
        ;
    } else {
        assert(!0u32 == (1u64 << 32u64) - 1) by (bit_vector);
    }
}

/// Different prefix lengths have different netmasks.
pub proof fn lemma_netmask_injective(p: u32, q: u32)
    requires
        p <= 32,
        q <= 32,
        netmask_of(p) == netmask_of(q),
    ensures
        p == q,
{
    if p < q {
        lemma_netmask_bit(p, (32 - q) as u32);
        lemma_netmask_bit(q, (32 - q) as u32);
    } else if q < p {
        lemma_netmask_bit(p, (32 - p) as u32);
        lemma_netmask_bit(q, (32 - p) as u32);
    }
}

/// The prefix length of the netmask of a prefix length is that length.
pub proof fn lemma_prefix_of_netmask(prefix: u32)
    requires
        prefix <= 32,
    ensures
        is_netmask(netmask_of(prefix)),
        prefix_of(netmask_of(prefix)) == prefix,
{
    let q = prefix_of(netmask_of(prefix));
    lemma_netmask_injective(prefix, q);
}

/// A netmask is the netmask of its prefix length, which is at most 32.
pub proof fn lemma_netmask_of_prefix(mask: u32)
    requires
        is_netmask(mask),
    ensures
        prefix_of(mask) <= 32,
        netmask_of(prefix_of(mask)) == mask,
{
}

/// Finds the prefix length of a netmask: 32 less the number of zero-bits
/// below its lowest one-bit, and 0 for the all-zero mask.
pub fn prefix_len_of(mask: u32) -> (prefix: u32)
    requires
        is_netmask(mask),
    ensures
        prefix <= 32,
        prefix == prefix_of(mask),
        netmask_of(prefix) == mask,
{
    let ghost p = prefix_of(mask);
    let mut count: u32 = 32;
    let mut rest: u32 = mask;
    assert(mask >> 0u32 == mask) by (bit_vector);
    while count > 0 && rest & 1 == 0
        invariant
            p <= 32,
            mask == netmask_of(p),
            p <= count <= 32,
            count > 0 ==> rest == mask >> ((32 - count) as u32),
        decreases count,
    {
        proof {
            lemma_netmask_bit(p, (32 - count) as u32);
            let k = (32 - count) as u32;
            assert(k < 31 ==> (mask >> k) >> 1u32 == mask >> ((k + 1) as u32)) by (bit_vector);
        }
        rest = rest >> 1;
        count = count - 1;
    }
    proof {
        if count > 0 {
            lemma_netmask_bit(p, (32 - count) as u32);
        }
    }
    count
}

} // verus!
