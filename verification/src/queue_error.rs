use vstd::arithmetic::power2::{lemma2_to64, lemma_pow2_strictly_increases, lemma_pow2_unfold, pow2};
use vstd::bits::lemma_usize_low_bits_mask_is_mod;
use vstd::prelude::*;

verus! {

/// Errors of the queue collections.
#[derive(Clone, Copy, Debug, PartialEq, Eq, Structural)]
pub enum QueueError {
    /// Got invalid size: the size of a ring buffer must be a power of two.
    BadSize(usize),
    /// Queue is full.
    Full,
    /// No queue is registered under the given producer.
    QueueNotFound,
}

/// `n` is a power of two, written as the bit test that the queues make.
pub open spec fn is_pow2(n: usize) -> bool {
    n >= 1 && n & ((n - 1) as usize) == 0
}

/// The successor of `val` in a ring of `mask + 1` slots, stated without bits.
pub open spec fn ring_next(val: int, mask: int) -> int {
    if val == mask {
        0
    } else {
        val + 1
    }
}

/// Incrementing an index under a mask of all ones wraps around at the end of the ring.
pub proof fn lemma_masked_incr(val: usize, mask: usize)
    requires
        val <= mask,
        mask < usize::MAX,
        is_pow2((mask + 1) as usize),
    ensures
        ((val + 1) as usize) & mask == ring_next(val as int, mask as int),
{
    let size = (mask + 1) as usize;
    assert(size & ((size - 1) as usize) == 0);
    assert(((size - 1) as usize) == mask);
    let v1 = (val + 1) as usize;
    assert(v1 & mask == (if val == mask { 0usize } else { v1 })) by (bit_vector)
        requires
            val <= mask,
            v1 == val + 1,
            size == mask + 1,
            size & mask == 0usize,
    ;
}

/// A power of two, as the bit test states it, is a power of two.
proof fn lemma_pow2_of_bits(n: usize) -> (k: nat)
    requires
        is_pow2(n),
    ensures
        pow2(k) == n,
    decreases n,
{
    lemma2_to64();
    if n == 1 {
        return 0;
    }
    let h = n / 2;
    assert(n == 2 * h && h >= 1 && h & ((h - 1) as usize) == 0) by (bit_vector)
        requires
            n >= 2usize,
            n & ((n - 1) as usize) == 0usize,
            h == n / 2,
    ;
    let k = lemma_pow2_of_bits(h);
    lemma_pow2_unfold(k + 1);
    k + 1
}

/// Masking with `n - 1` takes the remainder by a power of two `n`.
pub proof fn lemma_mask_is_mod(x: usize, n: usize)
    requires
        is_pow2(n),
    ensures
        x & ((n - 1) as usize) == x % n,
{
    let k = lemma_pow2_of_bits(n);
    lemma2_to64();
    if k > usize::BITS {
        lemma_pow2_strictly_increases(usize::BITS as nat, k);
    }
    assert(k < usize::BITS);
    lemma_usize_low_bits_mask_is_mod(x, k);
}

} // verus!
