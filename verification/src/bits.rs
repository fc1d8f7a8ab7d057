//! Bit-level reasoning about the 64-bit buckets of the window: individual
//! bits, the number of set bits in a bucket, and how both change when one bit
//! is set.

use vstd::prelude::*;

verus! {

/// True when bit `j` of `b` is set.
pub open spec fn nth_bit(b: u64, j: u64) -> bool
    recommends
        j < 64,
{
    (b >> j) & 1 == 1
}

/// Number of set bits of `b` among the positions strictly below `n`.
pub open spec fn count_low_bits(b: u64, n: int) -> int
    decreases n,
{
    if n <= 0 {
        0
    } else {
        count_low_bits(b, n - 1) + if nth_bit(b, (n - 1) as u64) {
            1int
        } else {
            0int
        }
    }
}

/// Number of set bits of `b`.
pub open spec fn popcount(b: u64) -> int {
    count_low_bits(b, 64)
}

/// Counting bits below `n` yields a value between 0 and `n`.
pub proof fn lemma_count_low_bits_bounds(b: u64, n: int)
    requires
        0 <= n,
    ensures
        0 <= count_low_bits(b, n) <= n,
    decreases n,
{
    if n > 0 {
        lemma_count_low_bits_bounds(b, n - 1);
    }
}

/// A bucket holds between 0 and 64 set bits.
pub proof fn lemma_popcount_bounds(b: u64)
    ensures
        0 <= popcount(b) <= 64,
{
    lemma_count_low_bits_bounds(b, 64);
}

/// The all-zero bucket has no set bits.
pub proof fn lemma_popcount_zero()
    ensures
        forall|j: u64| j < 64 ==> !nth_bit(0u64, j),
        popcount(0u64) == 0,
{
    assert forall|j: u64| j < 64 implies !nth_bit(0u64, j) by {
        assert((0u64 >> j) & 1 == 0) by (bit_vector);
    }
    lemma_count_low_bits_no_bits(0u64, 64);
}

/// Setting bit `j` sets it and leaves every other bit alone.
pub proof fn lemma_nth_bit_or(a: u64, j: u64, k: u64)
    requires
        j < 64,
        k < 64,
    ensures
        nth_bit(a | (1u64 << j), k) == (nth_bit(a, k) || k == j),
{
    assert((((a | (1u64 << j)) >> k) & 1 == 1) == (((a >> k) & 1 == 1) || k == j)) by (bit_vector)
        requires
            j < 64,
            k < 64,
    ;
}

/// Setting bit `j` raises the number of set bits by one exactly when the bit
/// was clear before.
pub proof fn lemma_popcount_or(a: u64, j: u64)
    requires
        j < 64,
    ensures
        popcount(a | (1u64 << j)) == popcount(a) + if nth_bit(a, j) {
            0int
        } else {
            1int
        },
{
    lemma_count_low_bits_or(a, j, 64);
}

proof fn lemma_count_low_bits_or(a: u64, j: u64, n: int)
    requires
        j < 64,
        0 <= n <= 64,
    ensures
        count_low_bits(a | (1u64 << j), n) == count_low_bits(a, n) + if j < n && !nth_bit(a, j) {
            1int
        } else {
            0int
        },
    decreases n,
{
    if n > 0 {
        lemma_count_low_bits_or(a, j, n - 1);
        lemma_nth_bit_or(a, j, (n - 1) as u64);
    }
}

/// Count the set bits of one bucket.
pub fn count_set_bits(b: u64) -> (r: u64)
    ensures
        r == popcount(b),
{
    let mut r: u64 = 0;
    let mut j: u64 = 0;
    while j < 64
        invariant
            j <= 64,
            r <= j,
            r == count_low_bits(b, j as int),
        decreases 64 - j,
    {
        if (b >> j) & 1 == 1 {
            r = r + 1;
        }
        j = j + 1;
    }
    r
}

/// Setting a bit that is already set leaves the bucket unchanged.
pub proof fn lemma_or_set_bit_noop(a: u64, j: u64)
    requires
        j < 64,
        nth_bit(a, j),
    ensures
        a | (1u64 << j) == a,
{
    assert((a >> j) & 1 == 1 ==> a | (1u64 << j) == a) by (bit_vector)
        requires
            j < 64,
    ;
}

/// The saturated bucket has all 64 bits set.
pub proof fn lemma_popcount_full()
    ensures
        forall|j: u64| j < 64 ==> nth_bit(u64::MAX, j),
        popcount(u64::MAX) == 64,
{
    assert forall|j: u64| j < 64 implies nth_bit(u64::MAX, j) by {
        assert((u64::MAX >> j) & 1 == 1) by (bit_vector)
            requires
                j < 64,
        ;
    }
    lemma_count_low_bits_all_bits(u64::MAX, 64);
}

proof fn lemma_count_low_bits_all_bits(b: u64, n: int)
    requires
        0 <= n <= 64,
        forall|j: u64| j < n ==> nth_bit(b, j),
    ensures
        count_low_bits(b, n) == n,
    decreases n,
{
    if n > 0 {
        lemma_count_low_bits_all_bits(b, n - 1);
    }
}

proof fn lemma_count_low_bits_no_bits(b: u64, n: int)
    requires
        0 <= n <= 64,
        forall|j: u64| j < n ==> !nth_bit(b, j),
    ensures
        count_low_bits(b, n) == 0,
    decreases n,
{
    if n > 0 {
        lemma_count_low_bits_no_bits(b, n - 1);
    }
}

} // verus!
