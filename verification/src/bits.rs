//! Bit counting over 64-bit words and over word sequences.
//!
//! Everything the sweep engines compute reduces to `popcount(a ^ b)` summed
//! over a range of words.  This module names that quantity once, gives
//! `u64::count_ones` its documented meaning, and proves the handful of
//! facts about it that the rest of the crate relies on.
use vstd::prelude::*;

verus! {

/// Value (0 or 1) of bit `k` of `x`.
pub open spec fn bit(x: u64, k: nat) -> nat {
    ((x >> (k as u64)) & 1u64) as nat
}

/// Bit `p` of a word sequence: bit `p % 64` of word `p / 64`.
pub open spec fn bit_at(ws: Seq<u64>, p: int) -> nat {
    bit(ws[p / 64], (p % 64) as nat)
}

/// Number of set bits among the lowest `n` bits of `x`.
pub open spec fn low_bit_count(x: u64, n: nat) -> nat
    decreases n,
{
    if n == 0 {
        0
    } else {
        low_bit_count(x, (n - 1) as nat) + bit(x, (n - 1) as nat)
    }
}

/// Number of ones in the binary representation of `x`.
pub open spec fn popcount(x: u64) -> nat {
    low_bit_count(x, 64)
}

/// `u64::count_ones`: std documents it as "the number of ones in the binary
/// representation of `self`", which is `popcount` above.
pub assume_specification[ u64::count_ones ](x: u64) -> (r: u32)
    ensures
        r == popcount(x),
;

/// Sum of `popcount(a[i] ^ b[i])` for `lo <= i < hi`: the Hamming distance
/// between two word sequences restricted to the words `lo..hi`.
pub open spec fn hamming_range(a: Seq<u64>, b: Seq<u64>, lo: int, hi: int) -> nat
    decreases hi - lo,
{
    if hi <= lo {
        0
    } else {
        hamming_range(a, b, lo, hi - 1) + popcount(a[hi - 1] ^ b[hi - 1])
    }
}

/// Sum of `popcount(a[i])` for `lo <= i < hi`.
pub open spec fn popcount_range(a: Seq<u64>, lo: int, hi: int) -> nat
    decreases hi - lo,
{
    if hi <= lo {
        0
    } else {
        popcount_range(a, lo, hi - 1) + popcount(a[hi - 1])
    }
}

proof fn lemma_bit_le_one(x: u64, k: nat)
    ensures
        bit(x, k) <= 1,
{
    let s = k as u64;
    assert((x >> s) & 1u64 <= 1u64) by (bit_vector);
}

pub proof fn lemma_low_bit_count_le(x: u64, n: nat)
    ensures
        low_bit_count(x, n) <= n,
    decreases n,
{
    if n > 0 {
        lemma_low_bit_count_le(x, (n - 1) as nat);
        lemma_bit_le_one(x, (n - 1) as nat);
    }
}

/// A word has at most 64 set bits.
pub proof fn lemma_popcount_le_64(x: u64)
    ensures
        popcount(x) <= 64,
{
    lemma_low_bit_count_le(x, 64);
}

proof fn lemma_low_bit_count_zero(n: nat)
    ensures
        low_bit_count(0u64, n) == 0,
    decreases n,
{
    if n > 0 {
        lemma_low_bit_count_zero((n - 1) as nat);
        let s = (n - 1) as u64;
        assert((0u64 >> s) & 1u64 == 0u64) by (bit_vector);
    }
}

/// The zero word has no set bits.
pub proof fn lemma_popcount_zero()
    ensures
        popcount(0u64) == 0,
{
    lemma_low_bit_count_zero(64);
}

proof fn lemma_low_bit_count_not(x: u64, n: nat)
    requires
        n <= 64,
    ensures
        low_bit_count(!x, n) + low_bit_count(x, n) == n,
    decreases n,
{
    if n > 0 {
        lemma_low_bit_count_not(x, (n - 1) as nat);
        let s = (n - 1) as u64;
        assert(s < 64);
        assert(((!x) >> s) & 1u64 == 1u64 - ((x >> s) & 1u64)) by (bit_vector)
            requires
                s < 64,
        ;
        assert((x >> s) & 1u64 <= 1u64) by (bit_vector);
    }
}

/// A word and its complement together have 64 set bits.
pub proof fn lemma_popcount_not(x: u64)
    ensures
        popcount(!x) == 64 - popcount(x),
{
    lemma_low_bit_count_not(x, 64);
}

/// Every partial distance over `lo..hi` is at most 64 per word.
pub proof fn lemma_hamming_range_le(a: Seq<u64>, b: Seq<u64>, lo: int, hi: int)
    requires
        lo <= hi,
    ensures
        hamming_range(a, b, lo, hi) <= 64 * (hi - lo),
    decreases hi - lo,
{
    if hi > lo {
        lemma_hamming_range_le(a, b, lo, hi - 1);
        lemma_popcount_le_64(a[hi - 1] ^ b[hi - 1]);
    }
}

/// Popcount of a word range is at most 64 per word.
pub proof fn lemma_popcount_range_le(a: Seq<u64>, lo: int, hi: int)
    requires
        lo <= hi,
    ensures
        popcount_range(a, lo, hi) <= 64 * (hi - lo),
    decreases hi - lo,
{
    if hi > lo {
        lemma_popcount_range_le(a, lo, hi - 1);
        lemma_popcount_le_64(a[hi - 1]);
    }
}

/// Distances over adjacent word ranges add up.
pub proof fn lemma_hamming_range_split(a: Seq<u64>, b: Seq<u64>, lo: int, mid: int, hi: int)
    requires
        lo <= mid <= hi,
    ensures
        hamming_range(a, b, lo, hi) == hamming_range(a, b, lo, mid) + hamming_range(a, b, mid, hi),
    decreases hi - mid,
{
    if hi > mid {
        lemma_hamming_range_split(a, b, lo, mid, hi - 1);
    }
}

proof fn lemma_low_bit_count_triangle(x: u64, y: u64, z: u64, n: nat)
    requires
        n <= 64,
    ensures
        low_bit_count(x ^ z, n) <= low_bit_count(x ^ y, n) + low_bit_count(y ^ z, n),
    decreases n,
{
    if n > 0 {
        lemma_low_bit_count_triangle(x, y, z, (n - 1) as nat);
        let k = (n - 1) as u64;
        assert((((x ^ z) >> k) & 1u64) <= (((x ^ y) >> k) & 1u64) + (((y ^ z) >> k) & 1u64))
            by (bit_vector)
            requires
                k < 64,
        ;
    }
}

/// Triangle inequality: `a` and `c` differ in no more bits of `lo..hi`
/// than `a` and `b` plus `b` and `c`.
pub proof fn lemma_hamming_range_triangle(a: Seq<u64>, b: Seq<u64>, c: Seq<u64>, lo: int, hi: int)
    ensures
        hamming_range(a, c, lo, hi) <= hamming_range(a, b, lo, hi) + hamming_range(b, c, lo, hi),
    decreases hi - lo,
{
    if hi > lo {
        lemma_hamming_range_triangle(a, b, c, lo, hi - 1);
        lemma_low_bit_count_triangle(a[hi - 1], b[hi - 1], c[hi - 1], 64);
    }
}

/// The distance over a range only depends on the words inside the range.
pub proof fn lemma_hamming_range_ext(a: Seq<u64>, b: Seq<u64>, c: Seq<u64>, d: Seq<u64>, lo: int, hi: int)
    requires
        forall|i: int| lo <= i < hi ==> #[trigger] a[i] == c[i] && b[i] == d[i],
    ensures
        hamming_range(a, b, lo, hi) == hamming_range(c, d, lo, hi),
    decreases hi - lo,
{
    if hi > lo {
        lemma_hamming_range_ext(a, b, c, d, lo, hi - 1);
        assert(a[hi - 1] == c[hi - 1]);
    }
}

/// The distance of a sequence to itself is zero.
pub proof fn lemma_hamming_range_self(a: Seq<u64>, lo: int, hi: int)
    ensures
        hamming_range(a, a, lo, hi) == 0,
    decreases hi - lo,
{
    if hi > lo {
        lemma_hamming_range_self(a, lo, hi - 1);
        let x = a[hi - 1];
        assert(x ^ x == 0u64) by (bit_vector);
        lemma_popcount_zero();
    }
}

/// The distance is symmetric.
pub proof fn lemma_hamming_range_symmetric(a: Seq<u64>, b: Seq<u64>, lo: int, hi: int)
    ensures
        hamming_range(a, b, lo, hi) == hamming_range(b, a, lo, hi),
    decreases hi - lo,
{
    if hi > lo {
        lemma_hamming_range_symmetric(a, b, lo, hi - 1);
        let x = a[hi - 1];
        let y = b[hi - 1];
        assert(x ^ y == y ^ x) by (bit_vector);
    }
}

/// A sequence and its word-wise complement differ in every bit.
pub proof fn lemma_hamming_range_complement(a: Seq<u64>, b: Seq<u64>, lo: int, hi: int)
    requires
        lo <= hi,
        forall|i: int| lo <= i < hi ==> #[trigger] b[i] == !a[i],
    ensures
        hamming_range(a, b, lo, hi) == 64 * (hi - lo),
    decreases hi - lo,
{
    if hi > lo {
        lemma_hamming_range_complement(a, b, lo, hi - 1);
        let x = a[hi - 1];
        assert(b[hi - 1] == !x);
        assert(x ^ !x == !0u64) by (bit_vector);
        lemma_popcount_not(0u64);
        lemma_popcount_zero();
    }
}

/// XOR of two bits.
pub open spec fn xor_bit(a: nat, b: nat) -> nat {
    if a == b {
        0
    } else {
        1
    }
}

/// Bit `c` of `x ^ y` is the XOR of the bits.
pub proof fn lemma_bit_xor(x: u64, y: u64, c: nat)
    requires
        c < 64,
    ensures
        bit(x ^ y, c) == xor_bit(bit(x, c), bit(y, c)),
        bit(x, c) <= 1,
{
    let s = c as u64;
    assert(((x ^ y) >> s) & 1u64 == if (x >> s) & 1u64 == (y >> s) & 1u64 { 0u64 } else { 1u64 })
        by (bit_vector);
    assert((x >> s) & 1u64 <= 1u64) by (bit_vector);
}

} // verus!
