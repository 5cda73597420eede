//! The 8192-bit binary container: 128 little-endian 64-bit words.
//!
//! A container is a point in Hamming space.  Distance is `popcount(a ^ b)`,
//! binding is XOR, and superposition is a bitwise majority vote.
use vstd::prelude::*;
use crate::bits::{bit, bit_at, popcount, hamming_range, popcount_range};
use crate::bits::{lemma_hamming_range_le, lemma_popcount_range_le};
use crate::rng::{Rng, output, state_after};
use crate::le_bytes::{le_word, bytes_to_words, read_word_le};

verus! {

broadcast use vstd::array::group_array_axioms;

/// Number of bits in a container.
pub const CONTAINER_BITS: usize = 8192;
/// Number of 64-bit words in a container.
pub const CONTAINER_WORDS: usize = 128;
/// Number of bytes in a container.
pub const CONTAINER_BYTES: usize = 1024;

/// An 8192-bit binary vector.
#[derive(Clone, Copy, Debug, PartialEq, Eq)]
pub struct Container {
    pub words: [u64; 128],
}

/// Number of sequences among `items[0..k]` whose word `w` has bit `b` set.
pub open spec fn votes(items: Seq<Seq<u64>>, w: int, b: nat, k: int) -> nat
    decreases k,
{
    if k <= 0 {
        0
    } else {
        votes(items, w, b, k - 1) + bit(items[k - 1][w], b)
    }
}

/// Word-wise XOR of two word sequences.
pub open spec fn xor_words(a: Seq<u64>, b: Seq<u64>) -> Seq<u64> {
    Seq::new(a.len(), |i: int| a[i] ^ b[i])
}

/// Unbinding recovers the bound operand: `(a ^ b) ^ b == a`.
pub proof fn lemma_xor_unbind(a: Seq<u64>, b: Seq<u64>)
    requires
        a.len() == b.len(),
    ensures
        xor_words(xor_words(a, b), b) == a,
{
    assert forall|i: int| 0 <= i < a.len() implies #[trigger] xor_words(xor_words(a, b), b)[i] == a[i] by {
        let x = a[i];
        let y = b[i];
        assert((x ^ y) ^ y == x) by (bit_vector);
    }
    assert(xor_words(xor_words(a, b), b) =~= a);
}

/// Binding is commutative: `a ^ b == b ^ a`.
pub proof fn lemma_xor_commutative(a: Seq<u64>, b: Seq<u64>)
    requires
        a.len() == b.len(),
    ensures
        xor_words(a, b) == xor_words(b, a),
{
    assert forall|i: int| 0 <= i < a.len() implies #[trigger] xor_words(a, b)[i] == xor_words(b, a)[i] by {
        let x = a[i];
        let y = b[i];
        assert(x ^ y == y ^ x) by (bit_vector);
    }
    assert(xor_words(a, b) =~= xor_words(b, a));
}

/// Bundling copies of one word sequence gives that sequence back: every
/// bit of the majority equals the bit of the copy.
pub proof fn lemma_bundle_of_copies(items: Seq<Seq<u64>>, a: Seq<u64>, w: int, b: nat)
    requires
        items.len() >= 1,
        forall|j: int| 0 <= j < items.len() ==> #[trigger] items[j] == a,
        b < 64,
    ensures
        majority_bit(items, w, b) == bit(a[w], b),
{
    let n = items.len() as int;
    lemma_votes_of_copies(items, a, w, b, n);
    let x = a[w];
    let s = b as u64;
    assert((x >> s) & 1u64 <= 1u64) by (bit_vector);
    let v = bit(a[w], b);
    assert(v == 0 || v == 1);
    if v == 1 {
        assert(n * v == n) by (nonlinear_arith) requires v == 1;
    } else {
        assert(n * v == 0) by (nonlinear_arith) requires v == 0;
    }
}

proof fn lemma_votes_of_copies(items: Seq<Seq<u64>>, a: Seq<u64>, w: int, b: nat, k: int)
    requires
        0 <= k <= items.len(),
        forall|j: int| 0 <= j < items.len() ==> #[trigger] items[j] == a,
    ensures
        votes(items, w, b, k) == k * bit(a[w], b),
    decreases k,
{
    let x = bit(a[w], b);
    if k > 0 {
        lemma_votes_of_copies(items, a, w, b, k - 1);
        assert(items[k - 1] == a);
        assert(votes(items, w, b, k) == votes(items, w, b, k - 1) + x);
        assert((k - 1) * x + x == k * x) by (nonlinear_arith);
    } else {
        assert(0 * x == 0) by (nonlinear_arith);
    }
}

/// Majority-vote word: bit `b` is set iff more than half of `items` have it set.
pub open spec fn majority_bit(items: Seq<Seq<u64>>, w: int, b: nat) -> nat {
    if 2 * votes(items, w, b, items.len() as int) > items.len() {
        1
    } else {
        0
    }
}

pub proof fn lemma_votes_le(items: Seq<Seq<u64>>, w: int, b: nat, k: int)
    requires
        0 <= k,
    ensures
        votes(items, w, b, k) <= k,
    decreases k,
{
    if k > 0 {
        lemma_votes_le(items, w, b, k - 1);
        let x = items[k - 1][w];
        let s = b as u64;
        assert((x >> s) & 1u64 <= 1u64) by (bit_vector);
    }
}

/// Votes over the first `k` items depend only on those items.
pub proof fn lemma_votes_prefix(a: Seq<Seq<u64>>, c: Seq<Seq<u64>>, w: int, b: nat, k: int)
    requires
        0 <= k <= a.len(),
        k <= c.len(),
        forall|i: int| 0 <= i < k ==> #[trigger] a[i] == c[i],
    ensures
        votes(a, w, b, k) == votes(c, w, b, k),
    decreases k,
{
    if k > 0 {
        lemma_votes_prefix(a, c, w, b, k - 1);
        assert(a[k - 1] == c[k - 1]);
    }
}

/// Removing item `j` removes exactly its vote.
pub proof fn lemma_votes_remove(items: Seq<Seq<u64>>, w: int, b: nat, j: int)
    requires
        0 <= j < items.len(),
    ensures
        votes(items, w, b, items.len() as int) == votes(items.remove(j), w, b, items.len() - 1) + bit(
            items[j][w],
            b,
        ),
    decreases items.len(),
{
    let n = items.len() as int;
    let r = items.remove(j);
    if j == n - 1 {
        lemma_votes_prefix(items, r, w, b, n - 1);
    } else {
        let d = items.drop_last();
        lemma_votes_prefix(items, d, w, b, n - 1);
        lemma_votes_remove(d, w, b, j);
        lemma_votes_prefix(d.remove(j), r, w, b, n - 2);
        assert(r[n - 2] == items[n - 1]);
    }
}

/// The votes of a sequence of items do not depend on their order: two
/// sequences with the same elements give the same count for every bit.
pub proof fn lemma_votes_permutation<T>(a: Seq<T>, c: Seq<T>, f: spec_fn(T) -> Seq<u64>, w: int, b: nat)
    requires
        a.to_multiset() == c.to_multiset(),
    ensures
        a.len() == c.len(),
        votes(a.map_values(f), w, b, a.len() as int) == votes(c.map_values(f), w, b, c.len() as int),
    decreases a.len(),
{
    a.to_multiset_ensures();
    c.to_multiset_ensures();
    if a.len() > 0 {
        let n = a.len() as int;
        let x = a[n - 1];
        assert(a.contains(x));
        assert(a.to_multiset().count(x) > 0);
        assert(c.to_multiset().count(x) > 0);
        assert(c.contains(x));
        let j = choose|j: int| 0 <= j < c.len() && c[j] == x;
        let a1 = a.drop_last();
        let c1 = c.remove(j);
        assert(a1.push(x) =~= a);
        a1.to_multiset_ensures();
        assert(a1.to_multiset() =~= a.to_multiset().remove(x));
        assert(c1.to_multiset() =~= c.to_multiset().remove(x));
        lemma_votes_permutation(a1, c1, f, w, b);
        lemma_votes_prefix(a.map_values(f), a1.map_values(f), w, b, n - 1);
        lemma_votes_remove(c.map_values(f), w, b, j);
        assert(c.map_values(f).remove(j) =~= c1.map_values(f));
        lemma_votes_prefix(c.map_values(f).remove(j), c1.map_values(f), w, b, n - 1);
    }
}

/// `r` is `c` rotated by `k` positions in an `n`-bit space: bit `p` of
/// `r` is bit `(p - k) mod n` of `c`.
pub open spec fn rotated(r: Seq<u64>, c: Seq<u64>, k: int, n: int) -> bool {
    forall|w: int, b: nat|
        0 <= w < n / 64 && b < 64 ==> #[trigger] bit(r[w], b) == bit_at(c, (64 * w + b + n - k % n) % n)
}

proof fn lemma_rotation_index(p: int, s: int, n: int)
    requires
        0 <= p < n,
        0 <= s < n,
        n == 8192 || n == 16384,
    ensures
        (p + n - (n - s) % n) % n == (p + s) % n,
        0 <= (p + s) % n < n,
        ((p + s) % n + n - s) % n == p,
{
    if s == 0 {
        assert((n - s) % n == 0);
        assert((p + n) % n == p);
        assert((p + s) % n == p);
    } else {
        assert((n - s) % n == n - s);
        if p + s < n {
            assert((p + s) % n == p + s);
            assert((p + n - (n - s)) % n == p + s);
            assert((p + s + n - s) % n == p);
        } else {
            assert((p + s) % n == p + s - n);
            assert((p + n - (n - s)) % n == p + s - n);
            assert((p + s - n + n - s) % n == p);
        }
    }
}

proof fn lemma_word_split(p: int, n: int)
    requires
        0 <= p < n,
        n == 8192 || n == 16384,
    ensures
        64 * (p / 64) + p % 64 == p,
        0 <= p / 64 < n / 64,
        0 <= p % 64 < 64,
{
}

/// Rotating by `k` and then by `n - k mod n` restores every bit.
#[verifier::spinoff_prover]
pub proof fn lemma_rotation_roundtrip(c: Seq<u64>, r1: Seq<u64>, r2: Seq<u64>, k: int, n: int)
    requires
        0 <= k,
        n == 8192 || n == 16384,
        rotated(r1, c, k, n),
        rotated(r2, r1, n - k % n, n),
    ensures
        forall|p: int| 0 <= p < n ==> #[trigger] bit_at(r2, p) == bit_at(c, p),
{
    assert forall|p: int| 0 <= p < n implies #[trigger] bit_at(r2, p) == bit_at(c, p) by {
        let s = k % n;
        lemma_rotation_index(p, s, n);
        lemma_word_split(p, n);
        let w = p / 64;
        let b = (p % 64) as nat;
        let q = (p + s) % n;
        assert(bit(r2[w], b) == bit_at(r1, (64 * w + b + n - (n - k % n) % n) % n));
        lemma_word_split(q, n);
        let w2 = q / 64;
        let b2 = (q % 64) as nat;
        assert(bit(r1[w2], b2) == bit_at(c, (64 * w2 + b2 + n - k % n) % n));
    }
}

/// Setting bit `b` of `word` changes only bit `b`.
pub proof fn lemma_set_bit(word: u64, b: u64, c: u64)
    requires
        b < 64,
        c < 64,
    ensures
        bit(word | (1u64 << b), c as nat) == if c == b { 1 } else { bit(word, c as nat) },
{
    assert(((word | (1u64 << b)) >> c) & 1u64 == if c == b { 1u64 } else { (word >> c) & 1u64 })
        by (bit_vector)
        requires
            b < 64,
            c < 64,
    ;
}

impl Container {
    /// Hamming distance between two containers.
    pub open spec fn distance(self, other: Container) -> nat {
        hamming_range(self.words@, other.words@, 0, 128)
    }

    /// Number of set bits.
    pub open spec fn ones(self) -> nat {
        popcount_range(self.words@, 0, 128)
    }

    /// The all-zero container.
    pub fn zero() -> (r: Self)
        ensures
            forall|i: int| 0 <= i < 128 ==> #[trigger] r.words@[i] == 0,
    {
        Container { words: [0u64; 128] }
    }

    /// Container whose words are the first 128 outputs of SplitMix64
    /// seeded with `seed` (same seed, same container).
    pub fn random(seed: u64) -> (r: Self)
        ensures
            forall|i: int| 0 <= i < 128 ==> #[trigger] r.words@[i] == output(seed, (i + 1) as nat),
    {
        let mut rng = Rng::new(seed);
        let mut c = Container::zero();
        for i in 0..128usize
            invariant
                rng.0 == state_after(seed, i as nat),
                forall|j: int| 0 <= j < i ==> #[trigger] c.words@[j] == output(seed, (j + 1) as nat),
        {
            let x = rng.next_u64();
            c.words[i] = x;
        }
        c
    }

    /// Container read little-endian from `bytes[off..off + 1024]`.
    pub fn read_at(bytes: &[u8], off: usize) -> (r: Self)
        requires
            off + 1024 <= bytes@.len(),
        ensures
            r.words@ == bytes_to_words(bytes@.subrange(off as int, off + 1024), 128),
    {
        let mut c = Container::zero();
        let blen = bytes.len();
        let ghost sub = bytes@.subrange(off as int, off + 1024);
        for i in 0..128usize
            invariant
                blen == bytes@.len(),
                off + 1024 <= bytes@.len(),
                sub == bytes@.subrange(off as int, off + 1024),
                forall|j: int| 0 <= j < i ==> #[trigger] c.words@[j] == bytes_to_words(sub, 128)[j],
        {
            c.words[i] = read_word_le(bytes, off + 8 * i);
            assert(le_word(bytes@, off + 8 * i) == le_word(sub, 8 * i));
        }
        assert(c.words@ =~= bytes_to_words(sub, 128));
        c
    }

    /// A container is at distance 0 from itself.
    pub proof fn lemma_distance_self(self)
        ensures
            self.distance(self) == 0,
    {
        crate::bits::lemma_hamming_range_self(self.words@, 0, 128);
    }

    /// Hamming distance is symmetric.
    pub proof fn lemma_distance_symmetric(self, other: Container)
        ensures
            self.distance(other) == other.distance(self),
    {
        crate::bits::lemma_hamming_range_symmetric(self.words@, other.words@, 0, 128);
    }

    /// Hamming distance: number of bit positions where the containers differ.
    pub fn hamming(&self, other: &Container) -> (r: u32)
        ensures
            r == self.distance(*other),
            r <= 8192,
    {
        let mut dist: u32 = 0;
        for i in 0..128usize
            invariant
                dist == hamming_range(self.words@, other.words@, 0, i as int),
                dist <= 64 * i,
        {
            proof {
                lemma_hamming_range_le(self.words@, other.words@, 0, i + 1);
            }
            dist = dist + (self.words[i] ^ other.words[i]).count_ones();
        }
        dist
    }

    /// Number of set bits.
    pub fn popcount(&self) -> (r: u32)
        ensures
            r == self.ones(),
            r <= 8192,
    {
        let mut total: u32 = 0;
        for i in 0..128usize
            invariant
                total == popcount_range(self.words@, 0, i as int),
                total <= 64 * i,
        {
            proof {
                lemma_popcount_range_le(self.words@, 0, i + 1);
            }
            total = total + self.words[i].count_ones();
        }
        total
    }

    /// Word-wise XOR (binding).
    pub fn xor(&self, other: &Container) -> (r: Container)
        ensures
            forall|i: int| 0 <= i < 128 ==> #[trigger] r.words@[i] == self.words@[i] ^ other.words@[i],
            r.words@ == xor_words(self.words@, other.words@),
    {
        let mut c = Container::zero();
        for i in 0..128usize
            invariant
                forall|j: int| 0 <= j < i ==> #[trigger] c.words@[j] == self.words@[j] ^ other.words@[j],
        {
            c.words[i] = self.words[i] ^ other.words[i];
        }
        assert(c.words@ =~= xor_words(self.words@, other.words@));
        c
    }

    /// Circular rotation of the 8192 bits by `k` positions: input bit `i`
    /// moves to bit `(i + k) % 8192`.
    pub fn permute(&self, k: usize) -> (r: Container)
        ensures
            forall|w: int, b: nat|
                0 <= w < 128 && b < 64 ==> #[trigger] bit(r.words@[w], b) == bit_at(
                    self.words@,
                    (64 * w + b + 8192 - k % 8192) % 8192,
                ),
            rotated(r.words@, self.words@, k as int, 8192),
    {
        let s = k % 8192;
        let mut r = Container::zero();
        for w in 0..128usize
            invariant
                s == k % 8192,
                forall|v: int, b: nat|
                    0 <= v < w && b < 64 ==> #[trigger] bit(r.words@[v], b) == bit_at(
                        self.words@,
                        (64 * v + b + 8192 - s) % 8192,
                    ),
        {
            let mut word: u64 = 0;
            proof {
                assert forall|c: nat| c < 64 implies #[trigger] bit(0u64, c) == 0 by {
                    let t = c as u64;
                    assert((0u64 >> t) & 1u64 == 0u64) by (bit_vector);
                }
            }
            for b in 0..64u64
                invariant
                    s == k % 8192,
                    w < 128,
                    forall|c: nat| c < b ==> #[trigger] bit(word, c) == bit_at(
                        self.words@,
                        (64 * w + c + 8192 - s) % 8192,
                    ),
                    forall|c: nat| b <= c < 64 ==> #[trigger] bit(word, c) == 0,
            {
                let p = w * 64 + b as usize;
                let q = (p + 8192 - s) % 8192;
                let x = self.words[q / 64];
                let sh = (q % 64) as u64;
                let src = (x >> sh) & 1u64;
                let old_word = word;
                if src == 1u64 {
                    word = word | (1u64 << b);
                } else {
                    assert((x >> sh) & 1u64 == 0u64) by (bit_vector)
                        requires
                            (x >> sh) & 1u64 != 1u64,
                    ;
                }
                proof {
                    assert(bit_at(self.words@, q as int) == src);
                    assert forall|c: nat| c < b + 1 implies #[trigger] bit(word, c) == bit_at(
                        self.words@,
                        (64 * w + c + 8192 - s) % 8192,
                    ) by {
                        if src == 1u64 {
                            lemma_set_bit(old_word, b, c as u64);
                        }
                    }
                    assert forall|c: nat| b + 1 <= c < 64 implies #[trigger] bit(word, c) == 0 by {
                        if src == 1u64 {
                            lemma_set_bit(old_word, b, c as u64);
                        }
                    }
                }
            }
            r.words[w] = word;
        }
        r
    }

    /// Majority-vote superposition: bit `b` of word `w` is set iff more
    /// than half of `items` have it set.  An empty input gives zero.
    pub fn bundle(items: &[&Container]) -> (r: Container)
        ensures
            forall|w: int, b: nat|
                0 <= w < 128 && b < 64 ==> #[trigger] bit(r.words@[w], b) == majority_bit(
                    items@.map_values(|c: &Container| c.words@),
                    w,
                    b,
                ),
    {
        let ghost views = items@.map_values(|c: &Container| c.words@);
        let n = items.len();
        let mut r = Container::zero();
        for w in 0..128usize
            invariant
                n == items.len(),
                views == items@.map_values(|c: &Container| c.words@),
                forall|v: int, b: nat|
                    0 <= v < w && b < 64 ==> #[trigger] bit(r.words@[v], b) == majority_bit(views, v, b),
        {
            let mut word: u64 = 0;
            proof {
                assert forall|c: nat| c < 64 implies #[trigger] bit(0u64, c) == 0 by {
                    let s = c as u64;
                    assert((0u64 >> s) & 1u64 == 0u64) by (bit_vector);
                }
            }
            for b in 0..64u64
                invariant
                    n == items.len(),
                    views == items@.map_values(|c: &Container| c.words@),
                    w < 128,
                    forall|c: nat| c < b ==> #[trigger] bit(word, c) == majority_bit(views, w as int, c),
                    forall|c: nat| b <= c < 64 ==> #[trigger] bit(word, c) == 0,
            {
                let mut count: usize = 0;
                for j in 0..n
                    invariant
                        n == items.len(),
                        views == items@.map_values(|c: &Container| c.words@),
                        w < 128,
                        b < 64,
                        count == votes(views, w as int, b as nat, j as int),
                {
                    proof {
                        lemma_votes_le(views, w as int, b as nat, j as int);
                        assert(views[j as int] == items@[j as int].words@);
                    }
                    let x = items[j].words[w];
                    if (x >> b) & 1u64 == 1u64 {
                        count = count + 1;
                    } else {
                        assert((x >> b) & 1u64 == 0u64) by (bit_vector)
                            requires
                                (x >> b) & 1u64 != 1u64,
                        ;
                    }
                }
                let set = count > n / 2;
                let old_word = word;
                if set {
                    word = word | (1u64 << b);
                }
                proof {
                    assert(views.len() == n);
                    assert forall|c: nat| c < b + 1 implies #[trigger] bit(word, c) == majority_bit(
                        views,
                        w as int,
                        c,
                    ) by {
                        if set {
                            lemma_set_bit(old_word, b, c as u64);
                        }
                    }
                    assert forall|c: nat| b + 1 <= c < 64 implies #[trigger] bit(word, c) == 0 by {
                        if set {
                            lemma_set_bit(old_word, b, c as u64);
                        }
                    }
                }
            }
            r.words[w] = word;
        }
        r
    }
}

} // verus!
