//! The 16384-bit wide container: 256 little-endian 64-bit words (2 KB),
//! one slot of a `CogRecord8K`.
//!
//! A container is a point in Hamming space.  Distance is `popcount(a ^ b)`,
//! binding is XOR, and superposition is a bitwise majority vote.
use vstd::prelude::*;
use crate::bits::{bit, bit_at, popcount, hamming_range, popcount_range};
use crate::bits::{lemma_hamming_range_le, lemma_popcount_range_le};
use crate::rng::{Rng, output, state_after};
use crate::le_bytes::{le_byte, le_word, words_to_bytes, bytes_to_words, read_word_le};
use crate::container::{votes, majority_bit, lemma_votes_le, lemma_set_bit, xor_words, rotated};

verus! {

broadcast use vstd::array::group_array_axioms;

/// Number of bits in a wide container.
pub const WIDE_BITS: usize = 16384;
/// Number of 64-bit words in a wide container.
pub const WIDE_WORDS: usize = 256;
/// Number of bytes in a wide container.
pub const WIDE_BYTES: usize = 2048;

/// A 16384-bit binary vector.
#[derive(Clone, Copy, Debug, PartialEq, Eq)]
pub struct WideContainer {
    pub words: [u64; 256],
}

impl WideContainer {
    /// Hamming distance between two containers.
    pub open spec fn distance(self, other: WideContainer) -> nat {
        hamming_range(self.words@, other.words@, 0, 256)
    }

    /// Number of set bits.
    pub open spec fn ones(self) -> nat {
        popcount_range(self.words@, 0, 256)
    }

    /// The all-zero container.
    pub fn zero() -> (r: Self)
        ensures
            forall|i: int| 0 <= i < 256 ==> #[trigger] r.words@[i] == 0,
    {
        WideContainer { words: [0u64; 256] }
    }

    /// WideContainer whose words are the first 256 outputs of SplitMix64
    /// seeded with `seed` (same seed, same container).
    pub fn random(seed: u64) -> (r: Self)
        ensures
            forall|i: int| 0 <= i < 256 ==> #[trigger] r.words@[i] == output(seed, (i + 1) as nat),
    {
        let mut rng = Rng::new(seed);
        let mut c = WideContainer::zero();
        for i in 0..256usize
            invariant
                rng.0 == state_after(seed, i as nat),
                forall|j: int| 0 <= j < i ==> #[trigger] c.words@[j] == output(seed, (j + 1) as nat),
        {
            let x = rng.next_u64();
            c.words[i] = x;
        }
        c
    }

    /// Wide container read little-endian from `bytes[off..off + 2048]`.
    pub fn read_at(bytes: &[u8], off: usize) -> (r: Self)
        requires
            off + 2048 <= bytes@.len(),
        ensures
            r.words@ == bytes_to_words(bytes@.subrange(off as int, off + 2048), 256),
    {
        let mut c = WideContainer::zero();
        let blen = bytes.len();
        let ghost sub = bytes@.subrange(off as int, off + 2048);
        for i in 0..256usize
            invariant
                blen == bytes@.len(),
                off + 2048 <= bytes@.len(),
                sub == bytes@.subrange(off as int, off + 2048),
                forall|j: int| 0 <= j < i ==> #[trigger] c.words@[j] == bytes_to_words(sub, 256)[j],
        {
            c.words[i] = read_word_le(bytes, off + 8 * i);
            assert(le_word(bytes@, off + 8 * i) == le_word(sub, 8 * i));
        }
        assert(c.words@ =~= bytes_to_words(sub, 256));
        c
    }

    /// Wide container whose words are read little-endian from `bytes`.
    pub fn from_bytes(bytes: &[u8; 2048]) -> (r: Self)
        ensures
            r.words@ == bytes_to_words(bytes@, 256),
    {
        let b = bytes.as_slice();
        let mut c = WideContainer::zero();
        for i in 0..256usize
            invariant
                b@ == bytes@,
                b@.len() == 2048,
                forall|j: int| 0 <= j < i ==> #[trigger] c.words@[j] == bytes_to_words(bytes@, 256)[j],
        {
            c.words[i] = read_word_le(b, 8 * i);
        }
        assert(c.words@ =~= bytes_to_words(bytes@, 256));
        c
    }

    /// The 2048 little-endian bytes of the words.
    pub fn as_bytes(&self) -> (r: [u8; 2048])
        ensures
            r@ == words_to_bytes(self.words@),
    {
        let mut out = [0u8; 2048];
        for i in 0..256usize
            invariant
                forall|j: int| 0 <= j < 8 * i ==> #[trigger] out@[j] == words_to_bytes(self.words@)[j],
        {
            let x = self.words[i];
            let o = 8 * i;
            out[o] = (x & 0xffu64) as u8;
            out[o + 1] = ((x >> 8u64) & 0xffu64) as u8;
            out[o + 2] = ((x >> 16u64) & 0xffu64) as u8;
            out[o + 3] = ((x >> 24u64) & 0xffu64) as u8;
            out[o + 4] = ((x >> 32u64) & 0xffu64) as u8;
            out[o + 5] = ((x >> 40u64) & 0xffu64) as u8;
            out[o + 6] = ((x >> 48u64) & 0xffu64) as u8;
            out[o + 7] = ((x >> 56u64) & 0xffu64) as u8;
            assert forall|j: int| 0 <= j < 8 * (i + 1) implies #[trigger] out@[j] == words_to_bytes(self.words@)[j] by {
                if j >= 8 * i {
                    assert(j / 8 == i);
                    assert(j % 8 == j - 8 * i);
                }
            }
        }
        assert(out@ =~= words_to_bytes(self.words@));
        out
    }

    /// A wide container is at distance 0 from itself.
    pub proof fn lemma_distance_self(self)
        ensures
            self.distance(self) == 0,
    {
        crate::bits::lemma_hamming_range_self(self.words@, 0, 256);
    }

    /// Hamming distance is symmetric.
    pub proof fn lemma_distance_symmetric(self, other: WideContainer)
        ensures
            self.distance(other) == other.distance(self),
    {
        crate::bits::lemma_hamming_range_symmetric(self.words@, other.words@, 0, 256);
    }

    /// Hamming distance: number of bit positions where the containers differ.
    pub fn hamming(&self, other: &WideContainer) -> (r: u32)
        ensures
            r == self.distance(*other),
            r <= 16384,
    {
        let mut dist: u32 = 0;
        for i in 0..256usize
            invariant
                dist == hamming_range(self.words@, other.words@, 0, i as int),
                dist <= 64 * i,
        {
            proof {
                lemma_hamming_range_le(self.words@, other.words@, 0, i + 1);
            }
            dist = dist + (self.words[i] ^ other.words[i]).count_ones();
        }
        dist
    }

    /// Number of set bits.
    pub fn popcount(&self) -> (r: u32)
        ensures
            r == self.ones(),
            r <= 16384,
    {
        let mut total: u32 = 0;
        for i in 0..256usize
            invariant
                total == popcount_range(self.words@, 0, i as int),
                total <= 64 * i,
        {
            proof {
                lemma_popcount_range_le(self.words@, 0, i + 1);
            }
            total = total + self.words[i].count_ones();
        }
        total
    }

    /// Word-wise XOR (binding).
    pub fn xor(&self, other: &WideContainer) -> (r: WideContainer)
        ensures
            forall|i: int| 0 <= i < 256 ==> #[trigger] r.words@[i] == self.words@[i] ^ other.words@[i],
            r.words@ == xor_words(self.words@, other.words@),
    {
        let mut c = WideContainer::zero();
        for i in 0..256usize
            invariant
                forall|j: int| 0 <= j < i ==> #[trigger] c.words@[j] == self.words@[j] ^ other.words@[j],
        {
            c.words[i] = self.words[i] ^ other.words[i];
        }
        assert(c.words@ =~= xor_words(self.words@, other.words@));
        c
    }

    /// Circular rotation of the 16384 bits by `k` positions: input bit `i`
    /// moves to bit `(i + k) % 16384`.
    pub fn permute(&self, k: usize) -> (r: WideContainer)
        ensures
            forall|w: int, b: nat|
                0 <= w < 256 && b < 64 ==> #[trigger] bit(r.words@[w], b) == bit_at(
                    self.words@,
                    (64 * w + b + 16384 - k % 16384) % 16384,
                ),
            rotated(r.words@, self.words@, k as int, 16384),
    {
        let s = k % 16384;
        let mut r = WideContainer::zero();
        for w in 0..256usize
            invariant
                s == k % 16384,
                forall|v: int, b: nat|
                    0 <= v < w && b < 64 ==> #[trigger] bit(r.words@[v], b) == bit_at(
                        self.words@,
                        (64 * v + b + 16384 - s) % 16384,
                    ),
        {
            let mut word: u64 = 0;
            proof {
                assert forall|c: nat| c < 64 implies #[trigger] bit(0u64, c) == 0 by {
                    let t = c as u64;
                    assert((0u64 >> t) & 1u64 == 0u64) by (bit_vector);
                }
            }
            for b in 0..64u64
                invariant
                    s == k % 16384,
                    w < 256,
                    forall|c: nat| c < b ==> #[trigger] bit(word, c) == bit_at(
                        self.words@,
                        (64 * w + c + 16384 - s) % 16384,
                    ),
                    forall|c: nat| b <= c < 64 ==> #[trigger] bit(word, c) == 0,
            {
                let p = w * 64 + b as usize;
                let q = (p + 16384 - s) % 16384;
                let x = self.words[q / 64];
                let sh = (q % 64) as u64;
                let src = (x >> sh) & 1u64;
                let old_word = word;
                if src == 1u64 {
                    word = word | (1u64 << b);
                } else {
                    assert((x >> sh) & 1u64 == 0u64) by (bit_vector)
                        requires
                            (x >> sh) & 1u64 != 1u64,
                    ;
                }
                proof {
                    assert(bit_at(self.words@, q as int) == src);
                    assert forall|c: nat| c < b + 1 implies #[trigger] bit(word, c) == bit_at(
                        self.words@,
                        (64 * w + c + 16384 - s) % 16384,
                    ) by {
                        if src == 1u64 {
                            lemma_set_bit(old_word, b, c as u64);
                        }
                    }
                    assert forall|c: nat| b + 1 <= c < 64 implies #[trigger] bit(word, c) == 0 by {
                        if src == 1u64 {
                            lemma_set_bit(old_word, b, c as u64);
                        }
                    }
                }
            }
            r.words[w] = word;
        }
        r
    }

    /// Majority-vote superposition: bit `b` of word `w` is set iff more
    /// than half of `items` have it set.  An empty input gives zero.
    pub fn bundle(items: &[&WideContainer]) -> (r: WideContainer)
        ensures
            forall|w: int, b: nat|
                0 <= w < 256 && b < 64 ==> #[trigger] bit(r.words@[w], b) == majority_bit(
                    items@.map_values(|c: &WideContainer| c.words@),
                    w,
                    b,
                ),
    {
        let ghost views = items@.map_values(|c: &WideContainer| c.words@);
        let n = items.len();
        let mut r = WideContainer::zero();
        for w in 0..256usize
            invariant
                n == items.len(),
                views == items@.map_values(|c: &WideContainer| c.words@),
                forall|v: int, b: nat|
                    0 <= v < w && b < 64 ==> #[trigger] bit(r.words@[v], b) == majority_bit(views, v, b),
        {
            let mut word: u64 = 0;
            proof {
                assert forall|c: nat| c < 64 implies #[trigger] bit(0u64, c) == 0 by {
                    let s = c as u64;
                    assert((0u64 >> s) & 1u64 == 0u64) by (bit_vector);
                }
            }
            for b in 0..64u64
                invariant
                    n == items.len(),
                    views == items@.map_values(|c: &WideContainer| c.words@),
                    w < 256,
                    forall|c: nat| c < b ==> #[trigger] bit(word, c) == majority_bit(views, w as int, c),
                    forall|c: nat| b <= c < 64 ==> #[trigger] bit(word, c) == 0,
            {
                let mut count: usize = 0;
                for j in 0..n
                    invariant
                        n == items.len(),
                        views == items@.map_values(|c: &WideContainer| c.words@),
                        w < 256,
                        b < 64,
                        count == votes(views, w as int, b as nat, j as int),
                {
                    proof {
                        lemma_votes_le(views, w as int, b as nat, j as int);
                        assert(views[j as int] == items@[j as int].words@);
                    }
                    let x = items[j].words[w];
                    if (x >> b) & 1u64 == 1u64 {
                        count = count + 1;
                    } else {
                        assert((x >> b) & 1u64 == 0u64) by (bit_vector)
                            requires
                                (x >> b) & 1u64 != 1u64,
                        ;
                    }
                }
                let set = count > n / 2;
                let old_word = word;
                if set {
                    word = word | (1u64 << b);
                }
                proof {
                    assert(views.len() == n);
                    assert forall|c: nat| c < b + 1 implies #[trigger] bit(word, c) == majority_bit(
                        views,
                        w as int,
                        c,
                    ) by {
                        if set {
                            lemma_set_bit(old_word, b, c as u64);
                        }
                    }
                    assert forall|c: nat| b + 1 <= c < 64 implies #[trigger] bit(word, c) == 0 by {
                        if set {
                            lemma_set_bit(old_word, b, c as u64);
                        }
                    }
                }
            }
            r.words[w] = word;
        }
        r
    }
}

} // verus!
