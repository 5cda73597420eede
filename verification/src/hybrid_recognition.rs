//! Jina 1024-D embeddings as BF16 bytes, read as binary fingerprints.
//!
//! A Jina embedding quantized to BF16 is 1024 dims x 2 bytes = 2048 bytes,
//! which is also a 16384-bit binary fingerprint and a wide container (the
//! CAM slot of a `CogRecord8K`).  The same 2048 bytes serve all three
//! interpretations: Hamming distance on the raw BF16 bytes is the Hamming
//! distance of the wide containers they spell.
use vstd::prelude::*;
use crate::bits::{bit, popcount, low_bit_count, hamming_range, lemma_hamming_range_le, lemma_hamming_range_self,
    lemma_hamming_range_symmetric, lemma_hamming_range_triangle};
use crate::le_bytes::{le_word, words_to_bytes, bytes_to_words, read_word_le, push_words_le,
    lemma_words_bytes_words, lemma_bytes_words_bytes};
use crate::wide_container::WideContainer;
use crate::cogrecord8k::CogRecord8K;

verus! {

/// Bytes of one packed database entry (a 16384-bit fingerprint).
pub const SKU_16K_BYTES: usize = 2048;

/// A Jina 1024-D embedding stored as BF16 bytes
/// (1024 dims x 2 bytes = 2048 bytes = 16384 bits).
#[derive(Clone, Debug)]
pub struct JinaEmbedding {
    pub bf16_bytes: Vec<u8>,
}

/// Number of whole 8-byte words shared by two byte strings.
pub open spec fn shared_words(a: Seq<u8>, b: Seq<u8>) -> nat {
    if a.len() / 8 < b.len() / 8 {
        a.len() / 8
    } else {
        b.len() / 8
    }
}

/// Hamming distance of two byte strings read as little-endian words, over
/// the whole words they share.
pub open spec fn byte_hamming(a: Seq<u8>, b: Seq<u8>) -> nat {
    let n = shared_words(a, b);
    hamming_range(bytes_to_words(a, n), bytes_to_words(b, n), 0, n as int)
}

/// Concatenated BF16 bytes of the first `k` embeddings.
pub open spec fn packed_bytes(embs: Seq<JinaEmbedding>, k: int) -> Seq<u8>
    decreases k,
{
    if k <= 0 {
        Seq::empty()
    } else {
        packed_bytes(embs, k - 1) + embs[k - 1].bf16_bytes@
    }
}

impl JinaEmbedding {
    /// Embedding from raw BF16 bytes (exactly 2048 of them).
    pub fn from_bf16_bytes(bytes: Vec<u8>) -> (r: Self)
        requires
            bytes@.len() == 2048,
        ensures
            r.bf16_bytes@ == bytes@,
    {
        Self { bf16_bytes: bytes }
    }

    /// The wide container spelled by the 2048 bytes.
    pub fn to_wide_container(&self) -> (r: WideContainer)
        requires
            self.bf16_bytes@.len() == 2048,
        ensures
            r.words@ == bytes_to_words(self.bf16_bytes@, 256),
    {
        let r = WideContainer::read_at(self.bf16_bytes.as_slice(), 0);
        assert(self.bf16_bytes@.subrange(0, 2048) =~= self.bf16_bytes@);
        r
    }

    /// Embedding whose bytes are the little-endian bytes of `wc`.
    pub fn from_wide_container(wc: &WideContainer) -> (r: Self)
        ensures
            r.bf16_bytes@ == words_to_bytes(wc.words@),
            r.bf16_bytes@.len() == 2048,
    {
        let mut bytes: Vec<u8> = Vec::with_capacity(2048);
        push_words_le(&mut bytes, wc.words.as_slice());
        assert(bytes@ =~= words_to_bytes(wc.words@));
        Self { bf16_bytes: bytes }
    }

    /// Binary Hamming distance, reading the BF16 bytes as a raw bit string
    /// in little-endian 64-bit words (trailing partial words are ignored).
    pub fn hamming_distance(&self, other: &JinaEmbedding) -> (r: u32)
        requires
            64 * shared_words(self.bf16_bytes@, other.bf16_bytes@) <= u32::MAX,
        ensures
            r == byte_hamming(self.bf16_bytes@, other.bf16_bytes@),
    {
        let a = self.bf16_bytes.as_slice();
        let b = other.bf16_bytes.as_slice();
        let na = a.len() / 8;
        let nb = b.len() / 8;
        let n = if na < nb { na } else { nb };
        let ghost wa = bytes_to_words(a@, n as nat);
        let ghost wb = bytes_to_words(b@, n as nat);
        let mut dist: u32 = 0;
        for i in 0..n
            invariant
                n == shared_words(a@, b@),
                8 * n <= a@.len(),
                8 * n <= b@.len(),
                64 * n <= u32::MAX,
                wa == bytes_to_words(a@, n as nat),
                wb == bytes_to_words(b@, n as nat),
                dist == hamming_range(wa, wb, 0, i as int),
                dist <= 64 * i,
        {
            proof {
                lemma_hamming_range_le(wa, wb, 0, i + 1);
            }
            let x = read_word_le(a, 8 * i);
            let y = read_word_le(b, 8 * i);
            dist = dist + (x ^ y).count_ones();
        }
        dist
    }
}

/// Store `embedding` into the record's CAM container (slot 1), leaving the
/// other slots unchanged.
pub fn embed_into_cam(record: &mut CogRecord8K, embedding: &JinaEmbedding)
    requires
        embedding.bf16_bytes@.len() == 2048,
    ensures
        final(record).cam.words@ == bytes_to_words(embedding.bf16_bytes@, 256),
        final(record).meta == old(record).meta,
        final(record).index == old(record).index,
        final(record).embed == old(record).embed,
{
    record.cam = embedding.to_wide_container();
}

/// Store `embedding` into the record's EMBED container (slot 3), leaving the
/// other slots unchanged.
pub fn embed_into_embed(record: &mut CogRecord8K, embedding: &JinaEmbedding)
    requires
        embedding.bf16_bytes@.len() == 2048,
    ensures
        final(record).embed.words@ == bytes_to_words(embedding.bf16_bytes@, 256),
        final(record).meta == old(record).meta,
        final(record).cam == old(record).cam,
        final(record).index == old(record).index,
{
    record.embed = embedding.to_wide_container();
}

/// The embedding held in the record's CAM container.
pub fn extract_from_cam(record: &CogRecord8K) -> (r: JinaEmbedding)
    ensures
        r.bf16_bytes@ == words_to_bytes(record.cam.words@),
{
    JinaEmbedding::from_wide_container(&record.cam)
}

/// Pack embeddings into one flat byte buffer, entry after entry.
pub fn pack_database(embeddings: &[JinaEmbedding]) -> (r: Vec<u8>)
    ensures
        r@ == packed_bytes(embeddings@, embeddings@.len() as int),
{
    let mut bytes: Vec<u8> = Vec::new();
    for i in 0..embeddings.len()
        invariant
            bytes@ == packed_bytes(embeddings@, i as int),
    {
        let ghost before = bytes@;
        bytes.extend_from_slice(embeddings[i].bf16_bytes.as_slice());
        assert(bytes@ =~= before + embeddings@[i as int].bf16_bytes@);
    }
    bytes
}

/// A 2048-byte embedding survives the trip through a wide container.
pub proof fn lemma_wide_roundtrip(bytes: Seq<u8>)
    requires
        bytes.len() == 2048,
    ensures
        words_to_bytes(bytes_to_words(bytes, 256)) == bytes,
{
    lemma_bytes_words_bytes(bytes, 256);
}

/// Storing an embedding in the CAM slot and extracting it gives the same
/// bytes back.
pub proof fn lemma_cam_roundtrip(bytes: Seq<u8>, cam: WideContainer)
    requires
        bytes.len() == 2048,
        cam.words@ == bytes_to_words(bytes, 256),
    ensures
        words_to_bytes(cam.words@) == bytes,
{
    lemma_bytes_words_bytes(bytes, 256);
}

/// The byte-level Hamming distance of two 2048-byte embeddings is the
/// Hamming distance of their wide containers.
pub proof fn lemma_bytes_and_wide_distance_agree(a: Seq<u8>, b: Seq<u8>, wa: WideContainer, wb: WideContainer)
    requires
        a.len() == 2048,
        b.len() == 2048,
        wa.words@ == bytes_to_words(a, 256),
        wb.words@ == bytes_to_words(b, 256),
    ensures
        byte_hamming(a, b) == wa.distance(wb),
{
}

/// Byte-level Hamming distance is zero on equal embeddings, symmetric, at
/// most 64 bits per shared word (16384 for two 2048-byte embeddings), and
/// obeys the triangle inequality among embeddings of one length.
pub proof fn lemma_byte_hamming_metric(a: Seq<u8>, b: Seq<u8>, c: Seq<u8>)
    ensures
        byte_hamming(a, a) == 0,
        byte_hamming(a, b) == byte_hamming(b, a),
        byte_hamming(a, b) <= 64 * shared_words(a, b),
        a.len() == 2048 && b.len() == 2048 ==> byte_hamming(a, b) <= 16384,
        a.len() == b.len() && b.len() == c.len() ==> byte_hamming(a, c) <= byte_hamming(a, b) + byte_hamming(
            b,
            c,
        ),
{
    lemma_hamming_range_le(
        bytes_to_words(a, shared_words(a, b)),
        bytes_to_words(b, shared_words(a, b)),
        0,
        shared_words(a, b) as int,
    );
    if a.len() == b.len() && b.len() == c.len() {
        let m = shared_words(a, c);
        assert(shared_words(a, b) == m && shared_words(b, c) == m);
        lemma_hamming_range_triangle(bytes_to_words(a, m), bytes_to_words(b, m), bytes_to_words(c, m), 0, m as int);
    }
    let na = shared_words(a, a);
    lemma_hamming_range_self(bytes_to_words(a, na), 0, na as int);
    let n = shared_words(a, b);
    assert(shared_words(b, a) == n);
    lemma_hamming_range_symmetric(bytes_to_words(a, n), bytes_to_words(b, n), 0, n as int);
}

/// Number of set bits of a byte.
pub open spec fn byte_popcount(x: u8) -> nat {
    low_bit_count(x as u64, 8)
}

/// Sum of `byte_popcount(a[j] ^ b[j])` over the first `i` bytes: the
/// per-byte Hamming distance.
pub open spec fn byte_distance(a: Seq<u8>, b: Seq<u8>, i: int) -> nat
    decreases i,
{
    if i <= 0 {
        0
    } else {
        byte_distance(a, b, i - 1) + byte_popcount(a[i - 1] ^ b[i - 1])
    }
}

proof fn lemma_low_bits_shift(x: u64, t: u64, s: nat)
    requires
        t < 8,
        s <= 8,
    ensures
        low_bit_count(x, (8 * t + s) as nat) == low_bit_count(x, (8 * t) as nat) + low_bit_count(
            (x >> (8 * t)) & 0xffu64,
            s,
        ),
    decreases s,
{
    if s > 0 {
        lemma_low_bits_shift(x, t, (s - 1) as nat);
        let u = (s - 1) as u64;
        assert((x >> (8 * t + u)) & 1u64 == (((x >> (8 * t)) & 0xffu64) >> u) & 1u64) by (bit_vector)
            requires
                t < 8,
                u < 8,
        ;
        assert(bit(x, (8 * t + s - 1) as nat) == bit((x >> (8 * t)) & 0xffu64, (s - 1) as nat));
    }
}

/// The popcount of a word is the sum of the popcounts of its eight bytes.
proof fn lemma_popcount_bytes(x: u64)
    ensures
        popcount(x) == low_bit_count(x & 0xffu64, 8) + low_bit_count((x >> 8u64) & 0xffu64, 8)
            + low_bit_count((x >> 16u64) & 0xffu64, 8) + low_bit_count((x >> 24u64) & 0xffu64, 8)
            + low_bit_count((x >> 32u64) & 0xffu64, 8) + low_bit_count((x >> 40u64) & 0xffu64, 8)
            + low_bit_count((x >> 48u64) & 0xffu64, 8) + low_bit_count((x >> 56u64) & 0xffu64, 8),
{
    assert(x >> 0u64 == x) by (bit_vector);
    lemma_low_bits_shift(x, 0, 8);
    lemma_low_bits_shift(x, 1, 8);
    lemma_low_bits_shift(x, 2, 8);
    lemma_low_bits_shift(x, 3, 8);
    lemma_low_bits_shift(x, 4, 8);
    lemma_low_bits_shift(x, 5, 8);
    lemma_low_bits_shift(x, 6, 8);
    lemma_low_bits_shift(x, 7, 8);
}

/// The popcount of the XOR of two little-endian words is the per-byte
/// distance of their eight bytes.
proof fn lemma_word_distance_bytes(a: Seq<u8>, b: Seq<u8>, o: int)
    requires
        0 <= o,
        o + 8 <= a.len(),
        o + 8 <= b.len(),
    ensures
        popcount(le_word(a, o) ^ le_word(b, o)) + byte_distance(a, b, o) == byte_distance(a, b, o + 8),
{
    let x = le_word(a, o) ^ le_word(b, o);
    let (a0, a1, a2, a3, a4, a5, a6, a7) = (a[o], a[o + 1], a[o + 2], a[o + 3], a[o + 4], a[o + 5], a[o + 6], a[o + 7]);
    let (b0, b1, b2, b3, b4, b5, b6, b7) = (b[o], b[o + 1], b[o + 2], b[o + 3], b[o + 4], b[o + 5], b[o + 6], b[o + 7]);
    assert({
        let w = ((a0 as u64) | ((a1 as u64) << 8u64) | ((a2 as u64) << 16u64) | ((a3 as u64) << 24u64) | ((a4 as u64) << 32u64)
            | ((a5 as u64) << 40u64) | ((a6 as u64) << 48u64) | ((a7 as u64) << 56u64)) ^ ((b0 as u64) | ((b1 as u64) << 8u64)
            | ((b2 as u64) << 16u64) | ((b3 as u64) << 24u64) | ((b4 as u64) << 32u64) | ((b5 as u64) << 40u64) | ((b6 as u64) << 48u64)
            | ((b7 as u64) << 56u64));
        &&& w & 0xffu64 == (a0 ^ b0) as u64
        &&& (w >> 8u64) & 0xffu64 == (a1 ^ b1) as u64
        &&& (w >> 16u64) & 0xffu64 == (a2 ^ b2) as u64
        &&& (w >> 24u64) & 0xffu64 == (a3 ^ b3) as u64
        &&& (w >> 32u64) & 0xffu64 == (a4 ^ b4) as u64
        &&& (w >> 40u64) & 0xffu64 == (a5 ^ b5) as u64
        &&& (w >> 48u64) & 0xffu64 == (a6 ^ b6) as u64
        &&& (w >> 56u64) & 0xffu64 == (a7 ^ b7) as u64
    }) by (bit_vector);
    lemma_popcount_bytes(x);
    assert(byte_distance(a, b, o + 8) == byte_distance(a, b, o + 7) + byte_popcount(a7 ^ b7));
    assert(byte_distance(a, b, o + 7) == byte_distance(a, b, o + 6) + byte_popcount(a6 ^ b6));
    assert(byte_distance(a, b, o + 6) == byte_distance(a, b, o + 5) + byte_popcount(a5 ^ b5));
    assert(byte_distance(a, b, o + 5) == byte_distance(a, b, o + 4) + byte_popcount(a4 ^ b4));
    assert(byte_distance(a, b, o + 4) == byte_distance(a, b, o + 3) + byte_popcount(a3 ^ b3));
    assert(byte_distance(a, b, o + 3) == byte_distance(a, b, o + 2) + byte_popcount(a2 ^ b2));
    assert(byte_distance(a, b, o + 2) == byte_distance(a, b, o + 1) + byte_popcount(a1 ^ b1));
    assert(byte_distance(a, b, o + 1) == byte_distance(a, b, o) + byte_popcount(a0 ^ b0));
}

proof fn lemma_range_bytes(a: Seq<u8>, b: Seq<u8>, n: nat, k: int)
    requires
        0 <= k <= n,
        8 * n <= a.len(),
        8 * n <= b.len(),
    ensures
        hamming_range(bytes_to_words(a, n), bytes_to_words(b, n), 0, k) == byte_distance(a, b, 8 * k),
    decreases k,
{
    if k > 0 {
        lemma_range_bytes(a, b, n, k - 1);
        lemma_word_distance_bytes(a, b, 8 * (k - 1));
    }
}

/// The Hamming distance of two embeddings is the sum, over the bytes they
/// share in whole words, of the set bits of the bytes' XOR.
pub proof fn lemma_byte_hamming_per_byte(a: Seq<u8>, b: Seq<u8>)
    ensures
        byte_hamming(a, b) == byte_distance(a, b, 8 * shared_words(a, b) as int),
        a.len() == 2048 && b.len() == 2048 ==> byte_hamming(a, b) == byte_distance(a, b, 2048),
{
    lemma_range_bytes(a, b, shared_words(a, b), shared_words(a, b) as int);
}

/// A packed database of 2048-byte embeddings holds 2048 bytes per entry.
pub proof fn lemma_packed_len(embs: Seq<JinaEmbedding>, k: int)
    requires
        0 <= k <= embs.len(),
        forall|j: int| 0 <= j < embs.len() ==> (#[trigger] embs[j]).bf16_bytes@.len() == 2048,
    ensures
        packed_bytes(embs, k).len() == 2048 * k,
    decreases k,
{
    if k > 0 {
        lemma_packed_len(embs, k - 1);
    }
}

} // verus!
