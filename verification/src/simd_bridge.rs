//! Flat byte-array view of wide containers and the bulk operations on it.
//!
//! A wide container is 2048 bytes (its words, little-endian); a
//! `CogRecord8K` is 8192 bytes (META | CAM | INDEX | EMBED).  The byte
//! arrays are what the bulk kernels consume; this module converts both
//! ways and provides distance, popcount, XOR, bundling, int8 dot product
//! and batch distance on wide containers.
use vstd::prelude::*;
use crate::bits::hamming_range;
use crate::le_bytes::{words_to_bytes, bytes_to_words, push_words_le, lemma_words_bytes_words,
    lemma_bytes_words_bytes};
use crate::wide_container::WideContainer;
use crate::cogrecord8k::CogRecord8K;
use crate::container::{xor_words, majority_bit};
use crate::bits::{bit, bit_at, xor_bit, lemma_bit_xor};

verus! {

/// The 2048 little-endian bytes of a wide container.
pub fn wide_to_array(c: &WideContainer) -> (r: Vec<u8>)
    ensures
        r@ == words_to_bytes(c.words@),
        r@.len() == 2048,
{
    let mut out: Vec<u8> = Vec::with_capacity(2048);
    push_words_le(&mut out, c.words.as_slice());
    assert(out@ =~= words_to_bytes(c.words@));
    out
}

/// The wide container spelled by exactly 2048 bytes.
pub fn array_to_wide(arr: &Vec<u8>) -> (r: WideContainer)
    requires
        arr@.len() == 2048,
    ensures
        r.words@ == bytes_to_words(arr@, 256),
{
    let r = WideContainer::read_at(arr.as_slice(), 0);
    assert(arr@.subrange(0, 2048) =~= arr@);
    r
}

/// The 8192 bytes of a record: META | CAM | INDEX | EMBED.
pub fn record8k_to_array(record: &CogRecord8K) -> (r: Vec<u8>)
    ensures
        r@ == record.byte_seq(),
        r@.len() == 8192,
{
    record.as_bytes()
}

/// Record assembled from four 2048-byte arrays.
pub fn arrays_to_record8k(meta: &Vec<u8>, cam: &Vec<u8>, index: &Vec<u8>, embed: &Vec<u8>) -> (r:
    CogRecord8K)
    requires
        meta@.len() == 2048,
        cam@.len() == 2048,
        index@.len() == 2048,
        embed@.len() == 2048,
    ensures
        r.meta.words@ == bytes_to_words(meta@, 256),
        r.cam.words@ == bytes_to_words(cam@, 256),
        r.index.words@ == bytes_to_words(index@, 256),
        r.embed.words@ == bytes_to_words(embed@, 256),
{
    CogRecord8K {
        meta: array_to_wide(meta),
        cam: array_to_wide(cam),
        index: array_to_wide(index),
        embed: array_to_wide(embed),
    }
}

/// Hamming distance between two wide containers.
pub fn simd_hamming(a: &WideContainer, b: &WideContainer) -> (r: u64)
    ensures
        r == a.distance(*b),
{
    a.hamming(b) as u64
}

/// Number of set bits of a wide container.
pub fn simd_popcount(c: &WideContainer) -> (r: u64)
    ensures
        r == c.ones(),
{
    c.popcount() as u64
}

/// XOR binding.
pub fn simd_xor(a: &WideContainer, b: &WideContainer) -> (r: WideContainer)
    ensures
        r.words@ == xor_words(a.words@, b.words@),
{
    a.xor(b)
}

/// Majority-vote bundle: bit `b` of word `w` is set iff more than half of
/// the items have it set.
pub fn simd_bundle(items: &[&WideContainer]) -> (r: WideContainer)
    ensures
        forall|w: int, b: nat|
            0 <= w < 256 && b < 64 ==> #[trigger] bit(r.words@[w], b) == majority_bit(
                items@.map_values(|c: &WideContainer| c.words@),
                w,
                b,
            ),
{
    WideContainer::bundle(items)
}

/// Signed value of a byte read as `i8`.
pub open spec fn as_i8(x: u8) -> int {
    if x < 128 {
        x as int
    } else {
        x - 256
    }
}

/// Sum of `as_i8(a[i]) * as_i8(b[i])` for `i < k`.
pub open spec fn int8_dot(a: Seq<u8>, b: Seq<u8>, k: int) -> int
    decreases k,
{
    if k <= 0 {
        0
    } else {
        int8_dot(a, b, k - 1) + as_i8(a[k - 1]) * as_i8(b[k - 1])
    }
}

proof fn lemma_byte_as_i8(u: u8)
    ensures
        u as i8 as i64 == as_i8(u),
{
    assert(u < 128u8 ==> u as i8 as i64 == u as i64) by (bit_vector);
    assert(u >= 128u8 ==> u as i8 as i64 == u as i64 - 256) by (bit_vector);
}

proof fn lemma_int8_dot_bounds(a: Seq<u8>, b: Seq<u8>, k: int)
    requires
        0 <= k,
    ensures
        -16384 * k <= int8_dot(a, b, k) <= 16384 * k,
    decreases k,
{
    if k > 0 {
        lemma_int8_dot_bounds(a, b, k - 1);
        let x = as_i8(a[k - 1]);
        let y = as_i8(b[k - 1]);
        assert(-16384 <= x * y <= 16384) by (nonlinear_arith)
            requires
                -128 <= x <= 127,
                -128 <= y <= 127,
        ;
    }
}

/// Int8 dot product of the first `dims` bytes of two wide containers, read
/// as signed bytes, multiplied pairwise and summed.
pub fn int8_dot_prefix(a: &WideContainer, b: &WideContainer, dims: usize) -> (r: i64)
    requires
        dims <= 2048,
    ensures
        r == embed_dot(*a, *b, dims as int),
{
    let xa = wide_to_array(a);
    let xb = wide_to_array(b);
    let mut acc: i64 = 0;
    for i in 0..dims
        invariant
            dims <= 2048,
            xa@.len() == 2048,
            xb@.len() == 2048,
            xa@ == words_to_bytes(a.words@),
            xb@ == words_to_bytes(b.words@),
            acc == int8_dot(xa@, xb@, i as int),
    {
        proof {
            lemma_int8_dot_bounds(xa@, xb@, i as int);
        }
        let ua = xa[i];
        let ub = xb[i];
        let x = ua as i8 as i64;
        let y = ub as i8 as i64;
        proof {
            lemma_byte_as_i8(ua);
            lemma_byte_as_i8(ub);
        }
        assert(-16384 <= x * y <= 16384) by (nonlinear_arith)
            requires
                -128 <= x <= 127,
                -128 <= y <= 127,
        ;
        acc = acc + x * y;
    }
    acc
}

/// Int8 dot product of two wide containers: their 2048 bytes read as
/// signed bytes, multiplied pairwise and summed.
pub fn simd_int8_dot(a: &WideContainer, b: &WideContainer) -> (r: i64)
    ensures
        r == embed_dot(*a, *b, 2048),
{
    int8_dot_prefix(a, b, 2048)
}

/// Int8 dot product of the first `dims` bytes of two wide containers.
pub open spec fn embed_dot(a: WideContainer, b: WideContainer, dims: int) -> int {
    int8_dot(words_to_bytes(a.words@), words_to_bytes(b.words@), dims)
}

/// The record whose EMBED slot has the largest int8 dot product with
/// `query` over the first `dims` dimensions, with that product; the first
/// such record on a tie, `None` for no records.
pub fn best_int8_match(query: &WideContainer, records: &[CogRecord8K], dims: usize) -> (r: Option<(usize, i64)>)
    requires
        dims <= 2048,
    ensures
        records@.len() == 0 <==> r is None,
        r matches Some((k, d)) ==> {
            &&& k < records@.len()
            &&& d == embed_dot(*query, records@[k as int].embed, dims as int)
            &&& forall|j: int|
                0 <= j < records@.len() ==> embed_dot(*query, #[trigger] records@[j].embed, dims as int) <= d
            &&& forall|j: int| 0 <= j < k ==> embed_dot(*query, #[trigger] records@[j].embed, dims as int) < d
        },
{
    if records.len() == 0 {
        return None;
    }
    let mut best_idx: usize = 0;
    let mut best_dot: i64 = int8_dot_prefix(query, &records[0].embed, dims);
    for idx in 1..records.len()
        invariant
            dims <= 2048,
            records@.len() > 0,
            best_idx < idx,
            best_dot == embed_dot(*query, records@[best_idx as int].embed, dims as int),
            forall|j: int|
                0 <= j < idx ==> embed_dot(*query, #[trigger] records@[j].embed, dims as int) <= best_dot,
            forall|j: int| 0 <= j < best_idx ==> embed_dot(*query, #[trigger] records@[j].embed, dims as int) < best_dot,
    {
        let dot = int8_dot_prefix(query, &records[idx].embed, dims);
        if dot > best_dot {
            best_dot = dot;
            best_idx = idx;
        }
    }
    Some((best_idx, best_dot))
}

/// Hamming distances from `query` to every container of `corpus`, in order.
pub fn simd_hamming_batch(query: &WideContainer, corpus: &[WideContainer]) -> (r: Vec<u64>)
    ensures
        r@.len() == corpus@.len(),
        forall|i: int| 0 <= i < corpus@.len() ==> #[trigger] r@[i] == query.distance(corpus@[i]),
{
    let mut out: Vec<u64> = Vec::with_capacity(corpus.len());
    for i in 0..corpus.len()
        invariant
            out@.len() == i,
            forall|j: int| 0 <= j < i ==> #[trigger] out@[j] == query.distance(corpus@[j]),
    {
        out.push(query.hamming(&corpus[i]) as u64);
    }
    out
}

/// `edge` encodes the triple: bit `p` is `src[p] ^ rel[p - 1] ^ tgt[p - 2]`
/// (indices modulo 16384), that is `src ^ permute(rel, 1) ^ permute(tgt, 2)`.
pub open spec fn is_edge(edge: Seq<u64>, src: Seq<u64>, rel: Seq<u64>, tgt: Seq<u64>) -> bool {
    forall|p: int|
        0 <= p < 16384 ==> #[trigger] bit_at(edge, p) == xor_bit(
            xor_bit(bit_at(src, p), bit_at(rel, (p + 16383) % 16384)),
            bit_at(tgt, (p + 16382) % 16384),
        )
}

/// `rec` is recovered from `edge`: `permute(edge ^ src ^ permute(rel, 1), 16382)`,
/// so bit `p` comes from position `q = (p + 2) % 16384`.
pub open spec fn is_recovered(rec: Seq<u64>, edge: Seq<u64>, src: Seq<u64>, rel: Seq<u64>) -> bool {
    forall|p: int|
        0 <= p < 16384 ==> #[trigger] bit_at(rec, p) == xor_bit(
            xor_bit(bit_at(edge, (p + 2) % 16384), bit_at(src, (p + 2) % 16384)),
            bit_at(rel, ((p + 2) % 16384 + 16383) % 16384),
        )
}

proof fn lemma_position(p: int)
    requires
        0 <= p < 16384,
    ensures
        0 <= p / 64 < 256,
        0 <= p % 64 < 64,
        64 * (p / 64) + p % 64 == p,
{
}

/// Circular bit rotation of a wide container by `k` positions.
pub fn simd_permute(c: &WideContainer, k: usize) -> (r: WideContainer)
    ensures
        forall|p: int|
            0 <= p < 16384 ==> #[trigger] bit_at(r.words@, p) == bit_at(c.words@, (p + 16384 - k % 16384) % 16384),
{
    let r = c.permute(k);
    proof {
        assert forall|p: int| 0 <= p < 16384 implies #[trigger] bit_at(r.words@, p) == bit_at(
            c.words@,
            (p + 16384 - k % 16384) % 16384,
        ) by {
            lemma_position(p);
            let w = p / 64;
            let b = (p % 64) as nat;
            assert(bit(r.words@[w], b) == bit_at(c.words@, (64 * w + b + 16384 - k % 16384) % 16384));
        }
    }
    r
}

/// Edge encoding: `src ^ permute(rel, 1) ^ permute(tgt, 2)`.
pub fn simd_make_edge(src: &WideContainer, rel: &WideContainer, tgt: &WideContainer) -> (r: WideContainer)
    ensures
        is_edge(r.words@, src.words@, rel.words@, tgt.words@),
{
    let r1 = simd_permute(rel, 1);
    let t2 = simd_permute(tgt, 2);
    let e = src.xor(&r1).xor(&t2);
    proof {
        assert forall|p: int| 0 <= p < 16384 implies #[trigger] bit_at(e.words@, p) == xor_bit(
            xor_bit(bit_at(src.words@, p), bit_at(rel.words@, (p + 16383) % 16384)),
            bit_at(tgt.words@, (p + 16382) % 16384),
        ) by {
            lemma_position(p);
            let w = p / 64;
            let b = (p % 64) as nat;
            assert(bit_at(r1.words@, p) == bit_at(rel.words@, (p + 16383) % 16384));
            assert(bit_at(t2.words@, p) == bit_at(tgt.words@, (p + 16382) % 16384));
            lemma_bit_xor(src.words@[w], r1.words@[w], b);
            lemma_bit_xor(src.words@[w] ^ r1.words@[w], t2.words@[w], b);
        }
    }
    e
}

/// Recover the target of an edge: `permute(edge ^ src ^ permute(rel, 1), 16382)`.
pub fn simd_recover_target(edge: &WideContainer, src: &WideContainer, rel: &WideContainer) -> (r:
    WideContainer)
    ensures
        is_recovered(r.words@, edge.words@, src.words@, rel.words@),
{
    let r1 = simd_permute(rel, 1);
    let inner = edge.xor(src).xor(&r1);
    let total_bits: usize = 2048 * 8;
    let out = simd_permute(&inner, total_bits - 2);
    proof {
        assert forall|p: int| 0 <= p < 16384 implies #[trigger] bit_at(out.words@, p) == xor_bit(
            xor_bit(bit_at(edge.words@, (p + 2) % 16384), bit_at(src.words@, (p + 2) % 16384)),
            bit_at(rel.words@, ((p + 2) % 16384 + 16383) % 16384),
        ) by {
            let q = (p + 2) % 16384;
            assert((p + 16384 - 16382int % 16384) % 16384 == q);
            lemma_position(q);
            let w = q / 64;
            let b = (q % 64) as nat;
            assert(bit_at(r1.words@, q) == bit_at(rel.words@, (q + 16383) % 16384));
            lemma_bit_xor(edge.words@[w], src.words@[w], b);
            lemma_bit_xor(edge.words@[w] ^ src.words@[w], r1.words@[w], b);
        }
    }
    out
}

/// Recovering the target of an edge gives back every bit of the target.
pub proof fn lemma_edge_roundtrip(
    src: Seq<u64>,
    rel: Seq<u64>,
    tgt: Seq<u64>,
    edge: Seq<u64>,
    rec: Seq<u64>,
)
    requires
        is_edge(edge, src, rel, tgt),
        is_recovered(rec, edge, src, rel),
        src.len() == 256,
        rel.len() == 256,
        tgt.len() == 256,
    ensures
        forall|p: int| 0 <= p < 16384 ==> #[trigger] bit_at(rec, p) == bit_at(tgt, p),
{
    assert forall|p: int| 0 <= p < 16384 implies #[trigger] bit_at(rec, p) == bit_at(tgt, p) by {
        let q = (p + 2) % 16384;
        assert(0 <= q < 16384);
        assert((q + 16382) % 16384 == p);
        let a = bit_at(src, q);
        let r = bit_at(rel, (q + 16383) % 16384);
        let t = bit_at(tgt, p);
        assert(bit_at(edge, q) == xor_bit(xor_bit(a, r), t));
        lemma_bits_binary(src, q);
        lemma_bits_binary(rel, (q + 16383) % 16384);
        lemma_bits_binary(tgt, p);
    }
}

/// Every bit of a word sequence is 0 or 1.
pub proof fn lemma_bits_binary(ws: Seq<u64>, p: int)
    requires
        0 <= p / 64 < ws.len(),
    ensures
        bit_at(ws, p) <= 1,
{
    let x = ws[p / 64];
    let s = (p % 64) as u64;
    assert((x >> s) & 1u64 <= 1u64) by (bit_vector);
}

/// A wide container survives the trip through its byte array.
pub proof fn lemma_wide_array_roundtrip(c: WideContainer)
    ensures
        bytes_to_words(words_to_bytes(c.words@), 256) == c.words@,
{
    lemma_words_bytes_words(c.words@);
}

/// A 2048-byte array survives the trip through a wide container.
pub proof fn lemma_array_wide_roundtrip(bytes: Seq<u8>)
    requires
        bytes.len() == 2048,
    ensures
        words_to_bytes(bytes_to_words(bytes, 256)) == bytes,
{
    lemma_bytes_words_bytes(bytes, 256);
}

} // verus!
