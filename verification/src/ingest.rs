//! Ingest: the binary container file format and the sign-combining steps
//! of the crosshair projections.
//!
//! Container files hold `[u32 count][u64 x 128 x count]`, all little-endian.
//! The crosshair projections take one sign bit per hyperplane (computed from
//! a float embedding elsewhere) and combine four signs per output bit by
//! majority vote.
use vstd::prelude::*;
use crate::container::Container;
use crate::bits::{bit, bit_at, xor_bit, lemma_bit_xor};
use crate::le_bytes::{le_byte, le_word, words_to_bytes, bytes_to_words, push_words_le,
    lemma_words_bytes_words, lemma_bytes_roundtrip, read_word_le};
use crate::container::lemma_set_bit;
use crate::rng::{GOLDEN_GAMMA, mix64};

verus! {

/// SimHash seed shared by every projection of CLIP embeddings.
pub const CLIP_SIMHASH_SEED: u64 = 0xADA0C11B_2025_0001;

/// CLIP ViT-B/32 embedding dimension.
pub const CLIP_DIM: usize = 512;

/// A container with its class label and source image (for evaluation).
#[derive(Debug, Clone)]
pub struct LabeledContainer {
    pub container: Container,
    pub class_id: String,
    pub class_name: String,
    pub image_path: String,
}

/// Little-endian bytes of a 32-bit count.
pub open spec fn u32_le(x: u32) -> Seq<u8> {
    seq![(x & 0xff) as u8, ((x >> 8u32) & 0xff) as u8, ((x >> 16u32) & 0xff) as u8, ((x >> 24u32) & 0xff) as u8]
}

/// The 32-bit count read little-endian from `b[0..4]`.
pub open spec fn le_u32(b: Seq<u8>) -> u32 {
    (b[0] as u32) | ((b[1] as u32) << 8u32) | ((b[2] as u32) << 16u32) | ((b[3] as u32) << 24u32)
}

/// Bytes of the first `k` containers, one after the other.
pub open spec fn containers_bytes(cs: Seq<Container>, k: int) -> Seq<u8>
    decreases k,
{
    if k <= 0 {
        Seq::empty()
    } else {
        containers_bytes(cs, k - 1) + words_to_bytes(cs[k - 1].words@)
    }
}

/// The container file of `cs`: its count (modulo 2^32) then every container.
pub open spec fn container_file(cs: Seq<Container>) -> Seq<u8> {
    u32_le(cs.len() as u32) + containers_bytes(cs, cs.len() as int)
}

proof fn lemma_containers_bytes_len(cs: Seq<Container>, k: int)
    requires
        0 <= k <= cs.len(),
    ensures
        containers_bytes(cs, k).len() == 1024 * k,
    decreases k,
{
    if k > 0 {
        lemma_containers_bytes_len(cs, k - 1);
    }
}

/// Serialize containers: `[u32 count][u64 x 128 x count]`, little-endian.
pub fn encode_containers(containers: &[Container]) -> (r: Vec<u8>)
    ensures
        r@ == container_file(containers@),
{
    let count = containers.len() as u32;
    let mut out: Vec<u8> = Vec::new();
    out.push((count & 0xff) as u8);
    out.push(((count >> 8u32) & 0xff) as u8);
    out.push(((count >> 16u32) & 0xff) as u8);
    out.push(((count >> 24u32) & 0xff) as u8);
    assert(out@ =~= u32_le(count));
    for i in 0..containers.len()
        invariant
            count == containers@.len() as u32,
            out@ == u32_le(count) + containers_bytes(containers@, i as int),
    {
        push_words_le(&mut out, containers[i].words.as_slice());
        assert(out@ =~= u32_le(count) + containers_bytes(containers@, i as int + 1));
    }
    out
}

/// Parse a container file.  `None` when the bytes end before the count or
/// before the last container the count announces; bytes after the last
/// container are ignored.
pub fn decode_containers(bytes: &[u8]) -> (r: Option<Vec<Container>>)
    ensures
        bytes@.len() < 4 ==> r is None,
        bytes@.len() >= 4 ==> {
            let count = le_u32(bytes@);
            if bytes@.len() < 4 + 1024 * count {
                r is None
            } else {
                r matches Some(cs) && cs@.len() == count && forall|i: int|
                    0 <= i < count ==> (#[trigger] cs@[i]).words@ == bytes_to_words(
                        bytes@.subrange(4 + 1024 * i, 4 + 1024 * i + 1024),
                        128,
                    )
            }
        },
{
    let blen = bytes.len();
    if blen < 4 {
        return None;
    }
    let count = (bytes[0] as u32) | ((bytes[1] as u32) << 8u32) | ((bytes[2] as u32) << 16u32) | ((
    bytes[3] as u32) << 24u32);
    let count = count as usize;
    if (blen - 4) / 1024 < count {
        return None;
    }
    let mut out: Vec<Container> = Vec::new();
    for i in 0..count
        invariant
            blen == bytes@.len(),
            count == le_u32(bytes@),
            4 + 1024 * count <= bytes@.len(),
            out@.len() == i,
            forall|j: int|
                0 <= j < i ==> (#[trigger] out@[j]).words@ == bytes_to_words(
                    bytes@.subrange(4 + 1024 * j, 4 + 1024 * j + 1024),
                    128,
                ),
    {
        out.push(Container::read_at(bytes, 4 + 1024 * i));
    }
    Some(out)
}

/// Decoding an encoded list of fewer than 2^32 containers gives it back.
pub proof fn lemma_container_file_roundtrip(cs: Seq<Container>)
    requires
        cs.len() <= u32::MAX,
    ensures
        container_file(cs).len() == 4 + 1024 * cs.len(),
        le_u32(container_file(cs)) == cs.len(),
        forall|i: int|
            0 <= i < cs.len() ==> bytes_to_words(
                #[trigger] container_file(cs).subrange(4 + 1024 * i, 4 + 1024 * i + 1024),
                128,
            ) == cs[i].words@,
{
    let f = container_file(cs);
    let n = cs.len() as u32;
    lemma_containers_bytes_len(cs, cs.len() as int);
    assert((n & 0xff) as u8 as u32 | ((((n >> 8u32) & 0xff) as u8 as u32) << 8u32) | ((((n >> 16u32)
        & 0xff) as u8 as u32) << 16u32) | ((((n >> 24u32) & 0xff) as u8 as u32) << 24u32) == n)
        by (bit_vector);
    assert(f[0] == (n & 0xff) as u8);
    assert(f[1] == ((n >> 8u32) & 0xff) as u8);
    assert(f[2] == ((n >> 16u32) & 0xff) as u8);
    assert(f[3] == ((n >> 24u32) & 0xff) as u8);
    assert forall|i: int| 0 <= i < cs.len() implies bytes_to_words(
        #[trigger] f.subrange(4 + 1024 * i, 4 + 1024 * i + 1024),
        128,
    ) == cs[i].words@ by {
        lemma_containers_bytes_slot(cs, cs.len() as int, i);
        assert(f.subrange(4 + 1024 * i, 4 + 1024 * i + 1024) =~= containers_bytes(
            cs,
            cs.len() as int,
        ).subrange(1024 * i, 1024 * i + 1024));
        lemma_words_bytes_words(cs[i].words@);
    }
}

proof fn lemma_containers_bytes_slot(cs: Seq<Container>, k: int, i: int)
    requires
        0 <= i < k <= cs.len(),
    ensures
        containers_bytes(cs, k).subrange(1024 * i, 1024 * i + 1024) == words_to_bytes(cs[i].words@),
    decreases k,
{
    lemma_containers_bytes_len(cs, k - 1);
    if i < k - 1 {
        lemma_containers_bytes_slot(cs, k - 1, i);
        assert(containers_bytes(cs, k).subrange(1024 * i, 1024 * i + 1024) =~= containers_bytes(
            cs,
            k - 1,
        ).subrange(1024 * i, 1024 * i + 1024));
    } else {
        assert(containers_bytes(cs, k).subrange(1024 * i, 1024 * i + 1024) =~= words_to_bytes(
            cs[i].words@,
        ));
    }
}

/// Generator state of hyperplane `bit_idx` after `d` mixing steps: it starts
/// at `(seed + bit_idx) * GOLDEN_GAMMA` (wrapping) and each step applies the
/// SplitMix64 output mix.
pub open spec fn plane_state(seed: u64, bit_idx: u64, d: nat) -> u64
    decreases d,
{
    if d == 0 {
        seed.wrapping_add(bit_idx).wrapping_mul(GOLDEN_GAMMA)
    } else {
        mix64(plane_state(seed, bit_idx, (d - 1) as nat))
    }
}

/// Component `d` of hyperplane `bit_idx` is `+1` (true) when the state after
/// `d + 1` mixing steps is even, `-1` (false) otherwise.
pub open spec fn plane_positive(seed: u64, bit_idx: u64, d: nat) -> bool {
    plane_state(seed, bit_idx, d + 1) & 1 == 0
}

/// The `dim` sign components of the pseudo-random hyperplane `bit_idx` that
/// SimHash projects onto: entry `d` is true for `+1` and false for `-1`.
pub fn hyperplane_signs(seed: u64, bit_idx: u64, dim: usize) -> (r: Vec<bool>)
    ensures
        r@.len() == dim,
        forall|d: int| 0 <= d < dim ==> r@[d] == plane_positive(seed, bit_idx, d as nat),
{
    let mut out: Vec<bool> = Vec::new();
    let mut state: u64 = seed.wrapping_add(bit_idx).wrapping_mul(GOLDEN_GAMMA);
    for d in 0..dim
        invariant
            out@.len() == d,
            state == plane_state(seed, bit_idx, d as nat),
            forall|e: int| 0 <= e < d ==> out@[e] == plane_positive(seed, bit_idx, e as nat),
    {
        let mut z = state;
        z = (z ^ (z >> 30u64)).wrapping_mul(0xbf58476d1ce4e5b9u64);
        z = (z ^ (z >> 27u64)).wrapping_mul(0x94d049bb133111ebu64);
        z = z ^ (z >> 31u64);
        state = z;
        out.push(state & 1 == 0);
    }
    out
}

/// The `dim` generator states of hyperplane `bit_idx`: entry `d` is the
/// state after `d + 1` mixing steps, from which component `d` is derived.
pub fn hyperplane_states(seed: u64, bit_idx: u64, dim: usize) -> (r: Vec<u64>)
    ensures
        r@.len() == dim,
        forall|d: int| 0 <= d < dim ==> r@[d] == plane_state(seed, bit_idx, (d + 1) as nat),
{
    let mut out: Vec<u64> = Vec::new();
    let mut state: u64 = seed.wrapping_add(bit_idx).wrapping_mul(GOLDEN_GAMMA);
    for d in 0..dim
        invariant
            out@.len() == d,
            state == plane_state(seed, bit_idx, d as nat),
            forall|e: int| 0 <= e < d ==> out@[e] == plane_state(seed, bit_idx, (e + 1) as nat),
    {
        let mut z = state;
        z = (z ^ (z >> 30u64)).wrapping_mul(0xbf58476d1ce4e5b9u64);
        z = (z ^ (z >> 27u64)).wrapping_mul(0x94d049bb133111ebu64);
        z = z ^ (z >> 31u64);
        state = z;
        out.push(state);
    }
    out
}

/// Holographic superposition of three views: `view1 ^ permute(view2, 2731)
/// ^ permute(view3, 5461)`, bit `p` being
/// `view1[p] ^ view2[p - 2731] ^ view3[p - 5461]` (modulo 8192).
pub fn holographic_bind(view1: &Container, view2: &Container, view3: &Container) -> (r: Container)
    ensures
        forall|p: int|
            0 <= p < 8192 ==> #[trigger] bit_at(r.words@, p) == xor_bit(
                xor_bit(bit_at(view1.words@, p), bit_at(view2.words@, (p + 8192 - 2731) % 8192)),
                bit_at(view3.words@, (p + 8192 - 5461) % 8192),
            ),
{
    let p2 = view2.permute(2731);
    let p3 = view3.permute(5461);
    let r = view1.xor(&p2).xor(&p3);
    proof {
        assert forall|p: int| 0 <= p < 8192 implies #[trigger] bit_at(r.words@, p) == xor_bit(
            xor_bit(bit_at(view1.words@, p), bit_at(view2.words@, (p + 8192 - 2731) % 8192)),
            bit_at(view3.words@, (p + 8192 - 5461) % 8192),
        ) by {
            let w = p / 64;
            let b = (p % 64) as nat;
            assert(64 * w + b == p);
            assert(bit(p2.words@[w], b) == bit_at(view2.words@, (64 * w + b + 8192 - 2731int % 8192) % 8192));
            assert(bit(p3.words@[w], b) == bit_at(view3.words@, (64 * w + b + 8192 - 5461int % 8192) % 8192));
            lemma_bit_xor(view1.words@[w], p2.words@[w], b);
            lemma_bit_xor(view1.words@[w] ^ p2.words@[w], p3.words@[w], b);
        }
    }
    r
}

/// Majority vote of four signs; a 2-2 tie follows the first.
pub open spec fn crosshair_vote(s0: bool, s1: bool, s2: bool, s3: bool) -> bool {
    let count = (if s0 { 1int } else { 0 }) + (if s1 { 1int } else { 0 }) + (if s2 { 1int } else { 0 })
        + (if s3 { 1int } else { 0 });
    count > 2 || (count == 2 && s0)
}

/// Output bit `i` of a crosshair projection: the vote of the signs at
/// `i + offset`, `i + offset + 2048`, `i + offset + 4096` and
/// `i + offset + 6144` (modulo 8192).
pub open spec fn crosshair_bit(signs: Seq<bool>, offset: int, i: int) -> bool {
    crosshair_vote(
        signs[(i + offset) % 8192],
        signs[(i + offset + 2048) % 8192],
        signs[(i + offset + 4096) % 8192],
        signs[(i + offset + 6144) % 8192],
    )
}

/// Arm `j` (0 to 3) of the crosshair of output bit `i`: the sign at
/// `i + offset + 2048 j`, modulo 8192.
pub open spec fn crosshair_arm(signs: Seq<bool>, offset: int, i: int, j: int) -> bool {
    signs[(i + offset + 2048 * j) % 8192]
}

/// The crosshair vote reads four arms spaced a quarter turn apart: an
/// output bit with at least three positive arms is set, one with at most
/// one positive arm is clear, and with exactly two positive arms it
/// follows arm 0.
pub proof fn lemma_crosshair_majority(signs: Seq<bool>, offset: int, i: int)
    ensures
        forall|j1: int, j2: int, j3: int|
            0 <= j1 < j2 < j3 < 4 && #[trigger] crosshair_arm(signs, offset, i, j1) && #[trigger] crosshair_arm(
                signs,
                offset,
                i,
                j2,
            ) && #[trigger] crosshair_arm(signs, offset, i, j3) ==> crosshair_bit(signs, offset, i),
        forall|j: int|
            #![trigger crosshair_arm(signs, offset, i, j)]
            0 <= j < 4 && (forall|k: int| 0 <= k < 4 && k != j ==> !#[trigger] crosshair_arm(signs, offset, i, k))
                ==> !crosshair_bit(signs, offset, i),
        forall|j1: int, j2: int|
            0 <= j1 < j2 < 4 && #[trigger] crosshair_arm(signs, offset, i, j1) && #[trigger] crosshair_arm(
                signs,
                offset,
                i,
                j2,
            ) && (forall|k: int| 0 <= k < 4 && k != j1 && k != j2 ==> !#[trigger] crosshair_arm(signs, offset, i, k))
                ==> (crosshair_bit(signs, offset, i) <==> j1 == 0),
{
    assert(crosshair_arm(signs, offset, i, 0) == signs[(i + offset) % 8192]);
    assert(crosshair_arm(signs, offset, i, 1) == signs[(i + offset + 2048) % 8192]);
    assert(crosshair_arm(signs, offset, i, 2) == signs[(i + offset + 4096) % 8192]);
    assert(crosshair_arm(signs, offset, i, 3) == signs[(i + offset + 6144) % 8192]);
}

/// Combine 8192 hyperplane signs into a container by four-point crosshair
/// majority: offset 0 gives the cardinal crosshair, offset 1024 the
/// diagonal (45 degree) one.
pub fn crosshair_combine(signs: &[bool], offset: usize) -> (r: Container)
    requires
        signs@.len() == 8192,
        offset < 8192,
    ensures
        forall|w: int, b: nat|
            0 <= w < 128 && b < 64 ==> #[trigger] bit(r.words@[w], b) == if crosshair_bit(
                signs@,
                offset as int,
                64 * w + b,
            ) {
                1nat
            } else {
                0nat
            },
{
    let total: usize = 8192;
    let delta: usize = 2048;
    let mut result = Container::zero();
    for word_idx in 0..128usize
        invariant
            signs@.len() == 8192,
            offset < 8192,
            total == 8192,
            delta == 2048,
            forall|v: int, b: nat|
                0 <= v < word_idx && b < 64 ==> #[trigger] bit(result.words@[v], b) == if crosshair_bit(
                    signs@,
                    offset as int,
                    64 * v + b,
                ) {
                    1nat
                } else {
                    0nat
                },
    {
        let mut word: u64 = 0;
        proof {
            assert forall|c: nat| c < 64 implies #[trigger] bit(0u64, c) == 0 by {
                let s = c as u64;
                assert((0u64 >> s) & 1u64 == 0u64) by (bit_vector);
            }
        }
        for b in 0..64u64
            invariant
                signs@.len() == 8192,
                offset < 8192,
                total == 8192,
                delta == 2048,
                word_idx < 128,
                forall|c: nat| c < b ==> #[trigger] bit(word, c) == if crosshair_bit(
                    signs@,
                    offset as int,
                    64 * word_idx + c,
                ) {
                    1nat
                } else {
                    0nat
                },
                forall|c: nat| b <= c < 64 ==> #[trigger] bit(word, c) == 0,
        {
            let i = word_idx * 64 + b as usize;
            let s0 = signs[(i + offset) % total];
            let s1 = signs[(i + offset + delta) % total];
            let s2 = signs[(i + offset + 2 * delta) % total];
            let s3 = signs[(i + offset + 3 * delta) % total];
            let count: u8 = (s0 as u8) + (s1 as u8) + (s2 as u8) + (s3 as u8);
            let set = count > 2 || (count == 2 && s0);
            proof {
                assert(set == crosshair_bit(signs@, offset as int, 64 * word_idx + b));
            }
            let old_word = word;
            if set {
                word = word | (1u64 << b);
            }
            proof {
                assert forall|c: nat| c < b + 1 implies #[trigger] bit(word, c) == if crosshair_bit(
                    signs@,
                    offset as int,
                    64 * word_idx + c,
                ) {
                    1nat
                } else {
                    0nat
                } by {
                    if set {
                        lemma_set_bit(old_word, b, c as u64);
                    }
                }
                assert forall|c: nat| b + 1 <= c < 64 implies #[trigger] bit(word, c) == 0 by {
                    if set {
                        lemma_set_bit(old_word, b, c as u64);
                    }
                }
            }
        }
        result.words[word_idx] = word;
    }
    result
}

} // verus!
