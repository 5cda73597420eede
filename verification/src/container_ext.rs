//! Sweep-side operations on containers:
//! - partial Hamming distance on a word segment,
//! - early-exit Hamming distance with progressive widening,
//! - anti-resonance detection,
//! - majority-vote superposition (bundling).
use vstd::prelude::*;
use crate::bits::{hamming_range, lemma_hamming_range_le, lemma_hamming_range_split};
use crate::bits::lemma_hamming_range_complement;
use crate::container::{Container, majority_bit};
use crate::bits::bit;
use crate::staged::add_range_distance;

verus! {

/// Partial Hamming distance on the words `start..start + count`.
/// Used for progressive early-exit filtering.
pub fn hamming_partial(a: &Container, b: &Container, start: usize, count: usize) -> (r: u32)
    requires
        start + count <= 128,
    ensures
        r == hamming_range(a.words@, b.words@, start as int, start + count),
{
    add_range_distance(a.words.as_slice(), b.words.as_slice(), start, start + count, 0)
}

/// Early-exit Hamming distance in three metering stages: the first word
/// (64 bits), the first 8 words (512 bits), then all 128 words.  Each stage
/// stops as soon as its partial distance reaches `threshold`, since the
/// full distance can then no longer fall below it.  Returns
/// `Some(distance)` exactly when the distance is below `threshold`.
pub fn hamming_early_exit(a: &Container, b: &Container, threshold: u32) -> (r: Option<u32>)
    ensures
        r == if a.distance(*b) < threshold {
            Some(a.distance(*b) as u32)
        } else {
            None::<u32>
        },
{
    let aw = a.words.as_slice();
    let bw = b.words.as_slice();
    proof {
        lemma_hamming_range_le(a.words@, b.words@, 0, 1);
        lemma_hamming_range_le(a.words@, b.words@, 0, 8);
        lemma_hamming_range_split(a.words@, b.words@, 0, 1, 8);
        lemma_hamming_range_split(a.words@, b.words@, 0, 8, 128);
        lemma_hamming_range_split(a.words@, b.words@, 0, 1, 128);
    }
    // Stage 1: spot metering, 64 bits.
    let d64 = add_range_distance(aw, bw, 0, 1, 0);
    if d64 >= threshold {
        return None;
    }
    // Stage 2: center-weighted, 512 bits.
    let d512 = add_range_distance(aw, bw, 1, 8, d64);
    if d512 >= threshold {
        return None;
    }
    // Stage 3: matrix metering, all 8192 bits.
    let full = add_range_distance(aw, bw, 8, 128, d512);
    if full < threshold {
        Some(full)
    } else {
        None
    }
}

/// Two containers are anti-resonant (nearly opposite) when their distance
/// exceeds `8192 - threshold`: natural lateral inhibition.
pub fn is_anti_resonant(a: &Container, b: &Container, threshold: u32) -> (r: bool)
    requires
        threshold <= 8192,
    ensures
        r == (a.distance(*b) > 8192 - threshold),
{
    a.hamming(b) > 8192u32 - threshold
}

/// Majority-vote superposition, robust bundling for any number of items:
/// each bit is set iff more than half of the items have it set.
///
/// XOR binds and unbinds two operands; majority bundles many.
pub fn majority_bundle(items: &[&Container]) -> (r: Container)
    ensures
        forall|w: int, b: nat|
            0 <= w < 128 && b < 64 ==> #[trigger] bit(r.words@[w], b) == majority_bit(
                items@.map_values(|c: &Container| c.words@),
                w,
                b,
            ),
{
    Container::bundle(items)
}

/// Partial distances over adjacent segments add up; the segments
/// `0..1, 1..2, ..., 127..128` add up to the full distance.
pub proof fn lemma_partial_additive(a: Container, b: Container, start: int, c1: int, c2: int)
    requires
        0 <= start,
        0 <= c1,
        0 <= c2,
        start + c1 + c2 <= 128,
    ensures
        hamming_range(a.words@, b.words@, start, start + c1) + hamming_range(
            a.words@,
            b.words@,
            start + c1,
            start + c1 + c2,
        ) == hamming_range(a.words@, b.words@, start, start + c1 + c2),
        hamming_range(a.words@, b.words@, 0, 128) == a.distance(b),
{
    lemma_hamming_range_split(a.words@, b.words@, start, start + c1, start + c1 + c2);
}

/// A container and its bitwise complement are anti-resonant for every
/// positive threshold: they differ in all 8192 bits.
pub proof fn lemma_complement_anti_resonant(a: Container, b: Container, threshold: u32)
    requires
        0 < threshold <= 8192,
        forall|i: int| 0 <= i < 128 ==> #[trigger] b.words@[i] == !a.words@[i],
    ensures
        a.distance(b) == 8192,
        a.distance(b) > 8192 - threshold,
{
    lemma_hamming_range_complement(a.words@, b.words@, 0, 128);
}

} // verus!
