//! The three-stage early-exit sweep shared by the 8192-bit and the
//! 16384-bit engines.
//!
//! Every candidate is metered in three stages of growing width:
//! - stage 1 (spot): the first word only;
//! - stage 2 (center-weighted): the first `stage2_words` words;
//! - stage 3 (matrix): all words, the exact Hamming distance.
//!
//! A candidate is dropped as soon as a partial distance exceeds its stage
//! threshold; one that reaches stage 3 is scored and, if its exact distance
//! is below the match threshold, reported.  The specification below states
//! the outcome of a sweep in terms of these per-candidate quantities.
use vstd::prelude::*;
use vstd::multiset::Multiset;
use crate::bits::{popcount, hamming_range, lemma_hamming_range_le, lemma_hamming_range_split};
use crate::hdr::{HdrConfig, HdrDistribution, score_of};
use crate::{HdrScore, ResonanceMatch};
use crate::container::Container;
use crate::wide_container::WideContainer;

verus! {

broadcast use vstd::seq_lib::group_to_multiset_ensures;

/// A binary vector stored as 64-bit words.
pub trait Words {
    /// The words, in order.
    spec fn word_seq(&self) -> Seq<u64>;

    /// The words as a slice.
    fn word_slice(&self) -> (r: &[u64])
        ensures
            r@ == self.word_seq(),
    ;
}

impl Words for Container {
    open spec fn word_seq(&self) -> Seq<u64> {
        self.words@
    }

    fn word_slice(&self) -> (r: &[u64]) {
        self.words.as_slice()
    }
}

impl Words for WideContainer {
    open spec fn word_seq(&self) -> Seq<u64> {
        self.words@
    }

    fn word_slice(&self) -> (r: &[u64]) {
        self.words.as_slice()
    }
}

/// Word sequences of a corpus.
pub open spec fn views<C: Words>(corpus: Seq<C>) -> Seq<Seq<u64>> {
    corpus.map_values(|c: C| c.word_seq())
}

/// Everything a sweep needs to know: container width, width of stage 2,
/// the match threshold, the two early-exit thresholds, the exposure bands
/// and the result limit (0 = unlimited).
#[derive(Clone, Copy, Debug)]
pub struct SweepParams {
    pub words: usize,
    pub stage2_words: usize,
    pub threshold: u32,
    pub stage1_threshold: u32,
    pub stage2_threshold: u32,
    pub hdr: HdrConfig,
    pub limit: usize,
}

/// Stage widths are consistent and every distance fits in a `u32`.
pub open spec fn params_wf(p: SweepParams) -> bool {
    &&& 1 <= p.stage2_words <= p.words
    &&& 64 * p.words <= u32::MAX
}

/// Stage threshold for a stage that meters `width` of `total` bits: the
/// match threshold scaled to the stage width and widened by the safety
/// margin `num / den`, rounded down and capped at `u32::MAX`.
pub open spec fn scaled_threshold_spec(threshold: u32, width: u32, total: u32, num: u32, den: u32) -> u32 {
    let v = (threshold * width * num) / (total * den);
    if v > u32::MAX {
        u32::MAX
    } else {
        v as u32
    }
}

/// Computes `scaled_threshold_spec` without overflow.
pub fn scaled_threshold(threshold: u32, width: u32, total: u32, num: u32, den: u32) -> (r: u32)
    requires
        total > 0,
        den > 0,
    ensures
        r == scaled_threshold_spec(threshold, width, total, num, den),
{
    let t = threshold as u128;
    let w = width as u128;
    let n = num as u128;
    let tot = total as u128;
    let d = den as u128;
    assert(t * w <= 0xffff_ffff_ffff_ffff_ffff) by (nonlinear_arith)
        requires
            t <= 0xffff_ffff,
            w <= 0xffff_ffff,
    ;
    assert(t * w * n <= 0xffff_ffff_ffff_ffff_ffff_ffff_ffff) by (nonlinear_arith)
        requires
            t * w <= 0xffff_ffff_ffff_ffff_ffff,
            n <= 0xffff_ffff,
    ;
    assert(tot * d <= 0xffff_ffff_ffff_ffff && tot * d > 0) by (nonlinear_arith)
        requires
            0 < tot <= 0xffff_ffff,
            0 < d <= 0xffff_ffff,
    ;
    let v = t * w * n / (tot * d);
    if v > 0xffff_ffffu128 {
        u32::MAX
    } else {
        v as u32
    }
}

/// Stage-1 (spot) distance: the first word only.
pub open spec fn spot_distance(q: Seq<u64>, c: Seq<u64>) -> nat {
    hamming_range(q, c, 0, 1)
}

/// Stage-2 (center-weighted) distance: the first `stage2_words` words.
pub open spec fn center_distance(q: Seq<u64>, c: Seq<u64>, p: SweepParams) -> nat {
    hamming_range(q, c, 0, p.stage2_words as int)
}

/// Exact Hamming distance over all words.
pub open spec fn full_distance(q: Seq<u64>, c: Seq<u64>, p: SweepParams) -> nat {
    hamming_range(q, c, 0, p.words as int)
}

/// The candidate survives stage 1.
pub open spec fn passes_stage1(q: Seq<u64>, c: Seq<u64>, p: SweepParams) -> bool {
    spot_distance(q, c) <= p.stage1_threshold
}

/// The candidate survives stages 1 and 2, so its exact distance is measured.
pub open spec fn reaches_stage3(q: Seq<u64>, c: Seq<u64>, p: SweepParams) -> bool {
    passes_stage1(q, c, p) && center_distance(q, c, p) <= p.stage2_threshold
}

/// The candidate is reported by the early-exit sweep.
pub open spec fn is_hit(q: Seq<u64>, c: Seq<u64>, p: SweepParams) -> bool {
    reaches_stage3(q, c, p) && full_distance(q, c, p) < p.threshold
}

/// The match reported for corpus entry `j`.
pub open spec fn match_at(q: Seq<u64>, cs: Seq<Seq<u64>>, p: SweepParams, j: int) -> ResonanceMatch {
    let d = full_distance(q, cs[j], p);
    ResonanceMatch { index: j as usize, distance: d as u32, hdr: score_of(p.hdr, d as int) }
}

/// Matches of the early-exit sweep among the first `m` entries, in corpus order.
pub open spec fn hits(q: Seq<u64>, cs: Seq<Seq<u64>>, p: SweepParams, m: int) -> Seq<ResonanceMatch>
    decreases m,
{
    if m <= 0 {
        Seq::empty()
    } else if is_hit(q, cs[m - 1], p) {
        hits(q, cs, p, m - 1).push(match_at(q, cs, p, m - 1))
    } else {
        hits(q, cs, p, m - 1)
    }
}

/// Matches of the exact (no early exit) sweep among the first `m` entries.
pub open spec fn exact_hits(q: Seq<u64>, cs: Seq<Seq<u64>>, p: SweepParams, m: int) -> Seq<
    ResonanceMatch,
>
    decreases m,
{
    if m <= 0 {
        Seq::empty()
    } else if full_distance(q, cs[m - 1], p) < p.threshold {
        exact_hits(q, cs, p, m - 1).push(match_at(q, cs, p, m - 1))
    } else {
        exact_hits(q, cs, p, m - 1)
    }
}

/// Where the sweep stops when it is at entry `m`: the end of the corpus, or
/// just after the entry whose match brings the count to the limit.
pub open spec fn stop_from(q: Seq<u64>, cs: Seq<Seq<u64>>, p: SweepParams, m: int) -> int
    decreases cs.len() - m,
{
    if m >= cs.len() {
        cs.len() as int
    } else if p.limit > 0 && hits(q, cs, p, m + 1).len() >= p.limit {
        m + 1
    } else {
        stop_from(q, cs, p, m + 1)
    }
}

/// Number of corpus entries the sweep examines.
pub open spec fn scanned(q: Seq<u64>, cs: Seq<Seq<u64>>, p: SweepParams) -> int {
    stop_from(q, cs, p, 0)
}

/// Entries among the first `m` that survive stage 1.
pub open spec fn stage1_count(q: Seq<u64>, cs: Seq<Seq<u64>>, p: SweepParams, m: int) -> nat
    decreases m,
{
    if m <= 0 {
        0
    } else {
        stage1_count(q, cs, p, m - 1) + if passes_stage1(q, cs[m - 1], p) { 1nat } else { 0nat }
    }
}

/// Entries among the first `m` that reach stage 3.
pub open spec fn stage3_count(q: Seq<u64>, cs: Seq<Seq<u64>>, p: SweepParams, m: int) -> nat
    decreases m,
{
    if m <= 0 {
        0
    } else {
        stage3_count(q, cs, p, m - 1) + if reaches_stage3(q, cs[m - 1], p) { 1nat } else { 0nat }
    }
}

/// Total exposure (0 to 6) of a distance.
pub open spec fn exposure(cfg: HdrConfig, d: int) -> int {
    let s = score_of(cfg, d);
    s.hot + s.mid + s.cold
}

/// Entries among the first `m` that reach stage 3 with exposure total `t`.
pub open spec fn exposure_count(q: Seq<u64>, cs: Seq<Seq<u64>>, p: SweepParams, m: int, t: int) -> nat
    decreases m,
{
    if m <= 0 {
        0
    } else {
        exposure_count(q, cs, p, m - 1, t) + if reaches_stage3(q, cs[m - 1], p) && exposure(
            p.hdr,
            full_distance(q, cs[m - 1], p) as int,
        ) == t {
            1nat
        } else {
            0nat
        }
    }
}

/// Order of the sweep output: by distance, then by corpus index.
pub open spec fn match_before(a: ResonanceMatch, b: ResonanceMatch) -> bool {
    a.distance < b.distance || (a.distance == b.distance && a.index < b.index)
}

/// Strictly increasing in (distance, index).
pub open spec fn sorted_matches(s: Seq<ResonanceMatch>) -> bool {
    forall|i: int, j: int| 0 <= i < j < s.len() ==> match_before(#[trigger] s[i], #[trigger] s[j])
}

/// Corpus indices strictly increase along `s`.
pub open spec fn index_ordered(s: Seq<ResonanceMatch>) -> bool {
    forall|i: int, j: int| 0 <= i < j < s.len() ==> (#[trigger] s[i]).index < (#[trigger] s[j]).index
}

/// The matches of `h` in (distance, index) order: the sequence sorted by
/// `match_before` with the same elements (unique by `lemma_sort_of`).
pub open spec fn sort_of(h: Seq<ResonanceMatch>) -> Seq<ResonanceMatch> {
    choose|s: Seq<ResonanceMatch>| sorted_matches(s) && s.to_multiset() == h.to_multiset()
}

/// Two sequences sorted by (distance, index) with the same elements are
/// equal.
pub proof fn lemma_sorted_unique(a: Seq<ResonanceMatch>, b: Seq<ResonanceMatch>)
    requires
        sorted_matches(a),
        sorted_matches(b),
        a.to_multiset() == b.to_multiset(),
    ensures
        a == b,
    decreases a.len(),
{
    a.to_multiset_ensures();
    b.to_multiset_ensures();
    assert(a.len() == b.len());
    let n = a.len() as int;
    if n > 0 {
        let x = a[n - 1];
        let y = b[n - 1];
        assert(a.contains(x));
        assert(a.to_multiset().count(x) > 0);
        assert(b.contains(x));
        let j = choose|j: int| 0 <= j < n && b[j] == x;
        assert(b.contains(y));
        assert(b.to_multiset().count(y) > 0);
        assert(a.contains(y));
        let i = choose|i: int| 0 <= i < n && a[i] == y;
        if j < n - 1 {
            assert(match_before(b[j], b[n - 1]));
            if i < n - 1 {
                assert(match_before(a[i], a[n - 1]));
            }
        }
        assert(x == y);
        let a1 = a.drop_last();
        let b1 = b.drop_last();
        assert(a1.push(x) =~= a);
        assert(b1.push(x) =~= b);
        assert(a1.to_multiset().insert(x) == a.to_multiset());
        assert(b1.to_multiset().insert(x) == b.to_multiset());
        assert(a1.to_multiset() =~= b1.to_multiset()) by {
            assert forall|z: ResonanceMatch| a1.to_multiset().count(z) == b1.to_multiset().count(z) by {
                assert(a1.to_multiset().insert(x).count(z) == b1.to_multiset().insert(x).count(z));
            }
        }
        assert(sorted_matches(a1));
        assert(sorted_matches(b1));
        lemma_sorted_unique(a1, b1);
        assert(a =~= b);
    } else {
        assert(a =~= b);
    }
}

/// A sorted sequence with the elements of `h` is `sort_of(h)`.
pub proof fn lemma_sort_of(s: Seq<ResonanceMatch>, h: Seq<ResonanceMatch>)
    requires
        sorted_matches(s),
        s.to_multiset() == h.to_multiset(),
    ensures
        sort_of(h) == s,
{
    let t = sort_of(h);
    assert(sorted_matches(t) && t.to_multiset() == h.to_multiset());
    lemma_sorted_unique(t, s);
}

/// Instruction count of the sweep: one POPCNT per word examined.
pub open spec fn instruction_count(q: Seq<u64>, cs: Seq<Seq<u64>>, p: SweepParams, m: int) -> int {
    m + (p.stage2_words - 1) * stage1_count(q, cs, p, m) + (p.words - p.stage2_words) * stage3_count(
        q,
        cs,
        p,
        m,
    )
}

/// Everything an early-exit sweep produces except the corpus size.
pub struct SweepOutcome {
    pub matches: Vec<ResonanceMatch>,
    pub distribution: HdrDistribution,
    pub stage1_survivors: usize,
    pub stage2_survivors: usize,
    pub instructions: u64,
}

/// The outcome of the early-exit sweep of `cs` with `p`: matches of the
/// scanned prefix sorted by (distance, index), stage survivor counts,
/// exposure histogram and instruction count.
pub open spec fn outcome_spec(q: Seq<u64>, cs: Seq<Seq<u64>>, p: SweepParams, r: SweepOutcome) -> bool {
    let m = scanned(q, cs, p);
    &&& sorted_matches(r.matches@)
    &&& r.matches@.to_multiset() == hits(q, cs, p, m).to_multiset()
    &&& r.stage1_survivors == stage1_count(q, cs, p, m)
    &&& r.stage2_survivors == stage3_count(q, cs, p, m)
    &&& r.instructions == instruction_count(q, cs, p, m)
    &&& forall|t: int| 0 <= t < 7 ==> #[trigger] r.distribution.counts@[t] == exposure_count(q, cs, p, m, t)
}

proof fn lemma_stage_counts_le(q: Seq<u64>, cs: Seq<Seq<u64>>, p: SweepParams, m: int)
    requires
        0 <= m,
    ensures
        stage3_count(q, cs, p, m) <= stage1_count(q, cs, p, m) <= m,
        forall|t: int| #[trigger] exposure_count(q, cs, p, m, t) <= m,
    decreases m,
{
    if m > 0 {
        lemma_stage_counts_le(q, cs, p, m - 1);
        assert forall|t: int| #[trigger] exposure_count(q, cs, p, m, t) <= m by {
            assert(exposure_count(q, cs, p, m - 1, t) <= m - 1);
        }
    }
}

proof fn lemma_hits_index_bound(q: Seq<u64>, cs: Seq<Seq<u64>>, p: SweepParams, m: int)
    requires
        0 <= m <= usize::MAX,
    ensures
        hits(q, cs, p, m).len() <= m,
        index_ordered(hits(q, cs, p, m)),
        forall|i: int| 0 <= i < hits(q, cs, p, m).len() ==> (#[trigger] hits(q, cs, p, m)[i]).index < m,
    decreases m,
{
    if m > 0 {
        lemma_hits_index_bound(q, cs, p, m - 1);
        let prev = hits(q, cs, p, m - 1);
        if is_hit(q, cs[m - 1], p) {
            let h = prev.push(match_at(q, cs, p, m - 1));
            assert(h[h.len() - 1].index == m - 1);
            assert forall|i: int, j: int| 0 <= i < j < h.len() implies (#[trigger] h[i]).index < (
            #[trigger] h[j]).index by {
                if j < prev.len() {
                    assert(h[i] == prev[i] && h[j] == prev[j]);
                } else {
                    assert(h[i] == prev[i]);
                }
            }
        }
    }
}

proof fn lemma_stop_from_bounds(q: Seq<u64>, cs: Seq<Seq<u64>>, p: SweepParams, m: int)
    requires
        0 <= m <= cs.len(),
    ensures
        m <= stop_from(q, cs, p, m) <= cs.len(),
    decreases cs.len() - m,
{
    if m < cs.len() {
        lemma_stop_from_bounds(q, cs, p, m + 1);
    }
}

/// Exact Hamming distance of `a` and `b` over words `lo..hi`, added to `acc`.
pub fn add_range_distance(a: &[u64], b: &[u64], lo: usize, hi: usize, acc: u32) -> (r: u32)
    requires
        lo <= hi <= a@.len(),
        hi <= b@.len(),
        acc + 64 * (hi - lo) <= u32::MAX,
    ensures
        r == acc + hamming_range(a@, b@, lo as int, hi as int),
{
    let mut d = acc;
    let mut i = lo;
    while i < hi
        invariant
            lo <= i <= hi,
            hi <= a@.len(),
            hi <= b@.len(),
            acc + 64 * (hi - lo) <= u32::MAX,
            d == acc + hamming_range(a@, b@, lo as int, i as int),
        decreases hi - i,
    {
        proof {
            lemma_hamming_range_le(a@, b@, lo as int, i as int + 1);
        }
        d = d + (a[i] ^ b[i]).count_ones();
        i = i + 1;
    }
    d
}

/// Sort matches by (distance, index); the input must be in increasing
/// index order.  Insertion sort: sweeps return few matches.
pub fn sort_matches(v: Vec<ResonanceMatch>) -> (r: Vec<ResonanceMatch>)
    requires
        index_ordered(v@),
    ensures
        sorted_matches(r@),
        r@.to_multiset() == v@.to_multiset(),
{
    let mut r: Vec<ResonanceMatch> = Vec::new();
    let n = v.len();
    let mut i: usize = 0;
    while i < n
        invariant
            n == v.len(),
            i <= n,
            index_ordered(v@),
            sorted_matches(r@),
            r@.to_multiset() == v@.take(i as int).to_multiset(),
            forall|k: int| 0 <= k < r@.len() ==> exists|j: int| 0 <= j < i && #[trigger] r@[k] == v@[j],
        decreases n - i,
    {
        let x = v[i];
        let mut pos: usize = 0;
        while pos < r.len() && ((r[pos].distance < x.distance) || (r[pos].distance == x.distance
            && r[pos].index < x.index))
            invariant
                pos <= r@.len(),
                forall|k: int| 0 <= k < pos ==> match_before(#[trigger] r@[k], x),
            decreases r@.len() - pos,
        {
            pos = pos + 1;
        }
        proof {
            // Every element already placed comes earlier in `v`, so has a smaller index.
            assert forall|k: int| 0 <= k < r@.len() implies (#[trigger] r@[k]).index < x.index by {
                let j = choose|j: int| 0 <= j < i && r@[k] == v@[j];
                assert(v@[j].index < v@[i as int].index);
            }
            let old_r = r@;
            let new_r = old_r.insert(pos as int, x);
            old_r.insert_ensures(pos as int, x);
            assert forall|a: int, b: int| 0 <= a < b < new_r.len() implies match_before(
                #[trigger] new_r[a],
                #[trigger] new_r[b],
            ) by {
                if b < pos {
                } else if a < pos && b == pos {
                } else if a < pos {
                    assert(new_r[b] == old_r[b - 1]);
                } else if a == pos {
                    assert(new_r[b] == old_r[b - 1]);
                    assert(!match_before(old_r[pos as int], x));
                    assert(old_r[pos as int].index < x.index);
                    if b - 1 > pos {
                        assert(match_before(old_r[pos as int], old_r[b - 1]));
                    }
                } else {
                    assert(new_r[a] == old_r[a - 1]);
                    assert(new_r[b] == old_r[b - 1]);
                }
            }
            assert(new_r.remove(pos as int) =~= old_r);
            assert(new_r.to_multiset().remove(x) =~= old_r.to_multiset());
            assert(new_r.contains(x)) by {
                assert(new_r[pos as int] == x);
            }
            assert(new_r.to_multiset() =~= old_r.to_multiset().insert(x));
            assert(v@.take(i as int + 1) =~= v@.take(i as int).push(x));
        }
        r.insert(pos, x);
        i = i + 1;
        proof {
            assert forall|k: int| 0 <= k < r@.len() implies exists|j: int|
                0 <= j < i && #[trigger] r@[k] == v@[j] by {
                let old_len = r@.len() - 1;
                if k == pos {
                    assert(r@[k] == v@[i - 1]);
                } else if k < pos {
                } else {
                }
            }
        }
    }
    assert(v@.take(n as int) =~= v@);
    r
}

/// Without a result limit the sweep scans the whole corpus.
pub proof fn lemma_scanned_unlimited(q: Seq<u64>, cs: Seq<Seq<u64>>, p: SweepParams)
    requires
        p.limit == 0,
    ensures
        scanned(q, cs, p) == cs.len(),
{
    lemma_stop_from_unlimited(q, cs, p, 0);
}

proof fn lemma_stop_from_unlimited(q: Seq<u64>, cs: Seq<Seq<u64>>, p: SweepParams, m: int)
    requires
        p.limit == 0,
        0 <= m,
    ensures
        stop_from(q, cs, p, m) == cs.len(),
    decreases cs.len() - m,
{
    if m < cs.len() {
        lemma_stop_from_unlimited(q, cs, p, m + 1);
    }
}

/// The exact sweep depends only on the width, the threshold and the bands.
pub proof fn lemma_exact_hits_params(q: Seq<u64>, cs: Seq<Seq<u64>>, p1: SweepParams, p2: SweepParams, m: int)
    requires
        p1.words == p2.words,
        p1.threshold == p2.threshold,
        p1.hdr == p2.hdr,
    ensures
        exact_hits(q, cs, p1, m) == exact_hits(q, cs, p2, m),
    decreases m,
{
    if m > 0 {
        lemma_exact_hits_params(q, cs, p1, p2, m - 1);
    }
}

/// The sweep scans between zero and all of the corpus entries.
pub proof fn lemma_stop_from_bounds_pub(q: Seq<u64>, cs: Seq<Seq<u64>>, p: SweepParams)
    ensures
        0 <= scanned(q, cs, p) <= cs.len(),
{
    lemma_stop_from_bounds(q, cs, p, 0);
}

/// A sweep with a positive limit reports at most that many matches.
pub proof fn lemma_hits_len_le_limit(q: Seq<u64>, cs: Seq<Seq<u64>>, p: SweepParams)
    requires
        p.limit > 0,
    ensures
        hits(q, cs, p, scanned(q, cs, p)).len() <= p.limit,
{
    lemma_stop_limit(q, cs, p, 0);
}

proof fn lemma_stop_limit(q: Seq<u64>, cs: Seq<Seq<u64>>, p: SweepParams, m: int)
    requires
        p.limit > 0,
        0 <= m <= cs.len(),
        hits(q, cs, p, m).len() < p.limit,
    ensures
        hits(q, cs, p, stop_from(q, cs, p, m)).len() <= p.limit,
    decreases cs.len() - m,
{
    if m < cs.len() {
        assert(hits(q, cs, p, m + 1).len() <= hits(q, cs, p, m).len() + 1);
        if hits(q, cs, p, m + 1).len() >= p.limit {
        } else {
            lemma_stop_limit(q, cs, p, m + 1);
        }
    }
}

/// Every match of the early-exit sweep points into the scanned prefix.
pub proof fn lemma_hits_indices(q: Seq<u64>, cs: Seq<Seq<u64>>, p: SweepParams, m: int)
    requires
        0 <= m <= cs.len(),
        cs.len() <= usize::MAX,
    ensures
        forall|x: ResonanceMatch| hits(q, cs, p, m).contains(x) ==> x.index < m,
{
    lemma_hits_index_bound(q, cs, p, m);
}

/// Every match of the early-exit sweep among the first `m` entries is a match
/// of the exact sweep among the same entries, with the same distance and
/// exposure: early exit never reports a false positive.
pub proof fn lemma_hits_within_exact(q: Seq<u64>, cs: Seq<Seq<u64>>, p: SweepParams, m: int)
    requires
        0 <= m,
    ensures
        forall|i: int|
            0 <= i < hits(q, cs, p, m).len() ==> exact_hits(q, cs, p, m).contains(
                #[trigger] hits(q, cs, p, m)[i],
            ),
    decreases m,
{
    if m > 0 {
        lemma_hits_within_exact(q, cs, p, m - 1);
        let h = hits(q, cs, p, m - 1);
        let e = exact_hits(q, cs, p, m - 1);
        let hm = hits(q, cs, p, m);
        let em = exact_hits(q, cs, p, m);
        assert forall|i: int| 0 <= i < hm.len() implies em.contains(#[trigger] hm[i]) by {
            if i < h.len() {
                assert(hm[i] == h[i]);
                let k = choose|k: int| 0 <= k < e.len() && e[k] == h[i];
                assert(em[k] == e[k]);
            } else {
                assert(em[em.len() - 1] == hm[i]);
            }
        }
    }
}

/// Exact matches grow with the prefix: a match among the first `m` entries
/// is a match among the first `k >= m` entries.
pub proof fn lemma_exact_hits_grow(q: Seq<u64>, cs: Seq<Seq<u64>>, p: SweepParams, m: int, k: int)
    requires
        0 <= m <= k,
    ensures
        forall|i: int|
            0 <= i < exact_hits(q, cs, p, m).len() ==> exact_hits(q, cs, p, k).contains(
                #[trigger] exact_hits(q, cs, p, m)[i],
            ),
    decreases k - m,
{
    if m < k {
        lemma_exact_hits_grow(q, cs, p, m, k - 1);
        let e = exact_hits(q, cs, p, k - 1);
        let ek = exact_hits(q, cs, p, k);
        assert forall|x: ResonanceMatch| e.contains(x) implies ek.contains(x) by {
            let j = choose|j: int| 0 <= j < e.len() && e[j] == x;
            assert(ek[j] == e[j]);
        }
    }
}

/// An entry whose exact distance is below the threshold and which survives
/// both metering stages is reported: the only matches early exit can miss
/// are those a metering stage rejected.
pub proof fn lemma_metered_match_found(q: Seq<u64>, cs: Seq<Seq<u64>>, p: SweepParams, m: int, j: int)
    requires
        0 <= j < m,
        is_hit(q, cs[j], p),
    ensures
        hits(q, cs, p, m).contains(match_at(q, cs, p, j)),
    decreases m,
{
    let h = hits(q, cs, p, m);
    if j == m - 1 {
        assert(h[h.len() - 1] == match_at(q, cs, p, j));
    } else {
        lemma_metered_match_found(q, cs, p, m - 1, j);
        let prev = hits(q, cs, p, m - 1);
        let k = choose|k: int| 0 <= k < prev.len() && prev[k] == match_at(q, cs, p, j);
        assert(h[k] == prev[k]);
    }
}

/// Stage accounting of a sweep over the first `m` entries: survivors
/// shrink from stage to stage, every match reached stage 3, and the
/// exposure histogram counts each stage-3 survivor exactly once.
pub proof fn lemma_stage_accounting(q: Seq<u64>, cs: Seq<Seq<u64>>, p: SweepParams, m: int)
    requires
        0 <= m,
    ensures
        stage3_count(q, cs, p, m) <= stage1_count(q, cs, p, m) <= m,
        hits(q, cs, p, m).len() <= stage3_count(q, cs, p, m),
        exposure_count(q, cs, p, m, 0) + exposure_count(q, cs, p, m, 1) + exposure_count(q, cs, p, m, 2)
            + exposure_count(q, cs, p, m, 3) + exposure_count(q, cs, p, m, 4) + exposure_count(q, cs, p, m, 5)
            + exposure_count(q, cs, p, m, 6) == stage3_count(q, cs, p, m),
    decreases m,
{
    if m > 0 {
        lemma_stage_accounting(q, cs, p, m - 1);
        let e = exposure(p.hdr, full_distance(q, cs[m - 1], p) as int);
        assert(0 <= e <= 6);
    }
}

/// When the stage thresholds are at least the stage widths (64 bits for
/// stage 1, 64 bits per word for stage 2), no metering stage can reject a
/// candidate and the early-exit sweep reports exactly the exact matches.
pub proof fn lemma_permissive_stages_exact(q: Seq<u64>, cs: Seq<Seq<u64>>, p: SweepParams, m: int)
    requires
        0 <= m,
        p.stage1_threshold >= 64,
        p.stage2_threshold >= 64 * p.stage2_words,
    ensures
        hits(q, cs, p, m) == exact_hits(q, cs, p, m),
    decreases m,
{
    if m > 0 {
        lemma_permissive_stages_exact(q, cs, p, m - 1);
        lemma_hamming_range_le(q, cs[m - 1], 0, 1);
        lemma_hamming_range_le(q, cs[m - 1], 0, p.stage2_words as int);
    }
}

/// When each stage threshold is at least the match threshold less one, a
/// stage rejects only candidates whose partial distance already reaches
/// the match threshold, and the early-exit sweep reports exactly the exact
/// matches.
pub proof fn lemma_cutoff_stages_exact(q: Seq<u64>, cs: Seq<Seq<u64>>, p: SweepParams, m: int)
    requires
        0 <= m,
        params_wf(p),
        p.stage1_threshold + 1 >= p.threshold,
        p.stage2_threshold + 1 >= p.threshold,
    ensures
        hits(q, cs, p, m) == exact_hits(q, cs, p, m),
    decreases m,
{
    if m > 0 {
        lemma_cutoff_stages_exact(q, cs, p, m - 1);
        lemma_hamming_range_split(q, cs[m - 1], 0, 1, p.words as int);
        lemma_hamming_range_split(q, cs[m - 1], 0, p.stage2_words as int, p.words as int);
    }
}

/// The early-exit sweep issues at most one POPCNT per word of each scanned
/// entry, never more than the exact sweep.
pub proof fn lemma_instructions_at_most_exact(q: Seq<u64>, cs: Seq<Seq<u64>>, p: SweepParams, m: int)
    requires
        0 <= m,
        params_wf(p),
    ensures
        instruction_count(q, cs, p, m) <= p.words * m,
{
    lemma_stage_counts_le(q, cs, p, m);
    lemma_instruction_bound(
        m,
        p.stage2_words as int,
        p.words as int,
        stage1_count(q, cs, p, m) as int,
        stage3_count(q, cs, p, m) as int,
    );
}

/// A sequence sorted by (distance, index) with the same elements as `h`:
/// its first `k` elements are the `k` best elements of `h`.
pub proof fn lemma_sorted_prefix(s: Seq<ResonanceMatch>, h: Seq<ResonanceMatch>, k: int)
    requires
        0 <= k <= s.len(),
        sorted_matches(s),
        s.to_multiset() == h.to_multiset(),
    ensures
        forall|i: int| 0 <= i < k ==> h.contains(#[trigger] s.take(k)[i]),
        forall|x: ResonanceMatch|
            h.contains(x) && !s.take(k).contains(x) ==> forall|i: int|
                0 <= i < k ==> match_before(#[trigger] s.take(k)[i], x),
{
    let t = s.take(k);
    assert forall|i: int| 0 <= i < k implies h.contains(#[trigger] t[i]) by {
        assert(s.contains(s[i]));
        assert(s.to_multiset().count(s[i]) > 0);
    }
    assert forall|x: ResonanceMatch| h.contains(x) && !t.contains(x) implies forall|i: int|
        0 <= i < k ==> match_before(#[trigger] t[i], x) by {
        assert(h.to_multiset().count(x) > 0);
        assert(s.contains(x));
        let j = choose|j: int| 0 <= j < s.len() && s[j] == x;
        if j < k {
            assert(t[j] == x);
        }
        assert forall|i: int| 0 <= i < k implies match_before(#[trigger] t[i], x) by {
            assert(t[i] == s[i]);
        }
    }
}

proof fn lemma_instruction_bound(m: int, w2: int, words: int, s1: int, s3: int)
    requires
        0 <= s3 <= s1 <= m,
        1 <= w2 <= words,
    ensures
        m + (w2 - 1) * s1 + (words - w2) * s3 <= words * m,
        0 <= m + (w2 - 1) * s1 + (words - w2) * s3,
{
    assert((w2 - 1) * s1 <= (w2 - 1) * m) by (nonlinear_arith)
        requires
            0 <= s1 <= m,
            1 <= w2,
    ;
    assert((words - w2) * s3 <= (words - w2) * m) by (nonlinear_arith)
        requires
            0 <= s3 <= m,
            w2 <= words,
    ;
    assert(0 <= (w2 - 1) * s1) by (nonlinear_arith)
        requires
            0 <= s1,
            1 <= w2,
    ;
    assert(0 <= (words - w2) * s3) by (nonlinear_arith)
        requires
            0 <= s3,
            w2 <= words,
    ;
    assert(m + (w2 - 1) * m + (words - w2) * m == words * m) by (nonlinear_arith);
}

proof fn lemma_mul_step(a: int, b: int)
    ensures
        a * (b + 1) == a * b + a,
{
    assert(a * (b + 1) == a * b + a) by (nonlinear_arith);
}

/// Early-exit sweep of `corpus` against `query`, stopping after `p.limit`
/// matches when the limit is positive.
pub fn early_exit_sweep<C: Words>(query: &C, corpus: &[C], p: SweepParams) -> (r: SweepOutcome)
    requires
        params_wf(p),
        query.word_seq().len() == p.words,
        forall|j: int| 0 <= j < corpus@.len() ==> (#[trigger] corpus@[j]).word_seq().len() == p.words,
        p.words * corpus@.len() <= u64::MAX,
    ensures
        outcome_spec(query.word_seq(), views(corpus@), p, r),
{
    let ghost q = query.word_seq();
    let ghost cs = views(corpus@);
    let n = corpus.len();
    let qw = query.word_slice();
    let w2 = p.stage2_words;
    let words = p.words;
    let mut matches: Vec<ResonanceMatch> = Vec::new();
    let mut distribution = HdrDistribution::default();
    let mut instructions: u64 = 0;
    let mut s1_survivors: usize = 0;
    let mut s2_survivors: usize = 0;
    let mut idx: usize = 0;
    let mut done = false;
    proof {
        lemma_stop_from_bounds(q, cs, p, 0);
    }
    while idx < n && !done
        invariant
            n == corpus@.len(),
            cs == views(corpus@),
            cs.len() == n,
            q == query.word_seq(),
            qw@ == q,
            w2 == p.stage2_words,
            words == p.words,
            params_wf(p),
            q.len() == p.words,
            forall|j: int| 0 <= j < n ==> (#[trigger] corpus@[j]).word_seq().len() == p.words,
            p.words * n <= u64::MAX,
            idx <= n,
            matches@ == hits(q, cs, p, idx as int),
            s1_survivors == stage1_count(q, cs, p, idx as int),
            s2_survivors == stage3_count(q, cs, p, idx as int),
            instructions == instruction_count(q, cs, p, idx as int),
            forall|t: int| 0 <= t < 7 ==> #[trigger] distribution.counts@[t] == exposure_count(
                q,
                cs,
                p,
                idx as int,
                t,
            ),
            done ==> scanned(q, cs, p) == idx,
            !done ==> scanned(q, cs, p) == stop_from(q, cs, p, idx as int),
            !done && p.limit > 0 ==> matches@.len() < p.limit,
        decreases n - idx,
    {
        let c = &corpus[idx];
        let cw = c.word_slice();
        let ghost cv = cs[idx as int];
        assert(cv == corpus@[idx as int].word_seq());
        proof {
            lemma_stage_counts_le(q, cs, p, idx as int);
            lemma_hamming_range_le(q, cv, 0, 1);
            lemma_hamming_range_le(q, cv, 0, w2 as int);
            lemma_hamming_range_split(q, cv, 0, 1, w2 as int);
            lemma_hamming_range_split(q, cv, 0, w2 as int, words as int);
            lemma_hits_index_bound(q, cs, p, idx as int);
            lemma_stage_counts_le(q, cs, p, idx as int + 1);
            lemma_instruction_bound(
                idx as int + 1,
                w2 as int,
                words as int,
                stage1_count(q, cs, p, idx as int + 1) as int,
                stage3_count(q, cs, p, idx as int + 1) as int,
            );
            assert(words * (idx + 1) <= words * n) by (nonlinear_arith)
                requires
                    idx + 1 <= n,
                    0 <= words,
            ;
            lemma_mul_step((w2 - 1) as int, s1_survivors as int);
            lemma_mul_step((words - w2) as int, s2_survivors as int);
        }
        // Stage 1: spot metering, one word.
        let d64 = add_range_distance(qw, cw, 0, 1, 0);
        instructions = instructions + 1;
        if d64 <= p.stage1_threshold {
            s1_survivors = s1_survivors + 1;
            // Stage 2: center-weighted, the first `w2` words.
            let d_center = add_range_distance(qw, cw, 1, w2, d64);
            instructions = instructions + (w2 - 1) as u64;
            if d_center <= p.stage2_threshold {
                s2_survivors = s2_survivors + 1;
                // Stage 3: matrix metering, every word.
                let full = add_range_distance(qw, cw, w2, words, d_center);
                instructions = instructions + (words - w2) as u64;
                let score = p.hdr.score(full);
                let ghost before = distribution.counts@;
                distribution.record(&score);
                proof {
                    let t = exposure(p.hdr, full as int);
                    assert forall|u: int| 0 <= u < 7 implies #[trigger] distribution.counts@[u]
                        == exposure_count(q, cs, p, idx as int + 1, u) by {
                        if u == t {
                        } else {
                            assert(distribution.counts@[u] == before[u]);
                        }
                    }
                }
                if full < p.threshold {
                    matches.push(ResonanceMatch { index: idx, distance: full, hdr: score });
                    if p.limit > 0 && matches.len() >= p.limit {
                        done = true;
                    }
                }
            }
        }
        idx = idx + 1;
    }
    proof {
        lemma_hits_index_bound(q, cs, p, idx as int);
    }
    let sorted = sort_matches(matches);
    SweepOutcome {
        matches: sorted,
        distribution,
        stage1_survivors: s1_survivors,
        stage2_survivors: s2_survivors,
        instructions,
    }
}

} // verus!
