//! Wide HDR POPCNT sweep: the same three-stage early-exit algorithm on
//! 16384-bit wide containers:
//!
//! | Stage | Bits  | Words |
//! |-------|-------|-------|
//! | 1     | 64    | 1     |
//! | 2     | 1024  | 16    |
//! | 3     | 16384 | 256   |
//!
//! Stage 2 is wider (1024 vs 512 bits) because 16384-bit containers have
//! more variance at small sample sizes.
use vstd::prelude::*;
use crate::wide_container::WideContainer;
use crate::hdr::{HdrConfig, HdrDistribution, score_of};
use crate::staged::{
    SweepParams, early_exit_sweep, hits, exact_hits, scanned, views, sorted_matches, match_before,
    stage1_count, stage3_count, instruction_count, exposure_count, lemma_sorted_prefix,
    sort_of, lemma_sort_of, is_hit, match_at, scaled_threshold, scaled_threshold_spec,
};
use crate::ResonanceMatch;

verus! {

broadcast use vstd::seq_lib::group_to_multiset_ensures;

/// Configuration of the wide sweep engine.
///
/// The two early-exit thresholds are the match threshold scaled to the
/// stage width (64 of 16384 bits for stage 1, 1024 of 16384 for stage 2)
/// and widened by the safety margin `safety_num / safety_den`, rounded down.
#[derive(Debug, Clone, Copy)]
pub struct WideSweepConfig {
    /// Hamming distance threshold for match acceptance.
    pub threshold: u32,
    /// Numerator of the early-exit safety margin.
    pub safety_num: u32,
    /// Denominator of the early-exit safety margin (positive).
    pub safety_den: u32,
    /// HDR exposure configuration.
    pub hdr: HdrConfig,
    /// Maximum results to return (0 = unlimited).
    pub limit: usize,
}

impl WideSweepConfig {
    /// The sweep parameters for 256-word containers with a 16-word stage 2.
    pub open spec fn params(self) -> SweepParams {
        SweepParams {
            words: 256,
            stage2_words: 16,
            threshold: self.threshold,
            stage1_threshold: scaled_threshold_spec(self.threshold, 64, 16384, self.safety_num, self.safety_den),
            stage2_threshold: scaled_threshold_spec(self.threshold, 1024, 16384, self.safety_num, self.safety_den),
            hdr: self.hdr,
            limit: self.limit,
        }
    }

    /// The parameters of `wide_cutoff_sweep`: both stages keep the partial
    /// distances below the match threshold.
    pub open spec fn cutoff_params(self) -> SweepParams {
        SweepParams {
            stage1_threshold: if self.threshold == 0 { 0 } else { (self.threshold - 1) as u32 },
            stage2_threshold: if self.threshold == 0 { 0 } else { (self.threshold - 1) as u32 },
            ..self.params()
        }
    }

    /// The stage-1 and stage-2 early-exit thresholds.
    pub fn stage_thresholds(&self) -> (r: (u32, u32))
        requires
            self.safety_den > 0,
        ensures
            r.0 == self.params().stage1_threshold,
            r.1 == self.params().stage2_threshold,
    {
        (
            scaled_threshold(self.threshold, 64, 16384, self.safety_num, self.safety_den),
            scaled_threshold(self.threshold, 1024, 16384, self.safety_num, self.safety_den),
        )
    }

    /// Wide sweep configuration for `threshold` with the 16384-bit exposure
    /// bands, no result limit and a safety margin of 3/2: stage 1 keeps
    /// distances up to 3 x threshold / 512, stage 2 up to 3 x threshold / 32.
    pub fn with_threshold(threshold: u32) -> (r: Self)
        ensures
            r.threshold == threshold,
            r.safety_num == 3,
            r.safety_den == 2,
            r.params().stage1_threshold == (3 * threshold) / 512,
            r.params().stage2_threshold == (3 * threshold) / 32,
            r.hdr.hot == 1639,
            r.hdr.mid == 4916,
            r.hdr.cold == 8029,
            r.limit == 0,
    {
        WideSweepConfig {
            threshold,
            safety_num: 3,
            safety_den: 2,
            hdr: HdrConfig::for_bits(16384),
            limit: 0,
        }
    }
}

impl Default for WideSweepConfig {
    /// Threshold 4915 (30% of 16384 bits), safety margin 3/2, exposure
    /// bands for 16384 bits, no limit.
    fn default() -> (r: Self)
        ensures
            r.threshold == 4915,
            r.safety_num == 3,
            r.safety_den == 2,
            r.params().stage1_threshold == 28,
            r.params().stage2_threshold == 460,
            r.hdr.hot == 1639,
            r.hdr.mid == 4916,
            r.hdr.cold == 8029,
            r.limit == 0,
    {
        Self::with_threshold(4915)
    }
}

/// Result of a wide sweep.
#[derive(Debug)]
pub struct WideSweepResult {
    pub matches: Vec<ResonanceMatch>,
    pub distribution: HdrDistribution,
    pub containers_scanned: usize,
    pub stage1_survivors: usize,
    pub stage2_survivors: usize,
    pub instructions: u64,
}

/// Matches of an HDR sweep of `corpus` with `config`, in corpus order,
/// before sorting.
pub open spec fn wide_sweep_hits(query: WideContainer, corpus: Seq<WideContainer>, config: WideSweepConfig) -> Seq<
    ResonanceMatch,
> {
    let q = query.words@;
    let cs = views(corpus);
    hits(q, cs, config.params(), scanned(q, cs, config.params()))
}

/// Matches of a sweep of `corpus` with `config`, in (distance, index)
/// order: what the sweep returns.
pub open spec fn wide_sweep_matches(query: WideContainer, corpus: Seq<WideContainer>, config: WideSweepConfig) -> Seq<ResonanceMatch> {
    sort_of(wide_sweep_hits(query, corpus, config))
}

/// Matches of a cutoff sweep of `corpus` with `config`, in corpus order.
pub open spec fn wide_cutoff_hits(query: WideContainer, corpus: Seq<WideContainer>, config: WideSweepConfig) -> Seq<
    ResonanceMatch,
> {
    let q = query.words@;
    let cs = views(corpus);
    hits(q, cs, config.cutoff_params(), scanned(q, cs, config.cutoff_params()))
}

/// Exact sweep parameters for `threshold` with the default exposure bands.
pub open spec fn wide_exact_params(threshold: u32) -> SweepParams {
    SweepParams {
        words: 256,
        stage2_words: 16,
        threshold,
        stage1_threshold: 0,
        stage2_threshold: 0,
        hdr: HdrConfig { hot: 1639, mid: 4916, cold: 8029 },
        limit: 0,
    }
}

/// Matches of the full (no early exit) sweep, in corpus order.
pub open spec fn wide_full_sweep_hits(query: WideContainer, corpus: Seq<WideContainer>, threshold: u32) -> Seq<
    ResonanceMatch,
> {
    exact_hits(query.words@, views(corpus), wide_exact_params(threshold), corpus.len() as int)
}

proof fn lemma_views_len(corpus: Seq<WideContainer>)
    ensures
        views(corpus).len() == corpus.len(),
        forall|j: int| 0 <= j < corpus.len() ==> (#[trigger] corpus[j]).words@.len() == 256,
{
}

/// Three-stage HDR POPCNT sweep on 16384-bit wide containers.
///
/// Finds the containers within `config.threshold` of `query` that survive
/// both metering stages, sorted by distance (ties by index), scanning until
/// `config.limit` matches are found when the limit is positive.
pub fn wide_hdr_sweep(query: &WideContainer, corpus: &[WideContainer], config: &WideSweepConfig) -> (r: WideSweepResult)
    requires
        config.safety_den > 0,
        256 * corpus@.len() <= u64::MAX,
    ensures
        ({
            let q = query.words@;
            let cs = views(corpus@);
            let p = config.params();
            let m = scanned(q, cs, p);
            &&& r.containers_scanned == corpus@.len()
            &&& r.matches@ == wide_sweep_matches(*query, corpus@, *config)
            &&& sorted_matches(r.matches@)
            &&& r.matches@.to_multiset() == hits(q, cs, p, m).to_multiset()
            &&& r.stage1_survivors == stage1_count(q, cs, p, m)
            &&& r.stage2_survivors == stage3_count(q, cs, p, m)
            &&& r.instructions == instruction_count(q, cs, p, m)
            &&& forall|t: int|
                0 <= t < 7 ==> #[trigger] r.distribution.counts@[t] == exposure_count(q, cs, p, m, t)
            &&& r.instructions == m + 15 * r.stage1_survivors + 240 * r.stage2_survivors
            &&& r.stage2_survivors <= r.stage1_survivors <= m <= r.containers_scanned
            &&& r.matches@.len() <= r.stage2_survivors
            &&& r.distribution.counts@[0] + r.distribution.counts@[1] + r.distribution.counts@[2]
                + r.distribution.counts@[3] + r.distribution.counts@[4] + r.distribution.counts@[5]
                + r.distribution.counts@[6] == r.stage2_survivors
            &&& (config.limit == 0 ==> m == corpus@.len())
        }),
{
    let (s1, s2) = config.stage_thresholds();
    let p = SweepParams {
        words: 256,
        stage2_words: 16,
        threshold: config.threshold,
        stage1_threshold: s1,
        stage2_threshold: s2,
        hdr: config.hdr,
        limit: config.limit,
    };
    proof {
        lemma_views_len(corpus@);
    }
    let out = early_exit_sweep(query, corpus, p);
    proof {
        let q = query.words@;
        let cs = views(corpus@);
        lemma_sort_of(out.matches@, hits(q, cs, p, scanned(q, cs, p)));
        crate::staged::lemma_stop_from_bounds_pub(q, cs, p);
        crate::staged::lemma_stage_accounting(q, cs, p, scanned(q, cs, p));
        if config.limit == 0 {
            crate::staged::lemma_scanned_unlimited(q, cs, p);
        }
        out.matches@.to_multiset_ensures();
        hits(q, cs, p, scanned(q, cs, p)).to_multiset_ensures();
    }
    WideSweepResult {
        matches: out.matches,
        distribution: out.distribution,
        containers_scanned: corpus.len(),
        stage1_survivors: out.stage1_survivors,
        stage2_survivors: out.stage2_survivors,
        instructions: out.instructions,
    }
}

/// Wide HDR POPCNT sweep whose metering stages keep exactly the partial
/// distances below `config.threshold`: a stage drops a container only when
/// its distance can no longer fall below the threshold, so no match is
/// missed.  The safety margin of `config` is not used.
pub fn wide_cutoff_sweep(query: &WideContainer, corpus: &[WideContainer], config: &WideSweepConfig) -> (r: WideSweepResult)
    requires
        256 * corpus@.len() <= u64::MAX,
    ensures
        ({
            let q = query.words@;
            let cs = views(corpus@);
            let p = config.cutoff_params();
            let m = scanned(q, cs, p);
            &&& r.containers_scanned == corpus@.len()
            &&& r.matches@ == sort_of(wide_cutoff_hits(*query, corpus@, *config))
            &&& sorted_matches(r.matches@)
            &&& r.matches@.to_multiset() == hits(q, cs, p, m).to_multiset()
            &&& r.stage1_survivors == stage1_count(q, cs, p, m)
            &&& r.stage2_survivors == stage3_count(q, cs, p, m)
            &&& r.instructions == instruction_count(q, cs, p, m)
            &&& forall|t: int|
                0 <= t < 7 ==> #[trigger] r.distribution.counts@[t] == exposure_count(q, cs, p, m, t)
            &&& r.instructions == m + 15 * r.stage1_survivors + 240 * r.stage2_survivors
            &&& r.stage2_survivors <= r.stage1_survivors <= m <= r.containers_scanned
            &&& r.matches@.len() <= r.stage2_survivors
            &&& r.distribution.counts@[0] + r.distribution.counts@[1] + r.distribution.counts@[2]
                + r.distribution.counts@[3] + r.distribution.counts@[4] + r.distribution.counts@[5]
                + r.distribution.counts@[6] == r.stage2_survivors
            &&& (config.limit == 0 ==> m == corpus@.len())
        }),
{
    let t = if config.threshold == 0 { 0 } else { config.threshold - 1 };
    let p = SweepParams {
        words: 256,
        stage2_words: 16,
        threshold: config.threshold,
        stage1_threshold: t,
        stage2_threshold: t,
        hdr: config.hdr,
        limit: config.limit,
    };
    proof {
        lemma_views_len(corpus@);
    }
    let out = early_exit_sweep(query, corpus, p);
    proof {
        let q = query.words@;
        let cs = views(corpus@);
        lemma_sort_of(out.matches@, hits(q, cs, p, scanned(q, cs, p)));
        crate::staged::lemma_stop_from_bounds_pub(q, cs, p);
        crate::staged::lemma_stage_accounting(q, cs, p, scanned(q, cs, p));
        if config.limit == 0 {
            crate::staged::lemma_scanned_unlimited(q, cs, p);
        }
        out.matches@.to_multiset_ensures();
        hits(q, cs, p, scanned(q, cs, p)).to_multiset_ensures();
    }
    WideSweepResult {
        matches: out.matches,
        distribution: out.distribution,
        containers_scanned: corpus.len(),
        stage1_survivors: out.stage1_survivors,
        stage2_survivors: out.stage2_survivors,
        instructions: out.instructions,
    }
}

/// The `k` best matches of a wide sweep with `WideSweepConfig::with_threshold(threshold)`:
/// the best `min(k, matches)` sweep matches in (distance, index) order.
pub fn wide_top_k(query: &WideContainer, corpus: &[WideContainer], k: usize, threshold: u32) -> (r: Vec<
    ResonanceMatch,
>)
    requires
        256 * corpus@.len() <= u64::MAX,
    ensures
        ({
            let h = hits(
                query.words@,
                views(corpus@),
                WideSweepConfig {
                    threshold,
                    safety_num: 3,
                    safety_den: 2,
                    hdr: HdrConfig { hot: 1639, mid: 4916, cold: 8029 },
                    limit: 0,
                }.params(),
                corpus@.len() as int,
            );
            &&& r@ == wide_sweep_matches(*query, corpus@, (WideSweepConfig {
                    threshold,
                    safety_num: 3,
                    safety_den: 2,
                    hdr: HdrConfig { hot: 1639, mid: 4916, cold: 8029 },
                    limit: 0,
                })).take(
                if k < h.len() { k as int } else { h.len() as int },
            )
            &&& sorted_matches(r@)
            &&& r@.len() == if k < h.len() { k as int } else { h.len() as int }
            &&& forall|i: int| 0 <= i < r@.len() ==> h.contains(#[trigger] r@[i])
            &&& forall|x: ResonanceMatch|
                h.contains(x) && !r@.contains(x) ==> forall|i: int|
                    0 <= i < r@.len() ==> match_before(#[trigger] r@[i], x)
        }),
{
    let config = WideSweepConfig::with_threshold(threshold);
    let result = wide_hdr_sweep(query, corpus, &config);
    let mut matches = result.matches;
    let ghost q = query.words@;
    let ghost cs = views(corpus@);
    let ghost p = config.params();
    let ghost s = matches@;
    let ghost kk = if k < s.len() { k as int } else { s.len() as int };
    proof {
        assert(config.hdr == HdrConfig { hot: 1639, mid: 4916, cold: 8029 });
        assert(p == WideSweepConfig {
            threshold,
            safety_num: 3,
            safety_den: 2,
            hdr: HdrConfig { hot: 1639, mid: 4916, cold: 8029 },
            limit: 0,
        }.params());
        lemma_views_len(corpus@);
        crate::staged::lemma_scanned_unlimited(q, cs, p);
        lemma_sorted_prefix(s, hits(q, cs, p, cs.len() as int), kk);
    }
    matches.truncate(k);
    proof {
        assert(matches@ =~= s.take(kk));
        assert(s.to_multiset().len() == hits(q, cs, p, cs.len() as int).to_multiset().len());
        assert(sorted_matches(matches@));
    }
    matches
}

/// Full wide sweep with no early exit: every container closer than
/// `threshold`, in corpus order, scored with the 16384-bit exposure bands.
pub fn wide_full_sweep(query: &WideContainer, corpus: &[WideContainer], threshold: u32) -> (r: Vec<ResonanceMatch>)
    ensures
        r@ == wide_full_sweep_hits(*query, corpus@, threshold),
{
    let hdr = HdrConfig::for_bits(16384);
    let ghost q = query.words@;
    let ghost cs = views(corpus@);
    let ghost p = wide_exact_params(threshold);
    let mut out: Vec<ResonanceMatch> = Vec::new();
    let n = corpus.len();
    proof {
        lemma_views_len(corpus@);
    }
    for idx in 0..n
        invariant
            n == corpus@.len(),
            q == query.words@,
            cs == views(corpus@),
            p == wide_exact_params(threshold),
            hdr.hot == 1639,
            hdr.mid == 4916,
            hdr.cold == 8029,
            out@ == exact_hits(q, cs, p, idx as int),
    {
        let dist = query.hamming(&corpus[idx]);
        assert(cs[idx as int] == corpus@[idx as int].words@);
        if dist < threshold {
            out.push(ResonanceMatch { index: idx, distance: dist, hdr: hdr.score(dist) });
        }
    }
    out
}

/// No false positives: every match of `wide_hdr_sweep` (with the bands of
/// `wide_full_sweep`) is a match of `wide_full_sweep` with the same index, distance and
/// exposure.
pub proof fn lemma_sweep_no_false_positives(query: WideContainer, corpus: Seq<WideContainer>, config: WideSweepConfig)
    requires
        config.hdr == (HdrConfig { hot: 1639, mid: 4916, cold: 8029 }),
    ensures
        forall|i: int|
            0 <= i < wide_sweep_hits(query, corpus, config).len() ==> wide_full_sweep_hits(
                query,
                corpus,
                config.threshold,
            ).contains(#[trigger] wide_sweep_hits(query, corpus, config)[i]),
{
    let q = query.words@;
    let cs = views(corpus);
    let p = config.params();
    let m = scanned(q, cs, p);
    crate::staged::lemma_stop_from_bounds_pub(q, cs, p);
    crate::staged::lemma_hits_within_exact(q, cs, p, m);
    crate::staged::lemma_exact_hits_grow(q, cs, p, m, cs.len() as int);
    crate::staged::lemma_exact_hits_params(q, cs, p, wide_exact_params(config.threshold), cs.len() as int);
}

/// Zero false negatives when metering cannot reject: with no result limit,
/// a stage-1 threshold of at least 64 and a stage-2 threshold of at least
/// 1024 (the stage widths in bits), the sweep finds exactly the matches of
/// `wide_full_sweep`.
pub proof fn lemma_sweep_complete_when_permissive(query: WideContainer, corpus: Seq<WideContainer>, config: WideSweepConfig)
    requires
        config.hdr == (HdrConfig { hot: 1639, mid: 4916, cold: 8029 }),
        config.limit == 0,
        config.params().stage1_threshold >= 64,
        config.params().stage2_threshold >= 1024,
    ensures
        wide_sweep_hits(query, corpus, config) == wide_full_sweep_hits(
            query,
            corpus,
            config.threshold,
        ),
{
    let q = query.words@;
    let cs = views(corpus);
    let p = config.params();
    crate::staged::lemma_scanned_unlimited(q, cs, p);
    crate::staged::lemma_permissive_stages_exact(q, cs, p, cs.len() as int);
    crate::staged::lemma_exact_hits_params(q, cs, p, wide_exact_params(config.threshold), cs.len() as int);
}

/// Without a result limit, a container closer than the threshold that
/// survives both metering stages is always among the sweep matches.
pub proof fn lemma_sweep_finds_metered_match(query: WideContainer, corpus: Seq<WideContainer>, config: WideSweepConfig, j: int)
    requires
        config.limit == 0,
        0 <= j < corpus.len(),
        is_hit(query.words@, views(corpus)[j], config.params()),
    ensures
        wide_sweep_hits(query, corpus, config).contains(
            match_at(query.words@, views(corpus), config.params(), j),
        ),
{
    let q = query.words@;
    let cs = views(corpus);
    let p = config.params();
    crate::staged::lemma_scanned_unlimited(q, cs, p);
    crate::staged::lemma_metered_match_found(q, cs, p, cs.len() as int, j);
}

/// Zero false negatives of the wide cutoff sweep: with no result limit it
/// finds exactly the matches of `wide_full_sweep`.
pub proof fn lemma_cutoff_complete(query: WideContainer, corpus: Seq<WideContainer>, config: WideSweepConfig)
    requires
        config.hdr == (HdrConfig { hot: 1639, mid: 4916, cold: 8029 }),
        config.limit == 0,
    ensures
        wide_cutoff_hits(query, corpus, config) == wide_full_sweep_hits(query, corpus, config.threshold),
{
    let q = query.words@;
    let cs = views(corpus);
    let p = config.cutoff_params();
    crate::staged::lemma_scanned_unlimited(q, cs, p);
    crate::staged::lemma_cutoff_stages_exact(q, cs, p, cs.len() as int);
    crate::staged::lemma_exact_hits_params(q, cs, p, wide_exact_params(config.threshold), cs.len() as int);
}

/// The sweep never issues more POPCNT instructions than the 256 per
/// scanned container of a full sweep.
pub proof fn lemma_sweep_instructions_bound(query: WideContainer, corpus: Seq<WideContainer>, config: WideSweepConfig)
    ensures
        instruction_count(
            query.words@,
            views(corpus),
            config.params(),
            scanned(query.words@, views(corpus), config.params()),
        ) <= 256 * scanned(query.words@, views(corpus), config.params()),
{
    let q = query.words@;
    let cs = views(corpus);
    let p = config.params();
    crate::staged::lemma_stop_from_bounds_pub(q, cs, p);
    crate::staged::lemma_instructions_at_most_exact(q, cs, p, scanned(q, cs, p));
}

} // verus!
