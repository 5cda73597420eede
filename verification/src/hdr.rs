//! HDR exposure scoring: attention without softmax.
//!
//! Three exposure levels capture the resonance spectrum of a distance `dist`
//! over `d` bits:
//! - Hot  (3 points): dist < 10% of d, a blazing match
//! - Mid  (2 points): dist < 30% of d, a solid match
//! - Cold (1 point):  dist < 49% of d, a weak signal
//! - None (0 points): dist >= 49% of d, noise
//!
//! The HDR score (0 to 6) replaces softmax attention weights.
use vstd::prelude::*;
use crate::HdrScore;

verus! {

/// Hot threshold for 8192-bit containers: a distance is below 10% of the
/// bits (819.2) exactly when it is below 820.
pub const HDR_HOT_THRESHOLD: u32 = 820;
/// Mid threshold for 8192-bit containers: below 30% (2457.6) exactly when
/// below 2458.
pub const HDR_MID_THRESHOLD: u32 = 2458;
/// Cold threshold for 8192-bit containers: below 49% (4014.08) exactly when
/// below 4015.
pub const HDR_COLD_THRESHOLD: u32 = 4015;

/// Configurable HDR thresholds.
#[derive(Debug, Clone, Copy)]
pub struct HdrConfig {
    pub hot: u32,
    pub mid: u32,
    pub cold: u32,
}

/// Exposure score of `dist` under thresholds `cfg`.
pub open spec fn score_of(cfg: HdrConfig, dist: int) -> HdrScore {
    HdrScore {
        hot: if dist < cfg.hot { 3 } else { 0 },
        mid: if dist < cfg.mid { 2 } else { 0 },
        cold: if dist < cfg.cold { 1 } else { 0 },
    }
}

impl Default for HdrConfig {
    /// Thresholds for 8192-bit containers: 820, 2458, 4015.
    fn default() -> (r: Self)
        ensures
            r.hot == HDR_HOT_THRESHOLD,
            r.mid == HDR_MID_THRESHOLD,
            r.cold == HDR_COLD_THRESHOLD,
    {
        Self { hot: HDR_HOT_THRESHOLD, mid: HDR_MID_THRESHOLD, cold: HDR_COLD_THRESHOLD }
    }
}

impl HdrConfig {
    /// Thresholds for a `d`-bit space: 10%, 30% and 49% of `d`, rounded up,
    /// so that `dist < threshold` holds exactly when `dist` is below that
    /// share of `d`.
    pub fn for_bits(d: u32) -> (r: Self)
        ensures
            r.hot == (d + 9) / 10,
            r.mid == (3 * d + 9) / 10,
            r.cold == (49 * d + 99) / 100,
    {
        let wide = d as u64;
        let hot = ((wide + 9) / 10) as u32;
        let mid = ((wide * 3 + 9) / 10) as u32;
        let cold = ((wide * 49 + 99) / 100) as u32;
        Self { hot, mid, cold }
    }

    /// Score a single Hamming distance.
    pub fn score(&self, dist: u32) -> (r: HdrScore)
        ensures
            r == score_of(*self, dist as int),
    {
        HdrScore {
            hot: if dist < self.hot { 3 } else { 0 },
            mid: if dist < self.mid { 2 } else { 0 },
            cold: if dist < self.cold { 1 } else { 0 },
        }
    }
}

/// Histogram of HDR totals across a sweep: `counts[t]` is the number of
/// recorded scores whose total is `t`.
#[derive(Debug)]
pub struct HdrDistribution {
    pub counts: [usize; 7],
}

impl Default for HdrDistribution {
    /// The empty histogram.
    fn default() -> (r: Self)
        ensures
            forall|t: int| 0 <= t < 7 ==> #[trigger] r.counts@[t] == 0,
    {
        HdrDistribution { counts: [0usize; 7] }
    }
}

impl HdrDistribution {
    /// Count one score under its total; a total of 7 or more is not counted.
    pub fn record(&mut self, score: &HdrScore)
        requires
            score.hot + score.mid + score.cold <= 255,
            score.hot + score.mid + score.cold < 7 ==> old(self).counts@[score.hot + score.mid
                + score.cold] < usize::MAX,
        ensures
            ({
                let t = score.hot + score.mid + score.cold;
                if t < 7 {
                    final(self).counts@ == old(self).counts@.update(t, (old(self).counts@[t] + 1) as usize)
                } else {
                    final(self).counts@ == old(self).counts@
                }
            }),
    {
        let total = score.total() as usize;
        if total < 7 {
            self.counts[total] = self.counts[total] + 1;
        }
    }
}

/// Scores are in 0..=6, and only the totals 0, 1, 3 and 6 occur when the
/// thresholds are ordered `hot <= mid <= cold`.
pub proof fn lemma_score_bands(cfg: HdrConfig, dist: int)
    requires
        cfg.hot <= cfg.mid <= cfg.cold,
    ensures
        ({
            let s = score_of(cfg, dist);
            let t = s.hot + s.mid + s.cold;
            &&& t <= 6
            &&& t == 0 || t == 1 || t == 3 || t == 6
            &&& t == 6 <==> dist < cfg.hot
            &&& t == 0 <==> dist >= cfg.cold
        }),
{
}

/// Exposure never increases with distance: a closer container scores at
/// least as high as a farther one.
pub proof fn lemma_score_monotone(cfg: HdrConfig, d1: int, d2: int)
    requires
        d1 <= d2,
    ensures
        ({
            let s1 = score_of(cfg, d1);
            let s2 = score_of(cfg, d2);
            s1.hot + s1.mid + s1.cold >= s2.hot + s2.mid + s2.cold
        }),
{
}

/// Scoring with `HdrConfig::for_bits(d)` gives the same score as
/// `HdrScore::from_hamming(dist, d)`.
pub proof fn lemma_for_bits_matches_from_hamming(d: u32, dist: u32)
    ensures
        score_of(
            HdrConfig {
                hot: ((d + 9) / 10) as u32,
                mid: ((3 * d + 9) / 10) as u32,
                cold: ((49 * d + 99) / 100) as u32,
            },
            dist as int,
        ) == HdrScore::from_hamming_spec(dist, d),
{
}

/// The default thresholds are the exact 10% / 30% / 49% bands of 8192 bits:
/// `HdrConfig::default()` scores every distance as `from_hamming(dist, 8192)`.
pub proof fn lemma_default_bands_exact(dist: u32)
    ensures
        score_of(
            HdrConfig { hot: HDR_HOT_THRESHOLD, mid: HDR_MID_THRESHOLD, cold: HDR_COLD_THRESHOLD },
            dist as int,
        ) == HdrScore::from_hamming_spec(dist, 8192),
{
}

} // verus!
