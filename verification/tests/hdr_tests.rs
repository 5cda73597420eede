use vsaclip::hdr::{HdrConfig, HdrDistribution, HDR_COLD_THRESHOLD, HDR_HOT_THRESHOLD, HDR_MID_THRESHOLD};
use vsaclip::HdrScore;

#[test]
fn test_hdr_scoring_bands() {
    let cfg = HdrConfig::default();

    // Blazing
    let s = cfg.score(100);
    assert_eq!(s.total(), 6);

    // Solid
    let s = cfg.score(1500);
    assert_eq!(s.total(), 3); // mid + cold

    // Weak
    let s = cfg.score(3500);
    assert_eq!(s.total(), 1); // cold only

    // Noise
    let s = cfg.score(5000);
    assert_eq!(s.total(), 0);
}

#[test]
fn default_thresholds_are_the_8192_bit_bands() {
    let cfg = HdrConfig::default();
    assert_eq!((cfg.hot, cfg.mid, cfg.cold), (820, 2458, 4015));
    assert_eq!((HDR_HOT_THRESHOLD, HDR_MID_THRESHOLD, HDR_COLD_THRESHOLD), (820, 2458, 4015));
}

#[test]
fn for_bits_uses_ten_thirty_and_forty_nine_percent() {
    let c = HdrConfig::for_bits(8192);
    assert_eq!((c.hot, c.mid, c.cold), (820, 2458, 4015));
    let w = HdrConfig::for_bits(16384);
    assert_eq!((w.hot, w.mid, w.cold), (1639, 4916, 8029));
    let t = HdrConfig::for_bits(100);
    assert_eq!((t.hot, t.mid, t.cold), (10, 30, 49));
    let z = HdrConfig::for_bits(0);
    assert_eq!((z.hot, z.mid, z.cold), (0, 0, 0));
    let big = HdrConfig::for_bits(u32::MAX);
    assert_eq!(big.hot, ((u32::MAX as u64 + 9) / 10) as u32);
    assert_eq!(big.mid, ((u32::MAX as u64) * 3 / 10 + 1) as u32);
    assert_eq!(big.cold, ((u32::MAX as u64) * 49 / 100 + 1) as u32);
}

#[test]
fn score_band_edges() {
    let cfg = HdrConfig::default();
    assert_eq!(cfg.score(819), HdrScore { hot: 3, mid: 2, cold: 1 });
    assert_eq!(cfg.score(820), HdrScore { hot: 0, mid: 2, cold: 1 });
    assert_eq!(cfg.score(2457), HdrScore { hot: 0, mid: 2, cold: 1 });
    assert_eq!(cfg.score(2458).total(), 1);
    assert_eq!(cfg.score(4014).total(), 1);
    assert_eq!(cfg.score(4015).total(), 0);
}

#[test]
fn from_hamming_agrees_with_for_bits_score() {
    for d in [0u32, 10, 64, 8192, 16384, 65536, 1_000_000] {
        let cfg = HdrConfig::for_bits(d);
        for dist in [0u32, 1, d / 10, d / 4, d / 2, d] {
            assert_eq!(HdrScore::from_hamming(dist, d), cfg.score(dist));
        }
    }
}

#[test]
fn from_hamming_exact_values() {
    assert_eq!(HdrScore::from_hamming(100, 8192), HdrScore { hot: 3, mid: 2, cold: 1 });
    assert_eq!(HdrScore::from_hamming(3000, 8192), HdrScore { hot: 0, mid: 0, cold: 1 });
    assert_eq!(HdrScore::from_hamming(2457, 8192), HdrScore { hot: 0, mid: 2, cold: 1 });
    assert_eq!(HdrScore::from_hamming(4014, 8192).total(), 1);
    assert_eq!(HdrScore::from_hamming(4015, 8192).total(), 0);
    assert_eq!(HdrScore::from_hamming(10, 100), HdrScore { hot: 0, mid: 2, cold: 1 });
    assert_eq!(HdrScore::from_hamming(9, 100), HdrScore { hot: 3, mid: 2, cold: 1 });
}

#[test]
fn closer_never_scores_lower() {
    let cfg = HdrConfig::default();
    let mut prev = 7u8;
    for dist in 0..9000u32 {
        let t = cfg.score(dist).total();
        assert!(t <= prev);
        assert!(t == 0 || t == 1 || t == 3 || t == 6);
        prev = t;
    }
}

#[test]
fn distribution_records_totals() {
    let mut d = HdrDistribution::default();
    let cfg = HdrConfig::default();
    for dist in [100u32, 200, 1500, 3500, 5000, 6000, 7000] {
        d.record(&cfg.score(dist));
    }
    assert_eq!(d.counts, [3, 1, 0, 1, 0, 0, 2]);
    // A total above 6 is not counted.
    d.record(&HdrScore { hot: 3, mid: 3, cold: 3 });
    assert_eq!(d.counts, [3, 1, 0, 1, 0, 0, 2]);
}
