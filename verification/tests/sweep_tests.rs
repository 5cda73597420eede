use vsaclip::container::Container;
use vsaclip::sweep::{cutoff_sweep, false_negatives, full_sweep, hdr_sweep, top_k, SweepConfig};
use vsaclip::{HdrScore, ResonanceMatch};
use vsaclip::wide_container::WideContainer;
use vsaclip::wide_sweep::{wide_cutoff_sweep, wide_full_sweep, wide_hdr_sweep, wide_top_k, WideSweepConfig};
use vsaclip::{CONTAINER_BITS, CONTAINER_WORDS, WIDE_BITS, WIDE_WORDS};

fn make_near(reference: &Container, target_dist: usize) -> Container {
    let mut c = reference.clone();
    // Flip specific bits to achieve approximate target distance
    let mut rng_state = target_dist as u64 ^ 0xDEADBEEF;
    let mut flipped = 0;
    while flipped < target_dist {
        rng_state ^= rng_state << 13;
        rng_state ^= rng_state >> 7;
        rng_state ^= rng_state << 17;
        let bit = (rng_state as usize) % CONTAINER_BITS;
        let word = bit / 64;
        let pos = bit % 64;
        c.words[word] ^= 1u64 << pos;
        flipped += 1;
    }
    c
}

fn make_near_wide(reference: &WideContainer, target_dist: usize) -> WideContainer {
    let mut c = reference.clone();
    let mut rng_state = target_dist as u64 ^ 0xDEADBEEF;
    let mut flipped = 0;
    while flipped < target_dist {
        rng_state ^= rng_state << 13;
        rng_state ^= rng_state >> 7;
        rng_state ^= rng_state << 17;
        let bit = (rng_state as usize) % WIDE_BITS;
        let word = bit / 64;
        let pos = bit % 64;
        c.words[word] ^= 1u64 << pos;
        flipped += 1;
    }
    c
}

#[test]
fn test_hdr_sweep_finds_planted_matches() {
    let query = Container::random(42);
    let threshold = 2500u32;

    // Build corpus: 1000 random + 5 planted near matches
    let mut corpus: Vec<Container> = (0..1000u64).map(|s| Container::random(s + 1000)).collect();

    // Plant 5 matches at known distances
    for i in 0..5 {
        let near = make_near(&query, 500 + i * 200);
        corpus[i * 200] = near;
    }

    // Threshold 2500 with a 1.5 safety margin.
    let config = SweepConfig::with_threshold(threshold);

    let result = hdr_sweep(&query, &corpus, &config);

    // Full sweep for comparison
    let full = full_sweep(&query, &corpus, threshold);

    // HDR must find at least as many as full sweep
    assert!(
        result.matches.len() >= full.len(),
        "HDR found {} but full found {}",
        result.matches.len(),
        full.len()
    );

    // Zero false negatives: every full match must appear in HDR
    let hdr_indices: std::collections::HashSet<usize> = result.matches.iter().map(|m| m.index).collect();
    for fm in &full {
        assert!(
            hdr_indices.contains(&fm.index),
            "False negative: full found index {} (dist={}) but HDR missed it",
            fm.index,
            fm.distance
        );
    }

    // Instruction savings
    let full_instructions = corpus.len() as u64 * CONTAINER_WORDS as u64;
    let speedup = full_instructions as f64 / result.instructions as f64;
    println!("Speedup: {:.1}x ({} vs {} instructions)", speedup, result.instructions, full_instructions);
    assert!(speedup > 5.0, "Expected >5x speedup, got {:.1}x", speedup);
}

#[test]
fn test_top_k() {
    let query = Container::random(42);
    let mut corpus: Vec<Container> = (0..500u64).map(|s| Container::random(s + 1000)).collect();

    // Plant one definite match
    corpus[100] = make_near(&query, 200);

    let top = top_k(&query, &corpus, 5, 3000);
    assert!(!top.is_empty());
    assert!(top[0].distance < 3000);
}

#[test]
fn test_wide_sweep_finds_planted_matches() {
    let query = WideContainer::random(42);
    let threshold = 5000u32; // ~30% of 16384

    let mut corpus: Vec<WideContainer> = (0..1000u64).map(|s| WideContainer::random(s + 1000)).collect();

    // Plant 5 matches at known distances
    for i in 0..5 {
        let near = make_near_wide(&query, 1000 + i * 400);
        corpus[i * 200] = near;
    }

    let config = WideSweepConfig::with_threshold(threshold);

    let result = wide_hdr_sweep(&query, &corpus, &config);
    let full = wide_full_sweep(&query, &corpus, threshold);

    // Zero false negatives
    let hdr_indices: std::collections::HashSet<usize> = result.matches.iter().map(|m| m.index).collect();
    for fm in &full {
        assert!(
            hdr_indices.contains(&fm.index),
            "False negative: full found index {} (dist={}) but wide HDR missed it",
            fm.index,
            fm.distance
        );
    }

    let full_instructions = corpus.len() as u64 * WIDE_WORDS as u64;
    let speedup = full_instructions as f64 / result.instructions as f64;
    assert!(speedup > 3.0, "Expected >3x speedup, got {:.1}x", speedup);
}

#[test]
fn default_configs() {
    let c = SweepConfig::default();
    assert_eq!((c.threshold, c.safety_num, c.safety_den, c.limit), (2457, 3, 2, 0));
    assert_eq!(c.stage_thresholds(), (28, 230));
    assert_eq!((c.hdr.hot, c.hdr.mid, c.hdr.cold), (820, 2458, 4015));
    let w = WideSweepConfig::default();
    assert_eq!((w.threshold, w.safety_num, w.safety_den, w.limit), (4915, 3, 2, 0));
    assert_eq!(w.stage_thresholds(), (28, 460));
    assert_eq!((w.hdr.hot, w.hdr.mid, w.hdr.cold), (1639, 4916, 8029));
    let t = SweepConfig::with_threshold(3000);
    assert_eq!(t.stage_thresholds(), (35, 281));
    let mut u = SweepConfig::with_threshold(3000);
    u.safety_num = 1;
    u.safety_den = 1;
    assert_eq!(u.stage_thresholds(), (23, 187));
}

#[test]
fn sweep_sorts_by_distance_then_index_and_counts_stages() {
    let query = Container::random(1);
    let mut corpus: Vec<Container> = (0..50u64).map(|s| Container::random(s + 500)).collect();
    corpus[7] = make_near(&query, 300);
    corpus[3] = make_near(&query, 100);
    corpus[20] = query;
    corpus[30] = query;
    let config = SweepConfig::with_threshold(2000);
    let r = hdr_sweep(&query, &corpus, &config);
    let idx: Vec<usize> = r.matches.iter().map(|m| m.index).collect();
    assert_eq!(idx, vec![20, 30, 3, 7]);
    assert_eq!(r.matches[0].distance, 0);
    assert_eq!(r.matches[0].hdr.total(), 6);
    assert_eq!(r.containers_scanned, 50);
    assert!(r.stage2_survivors <= r.stage1_survivors);
    assert_eq!(
        r.instructions,
        50 + 7 * r.stage1_survivors as u64 + 120 * r.stage2_survivors as u64
    );
    let recorded: usize = r.distribution.counts.iter().sum();
    assert_eq!(recorded, r.stage2_survivors);
    assert_eq!(r.distribution.counts[6], 4);
}

#[test]
fn sweep_limit_stops_early() {
    let query = Container::random(1);
    let corpus: Vec<Container> = (0..10).map(|_| query).collect();
    let mut config = SweepConfig::with_threshold(100);
    config.limit = 3;
    let r = hdr_sweep(&query, &corpus, &config);
    assert_eq!(r.matches.len(), 3);
    assert_eq!(r.stage1_survivors, 3);
    assert_eq!(r.instructions, 3 * 128);
    assert_eq!(r.containers_scanned, 10);
}

#[test]
fn permissive_stages_match_full_sweep() {
    let query = Container::random(77);
    let mut corpus: Vec<Container> = (0..300u64).map(|s| Container::random(s + 9)).collect();
    for i in 0..6 {
        corpus[i * 40] = make_near(&query, 600 + i * 500);
    }
    let mut config = SweepConfig::with_threshold(3900);
    config.safety_num = 3;
    config.safety_den = 1;
    assert_eq!(config.stage_thresholds(), (91, 731));
    let r = hdr_sweep(&query, &corpus, &config);
    let mut full = full_sweep(&query, &corpus, 3900);
    full.sort_by_key(|m| (m.distance, m.index));
    let a: Vec<(usize, u32)> = r.matches.iter().map(|m| (m.index, m.distance)).collect();
    let b: Vec<(usize, u32)> = full.iter().map(|m| (m.index, m.distance)).collect();
    assert_eq!(a, b);
    assert_eq!(r.instructions, 300 * 128);
}

#[test]
fn sweep_drops_container_at_spot_stage() {
    let query = Container::zero();
    let mut ones = Container::zero();
    ones.words = [u64::MAX; CONTAINER_WORDS];
    let corpus = vec![Container::zero(), ones];
    let r = hdr_sweep(&query, &corpus, &SweepConfig::with_threshold(2500));
    assert_eq!(r.matches.len(), 1);
    assert_eq!((r.matches[0].index, r.matches[0].distance), (0, 0));
    assert_eq!(r.matches[0].hdr, HdrScore { hot: 3, mid: 2, cold: 1 });
    assert_eq!(r.containers_scanned, 2);
    assert_eq!((r.stage1_survivors, r.stage2_survivors), (1, 1));
    assert_eq!(r.instructions, 129);
    assert_eq!(r.distribution.counts, [0, 0, 0, 0, 0, 0, 1]);
    // the cutoff sweep meters against the threshold itself: the all-ones
    // container passes both stages and is dropped only by its full distance
    let c = cutoff_sweep(&query, &corpus, &SweepConfig::with_threshold(2500));
    assert_eq!(c.matches.len(), 1);
    assert_eq!((c.matches[0].index, c.matches[0].distance), (0, 0));
    assert_eq!((c.stage1_survivors, c.stage2_survivors), (2, 2));
    assert_eq!(c.instructions, 256);
    assert_eq!(c.distribution.counts, [1, 0, 0, 0, 0, 0, 1]);
}

#[test]
fn cutoff_sweep_finds_distance_concentrated_in_first_word() {
    let query = Container::zero();
    let mut c = Container::zero();
    c.words[0] = u64::MAX;
    let corpus = vec![Container::random(3), c];
    let config = SweepConfig::with_threshold(2500);
    // metered with a 3/2 margin, the spot stage keeps at most 29 bits
    let r = hdr_sweep(&query, &corpus, &config);
    assert!(r.matches.is_empty());
    assert_eq!(false_negatives(&full_sweep(&query, &corpus, 2500), &r.matches), 1);
    let e = cutoff_sweep(&query, &corpus, &config);
    assert_eq!(e.matches.len(), 1);
    assert_eq!((e.matches[0].index, e.matches[0].distance), (1, 64));
    assert_eq!(false_negatives(&full_sweep(&query, &corpus, 2500), &e.matches), 0);
    let wq = WideContainer::zero();
    let mut wc = WideContainer::zero();
    wc.words[0] = u64::MAX;
    wc.words[1] = u64::MAX;
    let wconfig = WideSweepConfig::with_threshold(4915);
    assert!(wide_hdr_sweep(&wq, &[wc], &wconfig).matches.is_empty());
    let wr = wide_cutoff_sweep(&wq, &[wc], &wconfig);
    assert_eq!(wr.matches.len(), 1);
    assert_eq!(wr.matches[0].distance, 128);
    assert_eq!(wr.instructions, 256);
}

#[test]
fn cutoff_sweep_drops_at_center_stage() {
    let query = Container::zero();
    let mut c = Container::zero();
    for w in 0..4 {
        c.words[w] = u64::MAX;
    }
    // the first 8 words differ in 256 bits, already past 200
    let r = cutoff_sweep(&query, &[c], &SweepConfig::with_threshold(200));
    assert!(r.matches.is_empty());
    assert_eq!(r.instructions, 8);
    assert_eq!((r.stage1_survivors, r.stage2_survivors), (1, 0));
    assert_eq!(r.distribution.counts.iter().sum::<usize>(), 0);
}

#[test]
fn full_sweep_in_corpus_order() {
    let query = Container::random(5);
    let corpus = vec![Container::random(6), query, make_near(&query, 50), Container::random(7)];
    let r = full_sweep(&query, &corpus, 1000);
    let idx: Vec<usize> = r.iter().map(|m| m.index).collect();
    assert_eq!(idx, vec![1, 2]);
    assert_eq!(r[0].distance, 0);
    assert_eq!(r[1].distance, query.hamming(&corpus[2]));
}

#[test]
fn top_k_truncates_sorted_matches() {
    let query = Container::random(2);
    let corpus = vec![make_near(&query, 40), query, make_near(&query, 10), make_near(&query, 20)];
    let top = top_k(&query, &corpus, 2, 1000);
    let idx: Vec<usize> = top.iter().map(|m| m.index).collect();
    assert_eq!(idx, vec![1, 2]);
    assert_eq!(top_k(&query, &corpus, 10, 1000).len(), 4);
    assert!(top_k(&query, &corpus, 0, 1000).is_empty());
    let wq = WideContainer::random(3);
    let wc = vec![WideContainer::random(4), wq];
    let wt = wide_top_k(&wq, &wc, 1, 100);
    assert_eq!(wt.len(), 1);
    assert_eq!(wt[0].index, 1);
}

fn m(index: usize) -> ResonanceMatch {
    ResonanceMatch { index, distance: 0, hdr: HdrScore { hot: 0, mid: 0, cold: 0 } }
}

#[test]
fn false_negatives_counts_missing_indices() {
    let full = vec![m(1), m(4), m(7), m(9)];
    assert_eq!(false_negatives(&full, &[m(9), m(1)]), 2);
    assert_eq!(false_negatives(&full, &full), 0);
    assert_eq!(false_negatives(&full, &[]), 4);
    assert_eq!(false_negatives(&[], &full), 0);
}
