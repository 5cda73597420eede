use vsaclip::wide_container::WideContainer;
use vsaclip::container::Container;
use vsaclip::container_ext::{hamming_early_exit, hamming_partial, is_anti_resonant, majority_bundle};
use vsaclip::rng::Rng;
use vsaclip::CONTAINER_WORDS;

#[test]
fn test_partial_hamming_sums_to_full() {
    let a = Container::random(42);
    let b = Container::random(99);

    let full = a.hamming(&b);
    let partial_sum: u32 = (0..CONTAINER_WORDS).map(|i| hamming_partial(&a, &b, i, 1)).sum();

    assert_eq!(full, partial_sum);
}

#[test]
fn test_early_exit_no_false_negatives() {
    let a = Container::random(42);
    let threshold = 3000u32;

    // Test 1000 random containers
    let mut false_negatives = 0;
    for seed in 0..1000u64 {
        let b = Container::random(seed);
        let full = a.hamming(&b);
        let early = hamming_early_exit(&a, &b, threshold);

        if full < threshold && early.is_none() {
            false_negatives += 1;
        }
    }

    assert_eq!(false_negatives, 0, "Early exit must have ZERO false negatives");
}

#[test]
fn test_early_exit_filters_most() {
    let a = Container::random(42);
    let threshold = 2500u32;

    let mut total = 0;
    let mut survived = 0;
    for seed in 0..1000u64 {
        let b = Container::random(seed);
        total += 1;
        if hamming_early_exit(&a, &b, threshold).is_some() {
            survived += 1;
        }
    }

    // For random vectors, very few should survive
    let survival_rate = survived as f64 / total as f64;
    assert!(survival_rate < 0.10, "Expected <10% survival, got {:.1}%", survival_rate * 100.0);
}

#[test]
fn test_anti_resonance() {
    let a = Container::random(42);
    let anti = {
        let mut c = Container::zero();
        for i in 0..CONTAINER_WORDS {
            c.words[i] = !a.words[i];
        }
        c
    };

    assert!(is_anti_resonant(&a, &anti, 200));
    assert!(!is_anti_resonant(&a, &Container::random(99), 200));
}

#[test]
fn early_exit_returns_exact_distance_of_close_match() {
    let a = Container::random(7);
    let mut b = a;
    b.words[100] ^= 0xFF;
    assert_eq!(hamming_early_exit(&a, &b, 10), Some(8));
    assert_eq!(hamming_early_exit(&a, &b, 8), None);
    b.words[0] ^= 1;
    assert_eq!(hamming_early_exit(&a, &b, 100), Some(9));
    assert_eq!(hamming_early_exit(&a, &b, 0), None);
}

#[test]
fn early_exit_keeps_distance_concentrated_in_first_word() {
    let zero = Container::zero();
    let mut c = Container::zero();
    c.words[0] = u64::MAX;
    assert_eq!(hamming_early_exit(&zero, &c, 2500), Some(64));
    assert_eq!(hamming_early_exit(&zero, &c, 64), None);
    assert_eq!(hamming_early_exit(&zero, &c, 65), Some(64));
}

#[test]
fn partial_ranges_add_up() {
    let a = Container::random(1);
    let b = Container::random(2);
    let left = hamming_partial(&a, &b, 0, 40);
    let right = hamming_partial(&a, &b, 40, 88);
    assert_eq!(left + right, a.hamming(&b));
    assert_eq!(hamming_partial(&a, &b, 5, 0), 0);
}

#[test]
fn hamming_is_a_symmetric_distance() {
    let a = Container::random(3);
    let b = Container::random(4);
    assert_eq!(a.hamming(&a), 0);
    assert_eq!(a.hamming(&b), b.hamming(&a));
    assert_eq!(Container::zero().popcount(), 0);
    let mut ones = Container::zero();
    ones.words = [u64::MAX; 128];
    assert_eq!(ones.popcount(), 8192);
    assert_eq!(ones.hamming(&Container::zero()), 8192);
}

#[test]
fn xor_binds_and_unbinds() {
    let a = Container::random(10);
    let b = Container::random(11);
    let bound = a.xor(&b);
    assert_eq!(bound.xor(&b), a);
    assert_eq!(a.xor(&b), b.xor(&a));
    assert_eq!(bound.words[0], a.words[0] ^ b.words[0]);
}

#[test]
fn random_is_splitmix64() {
    let c = Container::random(42);
    let mut rng = Rng::new(42);
    for i in 0..CONTAINER_WORDS {
        assert_eq!(c.words[i], rng.next_u64());
    }
    assert_eq!(Container::random(42), Container::random(42));
    assert_ne!(Container::random(42), Container::random(43));
}

#[test]
fn splitmix_reference_values() {
    let mut rng = Rng::new(0);
    assert_eq!(rng.next_u64(), 0xe220a8397b1dcdaf);
    assert_eq!(rng.next_u64(), 0x6e789e6aa1b965f4);
    assert_eq!(rng.0, 0x9e3779b97f4a7c15u64.wrapping_mul(2));
}

#[test]
fn majority_bundle_votes_per_bit() {
    let mut a = Container::zero();
    let mut b = Container::zero();
    let mut c = Container::zero();
    a.words[0] = 0b0111;
    b.words[0] = 0b0011;
    c.words[0] = 0b1001;
    let r = majority_bundle(&[&a, &b, &c]);
    assert_eq!(r.words[0], 0b0011);
    // Two items: a bit needs both votes.
    let r2 = majority_bundle(&[&a, &c]);
    assert_eq!(r2.words[0], 0b0001);
    // Copies bundle to the copy; nothing bundles to zero.
    let x = Container::random(5);
    assert_eq!(Container::bundle(&[&x, &x, &x]), x);
    assert_eq!(Container::bundle(&[]), Container::zero());
}

#[test]
fn permute_rotates_bits() {
    let mut c = Container::zero();
    c.words[0] = 1;
    let r = c.permute(1);
    assert_eq!(r.words[0], 2);
    let r = c.permute(64);
    assert_eq!(r.words[1], 1);
    assert_eq!(r.words[0], 0);
    let wrap = c.permute(8191);
    assert_eq!(wrap.words[127], 1u64 << 63);
    let x = Container::random(9);
    assert_eq!(x.permute(100).permute(8092), x);
    assert_eq!(x.permute(8192), x);
}

#[test]
fn permute_roundtrip_both_widths() {
    let c = Container::random(42);
    assert_eq!(c.permute(1337).permute(8192 - 1337), c);
    assert_eq!(c.permute(9000).permute(8192 - 9000 % 8192), c);
    let w = WideContainer::random(42);
    assert_eq!(w.permute(1337).permute(16384 - 1337), w);
    assert_ne!(w.permute(1337), w);
}

#[test]
fn splitmix_outputs_are_distinct() {
    let mut rng = Rng::new(42);
    let mut seen = std::collections::HashSet::new();
    for _ in 0..20000 {
        assert!(seen.insert(rng.next_u64()));
    }
}
