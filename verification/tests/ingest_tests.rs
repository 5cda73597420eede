use vsaclip::container::Container;
use vsaclip::ingest::{crosshair_combine, decode_containers, encode_containers, holographic_bind, hyperplane_signs, hyperplane_states, CLIP_DIM, CLIP_SIMHASH_SEED};
use vsaclip::thirds::{at_power_point, hex_cross_combine, in_inner_rectangle, on_thirds_line, radar_mask};

#[test]
fn test_container_round_trip() {
    let containers: Vec<Container> = (0..10u64).map(|s| Container::random(s)).collect();

    let bytes = encode_containers(&containers);
    let loaded = decode_containers(&bytes).unwrap();

    assert_eq!(loaded.len(), 10);
    for (a, b) in containers.iter().zip(loaded.iter()) {
        assert_eq!(a.hamming(b), 0);
    }
}

#[test]
fn container_file_format() {
    let mut c = Container::zero();
    c.words[0] = 0x1122334455667788;
    let bytes = encode_containers(&[c]);
    assert_eq!(bytes.len(), 4 + 1024);
    assert_eq!(&bytes[0..4], &[1, 0, 0, 0]);
    assert_eq!(&bytes[4..12], &[0x88, 0x77, 0x66, 0x55, 0x44, 0x33, 0x22, 0x11]);
    assert_eq!(encode_containers(&[]), vec![0, 0, 0, 0]);
}

#[test]
fn decode_rejects_short_input() {
    assert!(decode_containers(&[]).is_none());
    assert!(decode_containers(&[1, 0, 0]).is_none());
    let mut bytes = encode_containers(&[Container::random(1), Container::random(2)]);
    bytes.pop();
    assert!(decode_containers(&bytes).is_none());
    // Trailing bytes after the announced containers are ignored.
    let mut ok = encode_containers(&[Container::random(3)]);
    ok.extend_from_slice(&[9, 9, 9]);
    assert_eq!(decode_containers(&ok).unwrap(), vec![Container::random(3)]);
    assert_eq!(decode_containers(&[0, 0, 0, 0]).unwrap().len(), 0);
}

#[test]
fn crosshair_majority_with_tie_to_first() {
    // Cardinal crosshair: bit i votes signs i, i+2048, i+4096, i+6144.
    let mut signs = vec![false; 8192];
    signs[0] = true;
    signs[2048] = true; // bit 0: two votes including the first -> set
    signs[4097] = true;
    signs[6145] = true; // bit 1: two votes, first is false -> clear
    signs[2] = true;
    signs[2050] = true;
    signs[4098] = true; // bit 2: three votes -> set
    let c = crosshair_combine(&signs, 0);
    assert_eq!(c.words[0] & 0b111, 0b101);
    // Bit 2048 sees the same four signs rotated, first is 2048: set.
    assert_eq!(c.words[32] & 1, 1);
    // Diagonal crosshair: offset 1024.
    let d = crosshair_combine(&signs, 1024);
    assert_eq!(d.words[16] & 1, 1); // bit 1024 reads 2048, 4096, 6144, 0
}

#[test]
fn holographic_bind_xors_rotated_views() {
    let z = Container::zero();
    let mut v2 = Container::zero();
    v2.words[0] = 1; // bit 0 moves to 2731
    let r = holographic_bind(&z, &v2, &z);
    assert_eq!(r.popcount(), 1);
    assert_eq!((r.words[2731 / 64] >> (2731 % 64)) & 1, 1);
    let a = Container::random(1);
    let b = Container::random(2);
    let c = Container::random(3);
    let r = holographic_bind(&a, &b, &c);
    assert_eq!(r, a.xor(&b.permute(2731)).xor(&c.permute(5461)));
}

#[test]
fn seeds_and_dims() {
    assert_eq!(CLIP_SIMHASH_SEED, 0xADA0C11B_2025_0001);
    assert_eq!(CLIP_DIM, 512);
}

#[test]
fn thirds_lines_and_power_points() {
    assert!(on_thirds_line(2730));
    assert!(on_thirds_line(2730 - 127));
    assert!(!on_thirds_line(2730 - 128));
    assert!(on_thirds_line(5461 + 127));
    assert!(!on_thirds_line(0));
    // Row 30, column 30 of the 91-column grid.
    assert!(at_power_point(30 * 91 + 30));
    assert!(at_power_point(63 * 91 + 57));
    assert!(!at_power_point(30 * 91 + 45));
    assert!(!at_power_point(45 * 91 + 30));
}

#[test]
fn hyperplane_signs_known_values() {
    assert_eq!(hyperplane_signs(42, 0, 8), vec![true, false, false, false, false, true, false, true]);
    assert_eq!(hyperplane_signs(42, 5, 8), vec![false, false, false, true, false, false, true, true]);
    assert_eq!(hyperplane_signs(CLIP_SIMHASH_SEED, 3, 6), vec![true, true, true, false, true, true]);
    assert_eq!(hyperplane_signs(42, 0, 0), Vec::<bool>::new());
    assert_eq!(hyperplane_signs(7, 9, CLIP_DIM).len(), CLIP_DIM);
}

#[test]
fn inner_rectangle_bounds() {
    assert!(in_inner_rectangle(30 * 91 + 30));
    assert!(in_inner_rectangle(59 * 91 + 59));
    assert!(!in_inner_rectangle(29 * 91 + 30));
    assert!(!in_inner_rectangle(60 * 91 + 30));
    assert!(!in_inner_rectangle(30 * 91 + 60));
    assert!(!in_inner_rectangle(0));
}

#[test]
fn radar_masks_by_region() {
    assert_eq!(radar_mask(0), 1);
    assert_eq!(radar_mask(45 * 91 + 45), 15);
    assert_eq!(radar_mask(45 * 91 + 10), 5);
    assert_eq!(radar_mask(45 * 91 + 80), 10);
    assert_eq!(radar_mask(10 * 91 + 45), 3);
    assert_eq!(radar_mask(80 * 91 + 45), 12);
    assert_eq!(radar_mask(10 * 91 + 80), 2);
    assert_eq!(radar_mask(80 * 91 + 10), 4);
    assert_eq!(radar_mask(8191), 4);
}

#[test]
fn hex_cross_majority() {
    assert_eq!(hex_cross_combine(&vec![true; 8192]).popcount(), 8192);
    assert_eq!(hex_cross_combine(&vec![false; 8192]).popcount(), 0);
    let half: Vec<bool> = (0..8192).map(|i| i < 4096).collect();
    let c = hex_cross_combine(&half);
    assert_eq!(c.popcount(), 3);
    assert_eq!(c.words[0], 1);
    assert_eq!(c.words[5462 / 64], 1u64 << (5462 % 64));
    let mixed: Vec<bool> = (0..8192).map(|i| (i * 7) % 5 != 0).collect();
    let m = hex_cross_combine(&mixed);
    assert_eq!(m.popcount(), 6280);
    assert_eq!(m.words[0], 0xef7b_def7_bdef_7bde);
}

#[test]
fn hyperplane_states_known_values() {
    assert_eq!(hyperplane_states(42, 0, 3), vec![0x134f_7096_9181_75ce, 0x8ea3_73fc_e8c4_b147, 0x2f19_245f_26d9_220f]);
    let states = hyperplane_states(42, 5, 8);
    let signs = hyperplane_signs(42, 5, 8);
    for (s, p) in states.iter().zip(signs.iter()) {
        assert_eq!(s & 1 == 0, *p);
    }
}
