use vsaclip::container::Container;
use vsaclip::exposure::{exposure_pass, superpose_activations, Cluster};

fn flip(c: &Container, n: usize, seed: u64) -> Container {
    let mut out = *c;
    let mut s = seed | 1;
    for _ in 0..n {
        s ^= s << 13;
        s ^= s >> 7;
        s ^= s << 17;
        let bit = (s as usize) % 8192;
        out.words[bit / 64] ^= 1u64 << (bit % 64);
    }
    out
}

#[test]
fn exposure_pass_groups_resonating_inputs() {
    let a = Container::random(1);
    let b = Container::random(2);
    let inputs = vec![a, flip(&a, 50, 3), b, flip(&b, 80, 4), flip(&a, 120, 5)];
    let clusters = exposure_pass(&inputs, 1600);
    assert_eq!(clusters.len(), 2);
    assert_eq!(clusters[0].prototype, a);
    assert_eq!(clusters[0].members, vec![0, 1, 4]);
    assert_eq!(clusters[1].prototype, b);
    assert_eq!(clusters[1].members, vec![2, 3]);
}

#[test]
fn exposure_pass_without_resonance_makes_one_cluster_per_input() {
    let inputs: Vec<Container> = (0..6u64).map(Container::random).collect();
    let clusters = exposure_pass(&inputs, 100);
    assert_eq!(clusters.len(), 6);
    for (i, c) in clusters.iter().enumerate() {
        assert_eq!(c.members, vec![i]);
        assert_eq!(c.prototype, inputs[i]);
    }
    assert!(exposure_pass(&[], 100).is_empty());
}

#[test]
fn superpose_without_clusters_is_identity() {
    let inputs: Vec<Container> = (0..3u64).map(Container::random).collect();
    assert_eq!(superpose_activations(&inputs, &[], 1000), inputs);
}

#[test]
fn superpose_replaces_inputs_by_activated_prototypes() {
    let a = Container::random(10);
    let b = Container::random(11);
    let far = Container::random(12);
    let clusters = vec![
        Cluster { prototype: a, members: vec![0] },
        Cluster { prototype: b, members: vec![1] },
        Cluster { prototype: a, members: vec![2] },
    ];
    let inputs = vec![flip(&b, 30, 7), far, flip(&a, 30, 8)];
    let out = superpose_activations(&inputs, &clusters, 1000);
    assert_eq!(out.len(), 3);
    // One prototype resonates: it replaces the input.
    assert_eq!(out[0], b);
    // None resonates: the input stays.
    assert_eq!(out[1], far);
    // Two copies of `a` resonate: their majority bundle is `a`.
    assert_eq!(out[2], a);
}

#[test]
fn exposure_pass_partitions_inputs() {
    let seeds = [1u64, 2, 3];
    let mut inputs = Vec::new();
    for k in 0..12usize {
        let base = Container::random(seeds[k % 3]);
        inputs.push(flip(&base, 40 * (k % 4), k as u64 + 11));
    }
    let clusters = exposure_pass(&inputs, 1600);
    assert_eq!(clusters.len(), 3);
    let mut seen = vec![0usize; inputs.len()];
    for c in &clusters {
        assert!(!c.members.is_empty());
        for &m in &c.members {
            seen[m] += 1;
        }
    }
    assert!(seen.iter().all(|&k| k == 1));
}
