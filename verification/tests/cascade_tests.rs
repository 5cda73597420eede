use vsaclip::cascade::{cascade, ResonanceLayer};
use vsaclip::container::Container;

fn make_near(reference: &Container, approx_dist: usize) -> Container {
    let mut c = reference.clone();
    let mut state = approx_dist as u64 ^ 0xCAFEBABE;
    for _ in 0..approx_dist {
        state ^= state << 13;
        state ^= state >> 7;
        state ^= state << 17;
        let bit = (state as usize) % 8192;
        c.words[bit / 64] ^= 1u64 << (bit % 64);
    }
    c
}

#[test]
fn test_two_layer_cascade() {
    // Layer 1: 50 features
    let features: Vec<Container> = (0..50u64).map(|s| Container::random(s + 100)).collect();

    // Layer 2: 10 parts, each is bundle of 2-3 features
    let mut parts = Vec::new();
    for i in 0..10 {
        let refs: Vec<&Container> = (0..3).map(|j| &features[(i * 3 + j) % 50]).collect();
        parts.push(Container::bundle(&refs));
    }

    // Query: close to feature[0] and feature[1]
    let query_parts = vec![make_near(&features[0], 400), make_near(&features[1], 400)];
    let refs: Vec<&Container> = query_parts.iter().collect();
    let query = Container::bundle(&refs);

    let layers = vec![
        ResonanceLayer::new("features", features, 3500),
        ResonanceLayer::new("parts", parts, 3800),
    ];

    let result = cascade(&query, &layers);

    assert_eq!(result.layer_results.len(), 2);
    println!("L1 matches: {}", result.layer_results[0].matches.len());
    println!("L2 matches: {}", result.layer_results[1].matches.len());
}

#[test]
fn cascade_passes_bundle_of_activations_to_next_layer() {
    let a = Container::random(1);
    let b = Container::random(2);
    let layer1 = ResonanceLayer::new("one", vec![a, b], 100);
    let layer2 = ResonanceLayer::new("two", vec![b, a], 100);
    let r = cascade(&a, &[layer1, layer2]);
    assert_eq!(r.layer_results[0].name, "one");
    assert_eq!(r.layer_results[0].matches.len(), 1);
    assert_eq!(r.layer_results[0].matches[0].index, 0);
    // The bundle of the single activation `a` is `a`, found at index 1.
    assert_eq!(r.layer_results[1].matches.len(), 1);
    assert_eq!(r.layer_results[1].matches[0].index, 1);
    assert_eq!(r.recognized.len(), 1);
    assert_eq!(r.recognized[0].index, 1);
    assert!(cascade(&a, &[]).recognized.is_empty());
}

#[test]
fn activated_containers_takes_top_k() {
    let cs: Vec<Container> = (0..30u64).map(Container::random).collect();
    let mut layer = ResonanceLayer::new("l", cs.clone(), 10);
    assert_eq!(layer.top_k, 20);
    assert_eq!(layer.config.threshold, 10);
    let q = cs[4];
    let res = layer.sweep(&q);
    assert_eq!(res.matches.len(), 1);
    let act = layer.activated_containers(&res.matches);
    assert_eq!(act.len(), 1);
    assert_eq!(*act[0], cs[4]);
    layer.top_k = 0;
    assert!(layer.activated_containers(&res.matches).is_empty());
}
