use vsaclip::container::Container;
use vsaclip::evaluate::{assign_to_clusters, class_table, dominant_class, purity_report, top_k_hits};

#[test]
fn assignment_takes_first_resonating_prototype() {
    let prototypes = vec![Container::random(1), Container::random(2)];
    let containers = vec![Container::random(2), Container::random(1), Container::random(3)];
    let a = assign_to_clusters(&containers, &prototypes, 2457);
    assert_eq!(a, vec![Some(1), Some(0), None]);
    assert_eq!(assign_to_clusters(&containers, &[], 2457), vec![None, None, None]);
}

#[test]
fn class_table_counts_cluster_and_class() {
    let assign = vec![Some(0), Some(0), Some(1), None, Some(1)];
    let labels = vec![0, 1, 1, 0, 1];
    assert_eq!(class_table(&assign, &labels, 2, 2), vec![1, 1, 0, 2]);
    assert_eq!(class_table(&assign, &labels, 2, 3), vec![1, 1, 0, 0, 2, 0]);
}

#[test]
fn purity_of_small_clustering() {
    let assign = vec![Some(0), Some(0), Some(1), None, Some(1)];
    let labels = vec![0, 1, 1, 0, 1];
    let r = purity_report(&assign, &labels, 2, 2);
    assert_eq!(r.assigned, 4);
    assert_eq!(r.correct, 3);
    assert_eq!(r.perfect, 1);
    let empty = purity_report(&[None, None], &[0, 0], 3, 1);
    assert_eq!((empty.assigned, empty.correct, empty.perfect), (0, 0, 0));
}

#[test]
fn dominant_class_prefers_largest_then_smallest() {
    let t = vec![1, 1, 0, 2, 0, 0, 5, 3, 5];
    assert_eq!(dominant_class(&t, 0, 3), Some(0));
    assert_eq!(dominant_class(&t, 1, 3), Some(0));
    assert_eq!(dominant_class(&[0, 0, 0], 0, 3), None);
    assert_eq!(dominant_class(&t, 2, 3), Some(0));
    assert_eq!(dominant_class(&[0, 4, 7], 0, 3), Some(2));
}

#[test]
fn top_k_hits_samples_every_tenth_input() {
    let prototypes = vec![Container::random(1), Container::random(2)];
    let mut containers: Vec<Container> = (0..12u64).map(|s| Container::random(100 + s)).collect();
    containers[0] = Container::random(1);
    containers[10] = Container::random(2);
    let mut labels = vec![0usize; 12];
    labels[10] = 1;
    let table = vec![3, 1, 0, 0];
    assert_eq!(top_k_hits(&containers, &labels, &prototypes, &table, 2, 2457, 5), (1, 2));
    let table2 = vec![3, 1, 0, 4];
    assert_eq!(top_k_hits(&containers, &labels, &prototypes, &table2, 2, 2457, 5), (2, 2));
    assert_eq!(top_k_hits(&containers[1..10], &labels[1..10], &prototypes, &table2, 2, 2457, 5), (0, 0));
}
