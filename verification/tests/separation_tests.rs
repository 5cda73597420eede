use vsaclip::container::Container;
use vsaclip::separation::{all_intra_distances, class_groups, class_members, inter_class_distances, intra_class_distances, random_inter_distances, xorshift64};

fn corpus() -> Vec<Container> {
    (0..6u64).map(|s| Container::random(s + 7)).collect()
}

#[test]
fn xorshift_known_value() {
    assert_eq!(xorshift64(0xDEADBEEF), 0x37c5_9ca7_bf06_be52);
    assert_eq!(xorshift64(0), 0);
}

#[test]
fn intra_samples_take_consecutive_members() {
    let cs = corpus();
    let classes = vec![vec![0, 1, 2], vec![3], vec![4, 5]];
    let d = |a: usize, b: usize| cs[a].hamming(&cs[b]);
    assert_eq!(intra_class_distances(&cs, &classes, 5), vec![d(0, 1), d(1, 2), d(4, 5)]);
    assert_eq!(intra_class_distances(&cs, &classes, 1), vec![d(0, 1), d(4, 5)]);
    assert_eq!(intra_class_distances(&cs, &classes, 0), Vec::<u32>::new());
}

#[test]
fn inter_samples_follow_the_generator() {
    let cs = corpus();
    // three classes with first members 0, 2 and 4; draws pick the class
    // pairs (0,1) (2,2) (0,0) (1,0) (0,0) (0,2)
    let classes = vec![vec![0, 1], vec![2, 3], vec![4, 5]];
    let d = |a: usize, b: usize| cs[a].hamming(&cs[b]);
    assert_eq!(
        inter_class_distances(&cs, &classes, 6, 0xDEADBEEF),
        vec![d(0, 2), d(2, 0), d(0, 4)]
    );
    assert_eq!(inter_class_distances(&cs, &[], 6, 0xDEADBEEF), Vec::<u32>::new());
    let with_empty = vec![vec![0], vec![], vec![4]];
    assert_eq!(inter_class_distances(&cs, &with_empty, 6, 0xDEADBEEF), vec![d(0, 4)]);
}

#[test]
fn all_intra_pairs_in_order() {
    let cs = corpus();
    let classes = vec![vec![0, 1, 2], vec![3, 4], vec![5]];
    let d = |a: usize, b: usize| cs[a].hamming(&cs[b]);
    assert_eq!(all_intra_distances(&cs, &classes), vec![d(0, 1), d(0, 2), d(1, 2), d(3, 4)]);
    assert_eq!(all_intra_distances(&cs, &[]), Vec::<u32>::new());
}

#[test]
fn random_inter_pairs_follow_splitmix() {
    let cs = corpus();
    let d = |a: usize, b: usize| cs[a].hamming(&cs[b]);
    let labels = vec![0, 0, 1, 1, 2, 2];
    assert_eq!(
        random_inter_distances(&cs, &labels, 5, 0xBEEF),
        vec![d(2, 0), d(4, 3), d(0, 3), d(5, 3), d(5, 1)]
    );
    let skewed = vec![0, 0, 0, 0, 0, 1];
    assert_eq!(random_inter_distances(&cs, &skewed, 4, 7), vec![d(3, 5), d(5, 1), d(4, 5), d(5, 4)]);
    assert_eq!(random_inter_distances(&cs[..3], &[0, 0, 0], 3, 7), Vec::<u32>::new());
    assert_eq!(random_inter_distances(&[], &[], 3, 7), Vec::<u32>::new());
}

#[test]
fn class_members_groups_in_order() {
    let ids = vec![1, 0, 1, 2, 1];
    assert_eq!(class_members(&ids, 4), vec![vec![1], vec![0, 2, 4], vec![3], vec![]]);
    assert_eq!(class_members(&[], 2), vec![Vec::<usize>::new(), vec![]]);
    assert_eq!(class_members(&ids, 0), Vec::<Vec<usize>>::new());
}

#[test]
fn class_groups_numbers_classes_by_first_appearance() {
    let labels: Vec<String> = ["dog", "cat", "dog", "bird", "cat", "dog"].iter().map(|s| s.to_string()).collect();
    let (ids, names, members) = class_groups(&labels);
    assert_eq!(ids, vec![0, 1, 0, 2, 1, 0]);
    assert_eq!(names, vec!["dog".to_string(), "cat".to_string(), "bird".to_string()]);
    assert_eq!(members, vec![vec![0, 2, 5], vec![1, 4], vec![3]]);
    let (ids, names, members) = class_groups(&[]);
    assert!(ids.is_empty() && names.is_empty() && members.is_empty());
}
