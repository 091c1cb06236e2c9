use iomcbf::IncOnlyMinCbf;

fn counters(filter: &IncOnlyMinCbf) -> Vec<u32> {
    (0..filter.size()).map(|index| filter.get_counter(index)).collect()
}

#[test]
fn add_at_raises_a_fresh_item_once_at_each_position() {
    let mut filter = IncOnlyMinCbf::new(16, 3, 4).unwrap();
    filter.add_at(&[1, 5, 9]);
    let mut expected = vec![0u32; 16];
    expected[1] = 1;
    expected[5] = 1;
    expected[9] = 1;
    assert_eq!(counters(&filter), expected);
    assert!(filter.contains_at(&[1, 5, 9]));
    assert_eq!(filter.count_at(&[1, 5, 9]), 1);
}

#[test]
fn add_at_raises_only_the_minimum_positions() {
    let mut filter = IncOnlyMinCbf::new(8, 3, 4).unwrap();
    filter.increment_counter(0);
    filter.increment_counter(0);
    filter.increment_counter(1);
    // Counters 0, 1, 2 hold 2, 1, 0: only counter 2 is at the minimum.
    filter.add_at(&[0, 1, 2]);
    assert_eq!(counters(&filter), vec![2, 1, 1, 0, 0, 0, 0, 0]);
    // Now counters 1 and 2 tie at the minimum, and both rise.
    filter.add_at(&[0, 1, 2]);
    assert_eq!(counters(&filter), vec![2, 2, 2, 0, 0, 0, 0, 0]);
    filter.add_at(&[0, 1, 2]);
    assert_eq!(counters(&filter), vec![3, 3, 3, 0, 0, 0, 0, 0]);
}

#[test]
fn add_all_at_raises_every_position() {
    let mut filter = IncOnlyMinCbf::new(8, 3, 4).unwrap();
    filter.increment_counter(0);
    filter.increment_counter(0);
    filter.increment_counter(1);
    filter.add_all_at(&[0, 1, 2]);
    assert_eq!(counters(&filter), vec![3, 2, 1, 0, 0, 0, 0, 0]);
}

#[test]
fn a_position_listed_twice_is_raised_twice() {
    let mut filter = IncOnlyMinCbf::new(8, 3, 4).unwrap();
    filter.add_at(&[3, 3, 5]);
    assert_eq!(filter.get_counter(3), 2);
    assert_eq!(filter.get_counter(5), 1);
    assert_eq!(filter.count_at(&[3, 3, 5]), 1);

    let mut plain = IncOnlyMinCbf::new(8, 3, 4).unwrap();
    plain.add_all_at(&[3, 3, 5]);
    assert_eq!(plain.get_counter(3), 2);
    assert_eq!(plain.get_counter(5), 1);
}

#[test]
fn a_repeated_position_stops_at_the_largest_value() {
    let mut filter = IncOnlyMinCbf::new(4, 3, 2).unwrap();
    filter.add_at(&[1, 1, 1]);
    assert_eq!(filter.get_counter(1), 3);
    filter.add_at(&[1, 1, 1]);
    assert_eq!(filter.get_counter(1), 3);
}

#[test]
fn two_items_sharing_one_position() {
    let mut filter = IncOnlyMinCbf::new(16, 3, 4).unwrap();
    let a: [usize; 3] = [1, 5, 9];
    let c: [usize; 3] = [9, 12, 3];
    filter.add_at(&a);
    filter.add_at(&c);
    // The shared counter was already ahead when the second item came.
    assert_eq!(filter.get_counter(9), 1);
    assert_eq!(filter.get_counter(1), 1);
    assert_eq!(filter.get_counter(5), 1);
    assert_eq!(filter.get_counter(12), 1);
    assert_eq!(filter.get_counter(3), 1);
    assert!(filter.count_at(&a) >= 1);
    assert!(filter.count_at(&c) >= 1);
    assert_eq!(filter.count_at(&a), 1);
    assert_eq!(filter.count_at(&c), 1);
    assert!(filter.contains_at(&a));
    assert!(filter.contains_at(&c));
}

#[test]
fn sharing_inflates_the_plain_policy_only() {
    let a: [usize; 3] = [1, 5, 9];
    let c: [usize; 3] = [9, 12, 3];
    let mut plain = IncOnlyMinCbf::new(16, 3, 4).unwrap();
    plain.add_all_at(&a);
    plain.add_all_at(&c);
    assert_eq!(plain.get_counter(9), 2);
    assert_eq!(plain.count_at(&a), 1);
}

#[test]
fn an_item_with_an_untouched_position_counts_zero() {
    let mut filter = IncOnlyMinCbf::new(16, 3, 4).unwrap();
    filter.add_at(&[0, 1, 2]);
    filter.add_at(&[0, 1, 2]);
    assert_eq!(filter.count_at(&[2, 3, 4]), 0);
    assert!(!filter.contains_at(&[2, 3, 4]));
}

#[test]
fn an_item_reached_by_others_is_a_false_positive() {
    let mut filter = IncOnlyMinCbf::new(16, 2, 4).unwrap();
    filter.add_at(&[0, 1]);
    filter.add_at(&[2, 3]);
    assert!(filter.contains_at(&[1, 2]));
    assert_eq!(filter.count_at(&[1, 2]), 1);
}

#[test]
fn no_positions_means_found_with_the_largest_estimate() {
    let mut filter = IncOnlyMinCbf::new(16, 0, 4).unwrap();
    assert!(filter.contains_at(&[]));
    assert_eq!(filter.count_at(&[]), 15);
    filter.add_at(&[]);
    filter.add(b"A");
    assert_eq!(counters(&filter), vec![0u32; 16]);
    assert!(filter.contains(b"A"));
    assert_eq!(filter.count(b"A"), 15);
    assert_eq!(filter.hash_indices(b"A"), Vec::<usize>::new());
}

#[test]
fn count_at_is_the_least_of_the_counters() {
    let mut filter = IncOnlyMinCbf::new(8, 3, 4).unwrap();
    for _ in 0..4 {
        filter.increment_counter(0);
    }
    for _ in 0..2 {
        filter.increment_counter(1);
    }
    for _ in 0..7 {
        filter.increment_counter(2);
    }
    assert_eq!(filter.count_at(&[0, 1, 2]), 2);
    assert_eq!(filter.count_at(&[0, 2]), 4);
    assert_eq!(filter.count_at(&[2]), 7);
    assert_eq!(filter.count_at(&[2, 3]), 0);
}
