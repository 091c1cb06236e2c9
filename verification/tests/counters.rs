use iomcbf::IncOnlyMinCbf;

#[test]
fn increment_counts_up_by_one() {
    let mut filter = IncOnlyMinCbf::new(8, 1, 4).unwrap();
    for expected in 1..=15u32 {
        filter.increment_counter(5);
        assert_eq!(filter.get_counter(5), expected);
    }
}

#[test]
fn increment_stays_at_the_largest_value() {
    let mut filter = IncOnlyMinCbf::new(8, 1, 2).unwrap();
    let expected: [u32; 6] = [1, 2, 3, 3, 3, 3];
    for step in 0..6 {
        filter.increment_counter(0);
        assert_eq!(filter.get_counter(0), expected[step]);
    }
}

#[test]
fn saturation_holds_for_every_width() {
    for width in 1..=8u8 {
        let mut filter = IncOnlyMinCbf::new(3, 1, width).unwrap();
        let max = filter.max_value();
        for _ in 0..max {
            filter.increment_counter(1);
        }
        assert_eq!(filter.get_counter(1), max);
        filter.increment_counter(1);
        assert_eq!(filter.get_counter(1), max);
        filter.increment_counter(1);
        assert_eq!(filter.get_counter(1), max);
        assert_eq!(filter.get_counter(0), 0);
        assert_eq!(filter.get_counter(2), 0);
    }
}

#[test]
fn increment_leaves_the_other_counters_alone() {
    // Three-bit counters straddle byte boundaries.
    let mut filter = IncOnlyMinCbf::new(10, 1, 3).unwrap();
    for _ in 0..5 {
        filter.increment_counter(2);
    }
    for _ in 0..9 {
        filter.increment_counter(3);
    }
    filter.increment_counter(9);
    let expected: [u32; 10] = [0, 0, 5, 7, 0, 0, 0, 0, 0, 1];
    for index in 0..10 {
        assert_eq!(filter.get_counter(index), expected[index]);
    }
}

#[test]
fn is_zero_agrees_with_get_counter() {
    let mut filter = IncOnlyMinCbf::new(6, 1, 4).unwrap();
    filter.increment_counter(1);
    filter.increment_counter(4);
    filter.increment_counter(4);
    for index in 0..6 {
        assert_eq!(filter.is_zero(index), filter.get_counter(index) == 0);
    }
    assert!(!filter.is_zero(1));
    assert!(!filter.is_zero(4));
    assert!(filter.is_zero(0));
}

#[test]
fn is_zero_sees_a_high_bit() {
    // Value 8 has only its fourth bit set.
    let mut filter = IncOnlyMinCbf::new(2, 1, 4).unwrap();
    for _ in 0..8 {
        filter.increment_counter(0);
    }
    assert_eq!(filter.get_counter(0), 8);
    assert!(!filter.is_zero(0));
    assert!(filter.is_zero(1));
}

#[test]
fn one_bit_counter_saturates_at_one() {
    let mut filter = IncOnlyMinCbf::new(16, 3, 1).unwrap();
    assert_eq!(filter.max_value(), 1);
    filter.add(b"A");
    let indices = filter.hash_indices(b"A");
    for &index in indices.iter() {
        assert_eq!(filter.get_counter(index), 1);
    }
    assert_eq!(filter.count(b"A"), 1);
    filter.add(b"A");
    for &index in indices.iter() {
        assert_eq!(filter.get_counter(index), 1);
    }
    assert_eq!(filter.count(b"A"), 1);
}
