use std::collections::hash_map::DefaultHasher;
use std::hash::{Hash, Hasher};

use iomcbf::index::{hash_slot, reduce};
use iomcbf::IncOnlyMinCbf;

#[test]
fn one_insertion_is_found_and_counted_once() {
    let mut filter = IncOnlyMinCbf::new(16, 3, 4).unwrap();
    filter.add(b"A");
    assert!(filter.contains(b"A"));
    assert_eq!(filter.count(b"A"), 1);
}

#[test]
fn twenty_insertions_saturate_at_fifteen() {
    let mut filter = IncOnlyMinCbf::new(16, 3, 4).unwrap();
    let mut last = 0;
    for _ in 0..20 {
        filter.add(b"A");
        let now = filter.count(b"A");
        assert!(now >= last);
        last = now;
    }
    assert_eq!(filter.count(b"A"), 15);
    assert!(filter.contains(b"A"));
}

#[test]
fn a_fresh_filter_holds_nothing() {
    let filter = IncOnlyMinCbf::new(16, 3, 4).unwrap();
    assert!(!filter.contains(b"B"));
    assert_eq!(filter.count(b"B"), 0);
}

#[test]
fn hash_indices_gives_one_position_per_slot_below_size() {
    let filter = IncOnlyMinCbf::new(1000, 7, 4).unwrap();
    let indices = filter.hash_indices(b"ACGTACGT");
    assert_eq!(indices.len(), 7);
    for &index in indices.iter() {
        assert!(index < 1000);
    }
}

#[test]
fn hash_indices_is_the_same_on_every_call() {
    let filter = IncOnlyMinCbf::new(1000, 7, 4).unwrap();
    let first = filter.hash_indices(b"ACGTACGT");
    let second = filter.hash_indices(b"ACGTACGT");
    assert_eq!(first, second);
    let twin = IncOnlyMinCbf::new(1000, 7, 8).unwrap();
    assert_eq!(twin.hash_indices(b"ACGTACGT"), first);
}

#[test]
fn hash_indices_does_not_depend_on_the_counters() {
    let mut filter = IncOnlyMinCbf::new(64, 5, 4).unwrap();
    let before = filter.hash_indices(b"GATTACA");
    filter.add(b"GATTACA");
    filter.add(b"TTTT");
    assert_eq!(filter.hash_indices(b"GATTACA"), before);
}

#[test]
fn hash_slot_hashes_the_slot_number_then_the_closed_item() {
    for ordinal in [0usize, 1, 2, 6, 300] {
        let mut hasher = DefaultHasher::new();
        hasher.write(&(ordinal as u64).to_le_bytes());
        hasher.write(b"ACGT");
        hasher.write(&[0xff]);
        assert_eq!(hash_slot(ordinal, b"ACGT"), hasher.finish());
    }
}

#[test]
fn hash_slot_of_an_empty_item() {
    let mut hasher = DefaultHasher::new();
    hasher.write(&[3, 0, 0, 0, 0, 0, 0, 0]);
    hasher.write(&[0xff]);
    assert_eq!(hash_slot(3, b""), hasher.finish());
}

#[test]
fn positions_are_those_of_the_slot_number_and_the_string() {
    // Holds where `usize` is eight bytes, least significant first.
    if std::mem::size_of::<usize>() == 8 && 1u16.to_ne_bytes()[0] == 1 {
        let kmer = String::from("ACGTTGCAACGTTGCAACGTTGCAACGTTGC");
        let filter = IncOnlyMinCbf::new(1000, 7, 4).unwrap();
        let indices = filter.hash_indices(kmer.as_bytes());
        for i in 0..7usize {
            let mut hasher = DefaultHasher::new();
            i.hash(&mut hasher);
            kmer.hash(&mut hasher);
            assert_eq!(indices[i], (hasher.finish() as usize) % 1000);
        }
    }
}

#[test]
fn slots_hash_differently() {
    assert_ne!(hash_slot(0, b"ACGT"), hash_slot(1, b"ACGT"));
    assert_ne!(hash_slot(0, b"ACGT"), hash_slot(0, b"ACGA"));
}

#[test]
fn reduce_is_the_remainder() {
    assert_eq!(reduce(0, 16), 0);
    assert_eq!(reduce(35, 16), 3);
    assert_eq!(reduce(u64::MAX, 16), 15);
    assert_eq!(reduce(u64::MAX, 1), 0);
    assert_eq!(reduce(1_000_003, 1000), 3);
}

#[test]
fn hash_indices_reduces_each_slot_hash() {
    let filter = IncOnlyMinCbf::new(50, 4, 4).unwrap();
    let indices = filter.hash_indices(b"kmer");
    for ordinal in 0..4 {
        assert_eq!(indices[ordinal], reduce(hash_slot(ordinal, b"kmer"), 50));
    }
}

#[test]
fn add_is_add_at_the_items_positions() {
    let mut by_item = IncOnlyMinCbf::new(32, 4, 4).unwrap();
    let mut by_positions = IncOnlyMinCbf::new(32, 4, 4).unwrap();
    for item in [&b"ACGT"[..], b"TTGA", b"ACGT", b"CCCC"] {
        by_item.add(item);
        let indices = by_positions.hash_indices(item);
        by_positions.add_at(&indices);
    }
    for index in 0..32 {
        assert_eq!(by_item.get_counter(index), by_positions.get_counter(index));
    }
    let indices = by_item.hash_indices(b"ACGT");
    assert_eq!(by_item.count(b"ACGT"), by_item.count_at(&indices));
    assert_eq!(by_item.contains(b"ACGT"), by_item.contains_at(&indices));
}

#[test]
fn inserted_items_are_always_found() {
    let mut filter = IncOnlyMinCbf::new(64, 3, 4).unwrap();
    let items: [&[u8]; 6] = [b"AAAA", b"AAAC", b"AAAG", b"AAAT", b"AACA", b"AACC"];
    for item in items {
        filter.add(item);
    }
    for item in items {
        assert!(filter.contains(item));
    }
    for round in 0..30 {
        filter.add(items[round % 3]);
        for item in items {
            assert!(filter.contains(item));
        }
    }
}

#[test]
fn counts_are_never_below_the_insertions() {
    let mut filter = IncOnlyMinCbf::new(256, 4, 4).unwrap();
    let items: [&[u8]; 5] = [b"one", b"two", b"three", b"four", b"five"];
    let times: [u32; 5] = [1, 2, 7, 15, 40];
    for round in 0..40 {
        for which in 0..5 {
            if round < times[which] {
                filter.add(items[which]);
            }
        }
    }
    for which in 0..5 {
        let expected = times[which].min(15);
        assert!(filter.count(items[which]) >= expected);
        assert!(filter.count(items[which]) <= 15);
    }
    assert_eq!(filter.count(items[4]), 15);
    assert_eq!(filter.count(items[3]), 15);
}

#[test]
fn counts_never_fall_as_items_arrive() {
    let mut filter = IncOnlyMinCbf::new(32, 3, 3).unwrap();
    let items: [&[u8]; 4] = [b"w", b"x", b"y", b"z"];
    let mut last = [0u32; 4];
    for round in 0..24 {
        filter.add(items[round % 4]);
        for which in 0..4 {
            let now = filter.count(items[which]);
            assert!(now >= last[which]);
            last[which] = now;
        }
    }
}

#[test]
fn minimum_policy_never_counts_above_the_plain_policy() {
    let mut careful = IncOnlyMinCbf::new(24, 3, 4).unwrap();
    let mut plain = IncOnlyMinCbf::new(24, 3, 4).unwrap();
    let items: [&[u8]; 8] = [b"a", b"b", b"c", b"d", b"e", b"f", b"g", b"h"];
    for round in 0..40 {
        let item = items[(round * 5 + round / 3) % 8];
        careful.add(item);
        plain.add_all(item);
        for index in 0..24 {
            assert!(careful.get_counter(index) <= plain.get_counter(index));
        }
        for probe in items {
            assert!(careful.count(probe) <= plain.count(probe));
        }
    }
}

#[test]
fn add_all_finds_what_it_inserted() {
    let mut plain = IncOnlyMinCbf::new(16, 3, 4).unwrap();
    plain.add_all(b"A");
    assert!(plain.contains(b"A"));
    assert!(plain.count(b"A") >= 1);
}

#[test]
fn add_all_raises_each_position_of_the_item() {
    let mut plain = IncOnlyMinCbf::new(4096, 3, 4).unwrap();
    plain.add_all(b"A");
    plain.add_all(b"A");
    let mut indices = plain.hash_indices(b"A");
    indices.sort();
    indices.dedup();
    for index in 0..4096 {
        let touched = indices.contains(&index);
        assert_eq!(plain.get_counter(index) > 0, touched);
    }
}
