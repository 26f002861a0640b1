use std::collections::HashMap;

use marcharvgen::error::MarkovError;
use marcharvgen::sampling::{sample_map, sample_with, DISCARDED, RESOLUTION};
use ordered_hash_map::OrderedHashMap;

#[test]
fn test_sample_map() {
    let mut map: OrderedHashMap<char, u32> = OrderedHashMap::new();
    map.insert('a', 2);
    map.insert('b', 1);
    map.insert('c', 1);
    map.insert('d', 1);
    let mut out_map: HashMap<char, u32> = HashMap::new();
    for _ in 0..1000 {
        let sampled_char = sample_map(map.clone()).unwrap();
        let count = out_map.entry(sampled_char).or_insert(0);
        *count += 1;
    }
    // a should be the most frequently sampled
    assert!(out_map.get(&'a').unwrap() > out_map.get(&'b').unwrap());
    assert!(out_map.get(&'a').unwrap() > out_map.get(&'c').unwrap());
    assert!(out_map.get(&'a').unwrap() > out_map.get(&'d').unwrap());
}

#[test]
fn empty_distribution_is_an_error() {
    let map: OrderedHashMap<char, u32> = OrderedHashMap::new();
    assert_eq!(sample_map(map.clone()), Err(MarkovError::EmptyDistribution));
    assert_eq!(sample_with(&map, 0), Err(MarkovError::EmptyDistribution));
    assert_eq!(sample_with(&map, u64::MAX), Err(MarkovError::EmptyDistribution));
}

#[test]
fn single_entry_is_always_returned() {
    let mut map: OrderedHashMap<char, u32> = OrderedHashMap::new();
    map.insert('q', 7);
    for _ in 0..100 {
        assert_eq!(sample_map(map.clone()), Ok('q'));
    }
    for bits in [0u64, 1, 2047, 2048, u64::MAX / 2, u64::MAX].iter() {
        assert_eq!(sample_with(&map, *bits), Ok('q'));
    }
    // a single entry of weight zero is returned too
    let mut zero: OrderedHashMap<char, u32> = OrderedHashMap::new();
    zero.insert('z', 0);
    assert_eq!(sample_map(zero.clone()), Ok('z'));
    assert_eq!(sample_with(&zero, u64::MAX), Ok('z'));
}

#[test]
fn resolution_is_two_to_the_53() {
    assert_eq!(RESOLUTION, 1u64 << 53);
    assert_eq!(DISCARDED, 1u64 << 11);
    assert_eq!((u64::MAX / DISCARDED) + 1, RESOLUTION);
}

#[test]
fn draw_picks_the_first_entry_whose_cumulative_share_exceeds_it() {
    let mut map: OrderedHashMap<char, u32> = OrderedHashMap::new();
    map.insert('a', 2);
    map.insert('b', 1);
    map.insert('c', 1);
    map.insert('d', 1);
    // shares: a up to 2/5, b up to 3/5, c up to 4/5, d up to 1.
    // 2/5 of 2^53 is 3602879701896396.8
    assert_eq!(sample_with(&map, 0), Ok('a'));
    assert_eq!(sample_with(&map, 3602879701896396 * DISCARDED), Ok('a'));
    assert_eq!(sample_with(&map, 3602879701896396 * DISCARDED + 2047), Ok('a'));
    assert_eq!(sample_with(&map, 3602879701896397 * DISCARDED), Ok('b'));
    // 3/5 of 2^53 is 5404319552844595.2
    assert_eq!(sample_with(&map, 5404319552844595 * DISCARDED), Ok('b'));
    assert_eq!(sample_with(&map, 5404319552844596 * DISCARDED), Ok('c'));
    // 4/5 of 2^53 is 7205759403792793.6
    assert_eq!(sample_with(&map, 7205759403792793 * DISCARDED), Ok('c'));
    assert_eq!(sample_with(&map, 7205759403792794 * DISCARDED), Ok('d'));
    assert_eq!(sample_with(&map, u64::MAX), Ok('d'));
}

#[test]
fn exact_half_belongs_to_the_second_entry() {
    let mut map: OrderedHashMap<char, u32> = OrderedHashMap::new();
    map.insert('x', 1);
    map.insert('y', 1);
    let half = (RESOLUTION / 2) * DISCARDED;
    assert_eq!(sample_with(&map, half - 1), Ok('x'));
    // the share of `x` is one half, which is not greater than a draw of one half
    assert_eq!(sample_with(&map, half), Ok('y'));
}

#[test]
fn entries_of_weight_zero_are_passed_over() {
    let mut map: OrderedHashMap<char, u32> = OrderedHashMap::new();
    map.insert('a', 0);
    map.insert('b', 3);
    map.insert('c', 0);
    for bits in [0u64, 1, 1 << 30, u64::MAX / 3, u64::MAX].iter() {
        assert_eq!(sample_with(&map, *bits), Ok('b'));
    }
    for _ in 0..200 {
        assert_eq!(sample_map(map.clone()), Ok('b'));
    }
}

#[test]
fn all_weights_zero_gives_the_last_entry() {
    let mut map: OrderedHashMap<char, u32> = OrderedHashMap::new();
    map.insert('a', 0);
    map.insert('b', 0);
    map.insert('c', 0);
    for bits in [0u64, 1 << 40, u64::MAX].iter() {
        assert_eq!(sample_with(&map, *bits), Ok('c'));
    }
    assert_eq!(sample_map(map), Ok('c'));
}

#[test]
fn order_of_insertion_decides_not_order_of_keys() {
    let mut map: OrderedHashMap<char, u32> = OrderedHashMap::new();
    map.insert('z', 1);
    map.insert('a', 1);
    assert_eq!(sample_with(&map, 0), Ok('z'));
    assert_eq!(sample_with(&map, u64::MAX), Ok('a'));
}

#[test]
fn greatest_weights_do_not_overflow() {
    let mut map: OrderedHashMap<char, u32> = OrderedHashMap::new();
    map.insert('a', u32::MAX);
    map.insert('b', u32::MAX);
    map.insert('c', u32::MAX);
    assert_eq!(sample_with(&map, 0), Ok('a'));
    assert_eq!(sample_with(&map, u64::MAX / 2), Ok('b'));
    assert_eq!(sample_with(&map, u64::MAX), Ok('c'));
}

#[test]
fn sampling_yields_only_keys_of_the_distribution() {
    let mut map: OrderedHashMap<char, u32> = OrderedHashMap::new();
    map.insert('a', 5);
    map.insert('b', 1);
    let mut seen_a = false;
    let mut seen_b = false;
    for _ in 0..2000 {
        match sample_map(map.clone()) {
            Ok('a') => seen_a = true,
            Ok('b') => seen_b = true,
            other => panic!("unexpected sample: {:?}", other),
        }
    }
    assert!(seen_a);
    assert!(seen_b);
}
