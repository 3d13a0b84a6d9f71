use sketch_wasm::{BloomFilter, SketchError};
use std::collections::HashSet;

/// Bits needed for `items` items at the given false-positive rate.
fn optimal_size(items: usize, false_positive_rate: f64) -> usize {
    let ln2 = std::f64::consts::LN_2;
    let size = -(items as f64 * false_positive_rate.ln()) / (ln2 * ln2);
    size.ceil() as usize
}

/// Hash functions needed for `size` bits and `items` items.
fn optimal_hash_count(size: usize, items: usize) -> usize {
    let ln2 = std::f64::consts::LN_2;
    let hash_count = (size as f64 / items as f64) * ln2;
    hash_count.ceil() as usize
}

fn sized(expected_items: usize, false_positive_rate: f64) -> BloomFilter {
    assert_eq!(BloomFilter::validate(expected_items, false_positive_rate.to_bits()), Ok(()));
    let size = optimal_size(expected_items, false_positive_rate);
    let hash_count = optimal_hash_count(size, expected_items);
    BloomFilter::new(size, hash_count).unwrap()
}

#[test]
fn test_optimal_size_calculation() {
    let size = optimal_size(1000, 0.01);
    assert!(size > 0);
    assert!(size >= 1000);
    assert_eq!(size, 9586);
    assert_eq!(sized(1000, 0.01).size(), size);
}

#[test]
fn test_optimal_hash_count_calculation() {
    let size = optimal_size(1000, 0.01);
    let hash_count = optimal_hash_count(size, 1000);
    assert!(hash_count > 0);
    assert!(hash_count <= 10);
    assert_eq!(hash_count, 7);
    assert_eq!(sized(1000, 0.01).hash_count(), hash_count);
}

#[test]
fn test_basic_insert_and_contains() {
    let mut filter = sized(100, 0.01);
    filter.insert("test");
    assert!(filter.contains("test"));
    assert!(!filter.contains("not_present"));
}

#[test]
fn test_false_positive_rate() {
    let mut filter = sized(1000, 0.01);
    let mut inserted = HashSet::new();

    for i in 0..1000 {
        let item = format!("item_{}", i);
        filter.insert(&item);
        inserted.insert(item);
    }

    let mut false_positives = 0;
    let test_count = 10000;

    for i in 0..test_count {
        let item = format!("test_{}", i);
        if !inserted.contains(&item) && filter.contains(&item) {
            false_positives += 1;
        }
    }

    let false_positive_rate = false_positives as f64 / test_count as f64;
    assert!(false_positive_rate <= 0.02);
}

#[test]
fn test_empty_filter() {
    let filter = sized(100, 0.01);
    assert!(!filter.contains("any_item"));
}

#[test]
fn test_multiple_inserts() {
    let mut filter = sized(100, 0.01);
    filter.insert("duplicate");
    filter.insert("duplicate");
    assert!(filter.contains("duplicate"));
}

#[test]
fn test_edge_cases() {
    let mut filter = sized(100, 0.01);
    filter.insert("");
    assert!(filter.contains(""));

    filter.insert(
        "very_long_string_that_might_cause_issues_with_hashing_and_should_be_handled_properly",
    );
    assert!(filter.contains(
        "very_long_string_that_might_cause_issues_with_hashing_and_should_be_handled_properly"
    ));
}

#[test]
fn bloom_dimensions_are_kept() {
    let filter = BloomFilter::new(959, 7).unwrap();
    assert_eq!(filter.size(), 959);
    assert_eq!(filter.hash_count(), 7);
}

#[test]
fn bloom_rejects_zero_dimensions() {
    assert_eq!(BloomFilter::new(0, 7).err(), Some(SketchError::InvalidParameter));
    assert_eq!(BloomFilter::new(959, 0).err(), Some(SketchError::InvalidParameter));
    assert_eq!(BloomFilter::new(0, 0).err(), Some(SketchError::InvalidParameter));
    assert!(BloomFilter::new(1, 1).is_ok());
}

#[test]
fn bloom_has_no_false_negatives() {
    let mut filter = BloomFilter::new(64, 3).unwrap();
    let items: Vec<String> = (0..200).map(|i| format!("key-{}", i)).collect();
    for (n, item) in items.iter().enumerate() {
        filter.insert(item);
        for earlier in &items[..=n] {
            assert!(filter.contains(earlier));
        }
    }
}

#[test]
fn bloom_single_bit_filter_saturates() {
    let mut filter = BloomFilter::new(1, 1).unwrap();
    assert!(!filter.contains("a"));
    filter.insert("a");
    assert!(filter.contains("a"));
    assert!(filter.contains("anything else"));
}

#[test]
fn bloom_rejects_requests_that_cannot_be_sized() {
    let invalid = Err(SketchError::InvalidParameter);
    assert_eq!(BloomFilter::validate(0, 0.01f64.to_bits()), invalid);
    for rate in [0.0f64, 1.0, -0.01, 1.01, -0.0, f64::NAN, f64::INFINITY, f64::NEG_INFINITY] {
        assert_eq!(BloomFilter::validate(100, rate.to_bits()), invalid);
    }
    assert_eq!(BloomFilter::validate(1, 0.5f64.to_bits()), Ok(()));
    assert_eq!(BloomFilter::validate(usize::MAX, 0.999f64.to_bits()), Ok(()));
    assert_eq!(BloomFilter::validate(1000, 1e-12f64.to_bits()), Ok(()));
}
