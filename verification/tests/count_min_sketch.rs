use sketch_wasm::{CountMinSketch, SketchError};
use std::collections::HashMap;

#[test]
fn test_count_min_sketch() {
    let mut cms = CountMinSketch::new(1000, 5).unwrap();

    cms.increment("test");
    cms.increment("test");
    assert_eq!(cms.estimate("test"), 2);

    cms.increment("other");
    assert_eq!(cms.estimate("other"), 1);

    cms.clear();
    assert_eq!(cms.estimate("test"), 0);
}

#[test]
fn it_works() {
    assert_eq!(2 + 2, 4);
}

#[test]
fn sketch_rejects_zero_dimensions() {
    assert_eq!(CountMinSketch::new(0, 5).err(), Some(SketchError::InvalidParameter));
    assert_eq!(CountMinSketch::new(1000, 0).err(), Some(SketchError::InvalidParameter));
    assert!(CountMinSketch::new(1, 1).is_ok());
}

#[test]
fn sketch_keeps_its_dimensions() {
    let cms = CountMinSketch::new(17, 3).unwrap();
    assert_eq!(cms.width(), 17);
    assert_eq!(cms.depth(), 3);
}

#[test]
fn sketch_never_undercounts() {
    let mut cms = CountMinSketch::new(8, 2).unwrap();
    let mut truth: HashMap<String, u32> = HashMap::new();
    for round in 0..50u32 {
        for i in 0..40u32 {
            if (round + i) % 3 == 0 {
                let item = format!("w{}", i);
                cms.increment(&item);
                *truth.entry(item).or_insert(0) += 1;
            }
        }
    }
    for (item, count) in &truth {
        assert!(cms.estimate(item) >= *count);
    }
}

#[test]
fn sketch_single_counter_counts_everything() {
    let mut cms = CountMinSketch::new(1, 1).unwrap();
    assert_eq!(cms.estimate("a"), 0);
    cms.increment("a");
    cms.increment("b");
    cms.increment("c");
    assert_eq!(cms.estimate("a"), 3);
    assert_eq!(cms.estimate("never seen"), 3);
}

#[test]
fn sketch_clear_resets_every_estimate() {
    let mut cms = CountMinSketch::new(4, 3).unwrap();
    for i in 0..30 {
        cms.increment(&format!("x{}", i));
    }
    cms.clear();
    for i in 0..60 {
        assert_eq!(cms.estimate(&format!("x{}", i)), 0);
    }
    assert_eq!(cms.width(), 4);
    assert_eq!(cms.depth(), 3);
}
