use sketch_wasm::hyperloglog::{hash_bytes, hash_item, mix_in, rank, rotate_left};
use sketch_wasm::{HyperLogLog, SketchError};

fn reference_hash(value: &str) -> u32 {
    let mut h1 = 0xdeadbeef_u32;
    let c1 = 0xcc9e2d51_u32;
    let c2 = 0x1b873593_u32;

    for byte in value.bytes() {
        let mut k1 = byte as u32;
        k1 = k1.wrapping_mul(c1);
        k1 = k1.rotate_left(15);
        k1 = k1.wrapping_mul(c2);

        h1 ^= k1;
        h1 = h1.rotate_left(13);
        h1 = h1.wrapping_mul(5).wrapping_add(0xe6546b64);
    }

    h1 ^= value.len() as u32;
    h1 ^= h1 >> 16;
    h1 = h1.wrapping_mul(0x85ebca6b);
    h1 ^= h1 >> 13;
    h1 = h1.wrapping_mul(0xc2b2ae35);
    h1 ^= h1 >> 16;
    h1
}

fn reference_rank(hash: u32, p: u8) -> u8 {
    let w = hash >> p;
    if w == 0 {
        32 - p + 1
    } else {
        (w << p).leading_zeros() as u8 + 1
    }
}

/// The cardinality estimate computed from a sketch's registers.
fn estimate(hll: &HyperLogLog) -> f64 {
    let registers = hll.registers();
    let m = registers.len() as f64;
    let alpha = match registers.len() {
        16 => 0.673,
        32 => 0.697,
        64 => 0.709,
        _ => 0.7213 / (1.0 + 1.079 / m),
    };
    let sum: f64 = registers.iter().map(|&val| 2.0_f64.powf(-(val as f64))).sum();
    assert_eq!(sum, hll.scaled_harmonic_sum() as f64 / 4294967296.0);
    let mut estimate = (alpha * m * m) / sum;
    if estimate <= 2.5 * m {
        let zeros = hll.zero_registers();
        if zeros != 0 {
            estimate = m * (m / (zeros as f64)).ln();
        }
    }
    let large_threshold = 2.0_f64.powf(32.0) / 30.0;
    if estimate > large_threshold {
        estimate = -(2.0_f64.powf(32.0)) * (1.0 - estimate / 2.0_f64.powf(32.0)).ln();
    }
    if !estimate.is_finite() || estimate <= 0.0 {
        return 0.0;
    }
    estimate.round()
}

#[test]
fn rotation_matches_the_machine() {
    for x in [0u32, 1, 0x8000_0000, 0xdead_beef, u32::MAX, 0x1234_5678] {
        for r in 1..32u32 {
            assert_eq!(rotate_left(x, r), x.rotate_left(r));
        }
    }
}

#[test]
fn hash_matches_the_mixing_function() {
    assert_eq!(hash_item(""), reference_hash(""));
    for item in ["a", "test", "hello world", "héllo", "0123456789abcdef0123456789abcdef"] {
        assert_eq!(hash_item(item), reference_hash(item));
        assert_eq!(hash_bytes(item.as_bytes()), reference_hash(item));
    }
    assert_ne!(hash_item("a"), hash_item("b"));
}

#[test]
fn mixing_one_byte() {
    let k = (0x61u32.wrapping_mul(0xcc9e2d51)).rotate_left(15).wrapping_mul(0x1b873593);
    let expected = (0xdeadbeefu32 ^ k).rotate_left(13).wrapping_mul(5).wrapping_add(0xe6546b64);
    assert_eq!(mix_in(0xdeadbeef, 0x61), expected);
}

#[test]
fn rank_counts_leading_zeros() {
    assert_eq!(rank(0, 4), 29);
    assert_eq!(rank(0, 16), 17);
    assert_eq!(rank(0xf, 4), 29);
    assert_eq!(rank(0x8000_0000, 4), 1);
    assert_eq!(rank(0x4000_0000, 14), 2);
    assert_eq!(rank(0x10, 4), 28);
    assert_eq!(rank(0x1_0000, 16), 16);
    assert_eq!(rank(u32::MAX, 10), 1);
    for p in 4..=16u8 {
        for hash in [0u32, 1, 0x10, 0xffff, 0x1_0000, 0xdead_beef, 0x7fff_ffff, u32::MAX] {
            assert_eq!(rank(hash, p), reference_rank(hash, p));
        }
    }
}

#[test]
fn precision_out_of_range_is_rejected() {
    assert_eq!(HyperLogLog::new(Some(3)).err(), Some(SketchError::InvalidParameter));
    assert_eq!(HyperLogLog::new(Some(17)).err(), Some(SketchError::InvalidParameter));
    assert_eq!(HyperLogLog::new(Some(0)).err(), Some(SketchError::InvalidParameter));
    assert_eq!(HyperLogLog::new(Some(255)).err(), Some(SketchError::InvalidParameter));
    assert!(HyperLogLog::new(Some(4)).is_ok());
    assert!(HyperLogLog::new(Some(16)).is_ok());
}

#[test]
fn default_precision_is_fourteen() {
    let hll = HyperLogLog::new(None).unwrap();
    assert_eq!(hll.precision(), 14);
    assert_eq!(hll.registers().len(), 16384);
}

#[test]
fn new_sketch_is_empty() {
    for p in 4..=16u8 {
        let hll = HyperLogLog::new(Some(p)).unwrap();
        let registers = hll.registers();
        assert_eq!(registers.len(), 1usize << p);
        assert!(registers.iter().all(|&r| r == 0));
        assert_eq!(hll.zero_registers(), 1usize << p);
        assert_eq!(estimate(&hll), 0.0);
    }
}

#[test]
fn add_raises_one_register_to_the_rank() {
    let mut hll = HyperLogLog::new(Some(10)).unwrap();
    hll.add("test");
    let hash = reference_hash("test");
    let index = (hash & 1023) as usize;
    let registers = hll.registers();
    for (i, &r) in registers.iter().enumerate() {
        if i == index {
            assert_eq!(r, reference_rank(hash, 10));
        } else {
            assert_eq!(r, 0);
        }
    }
    assert_eq!(hll.zero_registers(), 1023);
    hll.add("test");
    assert_eq!(hll.registers(), registers);
}

#[test]
fn registers_only_grow() {
    let mut hll = HyperLogLog::new(Some(4)).unwrap();
    let mut before = hll.registers();
    for i in 0..500 {
        hll.add(&format!("v{}", i));
        let after = hll.registers();
        for (a, b) in before.iter().zip(after.iter()) {
            assert!(a <= b);
            assert!(*b <= 29);
        }
        before = after;
    }
}

#[test]
fn estimate_is_close_for_many_items() {
    let mut hll = HyperLogLog::new(Some(12)).unwrap();
    for i in 0..20000 {
        hll.add(&format!("user-{}", i));
    }
    let count = estimate(&hll);
    assert!((count - 20000.0).abs() / 20000.0 < 0.1);
}

#[test]
fn merge_takes_the_greater_register() {
    let mut a = HyperLogLog::new(Some(6)).unwrap();
    let mut b = HyperLogLog::new(Some(6)).unwrap();
    for i in 0..100 {
        a.add(&format!("a{}", i));
        b.add(&format!("b{}", i));
    }
    let ra = a.registers();
    let rb = b.registers();
    assert_eq!(a.merge(&b), Ok(()));
    let merged = a.registers();
    for i in 0..64 {
        assert_eq!(merged[i], ra[i].max(rb[i]));
    }
    assert_eq!(b.registers(), rb);
}

#[test]
fn merge_is_commutative_and_idempotent() {
    let mut a = HyperLogLog::new(Some(8)).unwrap();
    let mut b = HyperLogLog::new(Some(8)).unwrap();
    let mut a2 = HyperLogLog::new(Some(8)).unwrap();
    let mut b2 = HyperLogLog::new(Some(8)).unwrap();
    for i in 0..300 {
        a.add(&format!("left{}", i));
        a2.add(&format!("left{}", i));
        b.add(&format!("right{}", i));
        b2.add(&format!("right{}", i));
    }
    assert_eq!(a.merge(&b2), Ok(()));
    assert_eq!(b.merge(&a2), Ok(()));
    assert_eq!(a.registers(), b.registers());

    let before = a.registers();
    assert_eq!(a.merge(&b), Ok(()));
    assert_eq!(a.registers(), before);
}

#[test]
fn merge_of_different_precisions_fails() {
    let mut a = HyperLogLog::new(Some(8)).unwrap();
    let b = HyperLogLog::new(Some(9)).unwrap();
    a.add("x");
    let before = a.registers();
    assert_eq!(a.merge(&b), Err(SketchError::DimensionMismatch));
    assert_eq!(a.registers(), before);
}

#[test]
fn clear_zeroes_the_registers() {
    let mut hll = HyperLogLog::new(Some(5)).unwrap();
    for i in 0..100 {
        hll.add(&format!("v{}", i));
    }
    assert!(hll.zero_registers() < 32);
    hll.clear();
    assert_eq!(hll.registers(), vec![0u8; 32]);
    assert_eq!(hll.zero_registers(), 32);
    assert_eq!(hll.precision(), 5);
    assert_eq!(estimate(&hll), 0.0);
}

#[test]
fn harmonic_sum_is_exact() {
    let mut hll = HyperLogLog::new(Some(4)).unwrap();
    assert_eq!(hll.scaled_harmonic_sum(), 16u64 << 32);
    hll.add("test");
    let r = reference_rank(reference_hash("test"), 4);
    assert_eq!(hll.scaled_harmonic_sum(), (15u64 << 32) + (1u64 << (32 - r)));
    let full = HyperLogLog::new(Some(16)).unwrap();
    assert_eq!(full.scaled_harmonic_sum(), 65536u64 << 32);
}
