use sketch_wasm::ranking::{bytes_less, select_top};
use sketch_wasm::{HeavyKeeper, SketchError, TopKItem};

/// A fixed pseudo-random sequence of draws from `[0, 1)`.
struct Draws {
    state: u64,
}

impl Draws {
    fn new() -> Draws {
        Draws { state: 0x2545_f491_4f6c_dd1d }
    }

    fn next_unit(&mut self) -> f64 {
        self.state = self.state.wrapping_mul(6364136223846793005).wrapping_add(1442695040888963407);
        ((self.state >> 11) as f64) / ((1u64 << 53) as f64)
    }

    fn row_draws(&mut self, depth: usize) -> Vec<u64> {
        (0..depth).map(|_| self.next_unit().to_bits()).collect()
    }
}

fn always(draw: f64, depth: usize) -> Vec<u64> {
    vec![draw.to_bits(); depth]
}

#[test]
fn test_basic_functionality() {
    let mut draws = Draws::new();
    let mut hk = HeavyKeeper::new(1000, 5, 3, 0.9f64.to_bits()).unwrap();

    for _ in 0..100 {
        hk.add_with("frequent", &draws.row_draws(5));
    }
    for _ in 0..50 {
        hk.add_with("medium", &draws.row_draws(5));
    }
    for _ in 0..10 {
        hk.add_with("rare", &draws.row_draws(5));
    }

    let top = hk.top_k();
    assert!(top.len() <= 3);
    assert!(top[0].item == "frequent");
    assert!(top[0].count >= 90);
}

#[test]
fn test_query_functionality() {
    let mut draws = Draws::new();
    let mut hk = HeavyKeeper::new(1000, 5, 3, 0.9f64.to_bits()).unwrap();

    for _ in 0..50 {
        hk.add_with("test_item", &draws.row_draws(5));
    }

    let count = hk.query("test_item");
    assert!(count >= 40 && count <= 60);

    assert_eq!(hk.query("nonexistent"), 0);
}

#[test]
fn test_decay_mechanism() {
    let mut draws = Draws::new();
    let mut hk = HeavyKeeper::new(1000, 5, 3, 0.9f64.to_bits()).unwrap();

    for _ in 0..100 {
        hk.add_with("item1", &draws.row_draws(5));
        hk.add_with("item2", &draws.row_draws(5));
    }

    let top = hk.top_k();
    assert!(top.len() >= 2);

    let item1_count = hk.query("item1");
    let item2_count = hk.query("item2");
    assert!(item1_count > 0);
    assert!(item2_count > 0);
}

#[test]
fn test_capacity_limits() {
    let mut draws = Draws::new();
    let k = 5;
    let mut hk = HeavyKeeper::new(1000, 5, k, 0.9f64.to_bits()).unwrap();

    for i in 0..10 {
        for _ in 0..(100 - i * 10) {
            hk.add_with(&format!("item{}", i), &draws.row_draws(5));
        }
    }

    let top = hk.top_k();
    assert_eq!(top.len(), k);

    for i in 1..top.len() {
        assert!(top[i - 1].count >= top[i].count);
    }
}

#[test]
fn test_min_heap_efficiency() {
    let mut draws = Draws::new();
    let mut hk = HeavyKeeper::new(100, 3, 5, 0.9f64.to_bits()).unwrap();

    for i in 0..20 {
        for _ in 0..(20 - i) {
            hk.add_with(&format!("item{}", i), &draws.row_draws(3));
        }
    }

    let top = hk.top_k();
    assert_eq!(top.len(), 5);

    for i in 1..top.len() {
        assert!(top[i - 1].count >= top[i].count);
    }

    assert!(top[0].item == "item0" || top[0].count >= 15);
}

#[test]
fn keeper_rejects_bad_parameters() {
    let half = 0.5f64.to_bits();
    assert_eq!(HeavyKeeper::new(0, 5, 3, half).err(), Some(SketchError::InvalidParameter));
    assert_eq!(HeavyKeeper::new(10, 0, 3, half).err(), Some(SketchError::InvalidParameter));
    for decay in [0.0f64, 1.0, -0.5, 1.5, -0.0, f64::NAN, f64::INFINITY] {
        assert_eq!(
            HeavyKeeper::new(10, 5, 3, decay.to_bits()).err(),
            Some(SketchError::InvalidParameter)
        );
    }
    assert!(HeavyKeeper::new(1, 1, 0, half).is_ok());
    assert!(HeavyKeeper::new(10, 5, 3, 0.999f64.to_bits()).is_ok());
    assert!(HeavyKeeper::new(10, 5, 3, 1e-300f64.to_bits()).is_ok());
}

#[test]
fn keeper_keeps_its_dimensions() {
    let hk = HeavyKeeper::new(7, 4, 3, 0.9f64.to_bits()).unwrap();
    assert_eq!(hk.width(), 7);
    assert_eq!(hk.depth(), 4);
    assert_eq!(hk.k(), 3);
    assert!(hk.top_k().is_empty());
    assert_eq!(hk.query("x"), 0);
}

#[test]
fn collisions_follow_the_draws() {
    // One slot: every item collides with the occupant.
    let mut hk = HeavyKeeper::new(1, 1, 2, 0.5f64.to_bits()).unwrap();
    hk.add_with("a", &always(0.0, 1));
    assert_eq!(hk.query("a"), 1);
    hk.add_with("a", &always(0.0, 1));
    hk.add_with("a", &always(0.99, 1));
    assert_eq!(hk.query("a"), 3);

    // A draw at or above the decay probability leaves the occupant alone.
    hk.add_with("b", &always(0.5, 1));
    hk.add_with("b", &always(0.9, 1));
    assert_eq!(hk.query("a"), 3);
    assert_eq!(hk.query("b"), 0);

    // A draw below it takes one count away.
    hk.add_with("b", &always(0.1, 1));
    assert_eq!(hk.query("a"), 2);
    hk.add_with("b", &always(0.49, 1));
    assert_eq!(hk.query("a"), 1);
    assert_eq!(hk.query("b"), 0);

    // The last count is used up: the newcomer takes the slot.
    hk.add_with("b", &always(0.0, 1));
    assert_eq!(hk.query("a"), 0);
    assert_eq!(hk.query("b"), 1);

    let top = hk.top_k();
    assert_eq!(top.len(), 1);
    assert_eq!(top[0].item(), "b");
    assert_eq!(top[0].count(), 1);
}

#[test]
fn add_without_collision_needs_no_draw() {
    let mut hk = HeavyKeeper::new(16, 4, 2, 0.9f64.to_bits()).unwrap();
    for _ in 0..10 {
        hk.add("only");
    }
    assert_eq!(hk.query("only"), 10);
    let top = hk.top_k();
    assert_eq!(top.len(), 1);
    assert_eq!(top[0].item, "only");
    assert_eq!(top[0].count, 40);
}

#[test]
fn empty_string_is_an_item() {
    let mut hk = HeavyKeeper::new(16, 2, 2, 0.9f64.to_bits()).unwrap();
    assert_eq!(hk.query(""), 0);
    hk.add_with("", &always(0.0, 2));
    hk.add_with("", &always(0.0, 2));
    assert_eq!(hk.query(""), 2);
    let top = hk.top_k();
    assert_eq!(top.len(), 1);
    assert_eq!(top[0].item, "");
    assert_eq!(top[0].count, 4);
}

#[test]
fn top_k_sums_rows_and_query_takes_the_least() {
    let mut hk = HeavyKeeper::new(1000, 3, 4, 0.9f64.to_bits()).unwrap();
    for _ in 0..7 {
        hk.add_with("seven", &always(0.99, 3));
    }
    assert_eq!(hk.query("seven"), 7);
    let top = hk.top_k();
    assert_eq!(top.len(), 1);
    assert_eq!(top[0].count, 21);
}

#[test]
fn top_k_never_exceeds_k_and_is_sorted() {
    let mut draws = Draws::new();
    for k in 0..6usize {
        let mut hk = HeavyKeeper::new(32, 3, k, 0.7f64.to_bits()).unwrap();
        for i in 0..40 {
            for _ in 0..(1 + i % 7) {
                hk.add_with(&format!("it{}", i), &draws.row_draws(3));
            }
            let top = hk.top_k();
            assert!(top.len() <= k);
            for w in top.windows(2) {
                assert!(
                    w[0].count > w[1].count || (w[0].count == w[1].count && w[0].item < w[1].item)
                );
            }
        }
    }
}

#[test]
fn never_added_item_counts_zero() {
    let mut draws = Draws::new();
    let mut hk = HeavyKeeper::new(4, 3, 2, 0.9f64.to_bits()).unwrap();
    for i in 0..200 {
        hk.add_with(&format!("seen{}", i % 17), &draws.row_draws(3));
    }
    for i in 0..50 {
        assert_eq!(hk.query(&format!("unseen{}", i)), 0);
    }
}

#[test]
fn ties_are_listed_by_item() {
    let entries = vec![
        TopKItem::new("pear".to_string(), 3),
        TopKItem::new("apple".to_string(), 3),
        TopKItem::new("fig".to_string(), 9),
        TopKItem::new("app".to_string(), 3),
        TopKItem::new("zebra".to_string(), 1),
    ];
    let listed: Vec<(String, u32)> =
        select_top(&entries, 4).iter().map(|e| (e.item(), e.count())).collect();
    assert_eq!(
        listed,
        vec![
            ("fig".to_string(), 9),
            ("app".to_string(), 3),
            ("apple".to_string(), 3),
            ("pear".to_string(), 3),
        ]
    );
    assert!(select_top(&entries, 0).is_empty());
    assert_eq!(select_top(&entries, 10).len(), 5);
}

#[test]
fn entries_rank_by_count_then_item() {
    let a = TopKItem::new("a".to_string(), 5);
    let b = TopKItem::new("b".to_string(), 5);
    let c = TopKItem::new("c".to_string(), 6);
    assert!(a.goes_before(&b));
    assert!(!b.goes_before(&a));
    assert!(c.goes_before(&a));
    assert!(!a.goes_before(&c));
    assert!(a.goes_before(&a.duplicate()));
}

#[test]
fn bytes_compare_lexicographically() {
    assert!(bytes_less(b"", b"a"));
    assert!(!bytes_less(b"", b""));
    assert!(!bytes_less(b"a", b""));
    assert!(bytes_less(b"a", b"b"));
    assert!(bytes_less(b"ab", b"b"));
    assert!(bytes_less(b"app", b"apple"));
    assert!(!bytes_less(b"apple", b"app"));
    assert!(!bytes_less(b"same", b"same"));
    for (x, y) in [("a", "b"), ("item10", "item2"), ("é", "z"), ("", "x"), ("ab", "a")] {
        assert_eq!(bytes_less(x.as_bytes(), y.as_bytes()), x < y);
    }
}

#[test]
fn counts_saturate() {
    let entries = vec![TopKItem::new("x".to_string(), u32::MAX)];
    let top = select_top(&entries, 1);
    assert_eq!(top[0].count(), u32::MAX);
}
