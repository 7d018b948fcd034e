//! End-to-end behavior of the sketch: tier promotions, exactness, merge,
//! idempotence and the estimator accuracy bound.

use cardinality_estimator_safe::{CardinalityEstimator, Element, Representation, Sketch};
use wyhash::WyHash;

fn filled(n: usize) -> Sketch<12, 6> {
    let mut s = Sketch::<12, 6>::default();
    for i in 0..n {
        s.insert(Element::from_hasher_default::<WyHash, _>(&i));
    }
    s
}

#[test]
fn test_blah() {
    let _: Element<12, 6> = Element::from_hasher_default::<WyHash, _>(&123);
}

#[test]
fn sketch_test_insert() {
    // Create a new estimator.
    let mut e = Sketch::<12, 6>::default();

    // Ensure initial estimate is 0.
    assert_eq!(e.estimate(), 0);

    // Insert a test item and validate estimate.
    e.insert(Element::from_hasher_default::<WyHash, _>("test item 1"));
    assert_eq!(e.estimate(), 1);

    // Re-insert the same item, estimate should remain the same.
    e.insert(Element::from_hasher_default::<WyHash, _>("test item 1"));
    assert_eq!(e.estimate(), 1);

    // Insert a new distinct item, estimate should increase.
    e.insert(Element::from_hasher_default::<WyHash, _>("test item 2"));
    assert_eq!(e.estimate(), 2);
}

#[test]
fn estimator_test_insert() {
    // Create a new CardinalityEstimator.
    let mut e = CardinalityEstimator::<str, WyHash, 12, 6>::new();

    // Ensure initial estimate is 0.
    assert_eq!(e.estimate(), 0);

    // Insert a test item and validate estimate.
    e.insert("test item 1");
    assert_eq!(e.estimate(), 1);

    // Re-insert the same item, estimate should remain the same.
    e.insert("test item 1");
    assert_eq!(e.estimate(), 1);

    // Insert a new distinct item, estimate should increase.
    e.insert("test item 2");
    assert_eq!(e.estimate(), 2);
}

#[test]
fn one_element_is_small() {
    let s = filled(1);
    assert!(matches!(s.representation(), Representation::Small(_)));
    assert_eq!(s.estimate(), 1);
}

#[test]
fn two_elements_are_small() {
    let s = filled(2);
    assert!(matches!(s.representation(), Representation::Small(_)));
    assert_eq!(s.estimate(), 2);
}

#[test]
fn three_elements_promote_to_array() {
    let s = filled(3);
    assert!(matches!(s.representation(), Representation::Array(_)));
    assert_eq!(s.estimate(), 3);
}

#[test]
fn array_holds_capacity_exactly() {
    let s = filled(128);
    assert!(matches!(s.representation(), Representation::Array(_)));
    assert_eq!(s.estimate(), 128);
}

#[test]
fn capacity_overflow_promotes_to_registers() {
    let s = filled(129);
    assert!(matches!(s.representation(), Representation::Hll(_)));
    assert_eq!(s.estimate(), 130);
}

#[test]
fn merge_of_disjoint_streams_is_exact() {
    let mut s1 = filled(10);
    let mut s2 = Sketch::<12, 6>::default();
    for i in 10..15 {
        s2.insert(Element::from_hasher_default::<WyHash, _>(&i));
    }
    s1.merge(&s2);
    assert_eq!(s1.estimate(), 15);
}

#[test]
fn merge_is_commutative_in_outcome() {
    for (a, b) in [(0usize, 1usize), (2, 3), (100, 60), (120, 30), (200, 300)] {
        let mut left = filled(a);
        let mut right = Sketch::<12, 6>::default();
        for i in a..a + b {
            right.insert(Element::from_hasher_default::<WyHash, _>(&i));
        }
        let mut ab = filled(a);
        ab.merge(&right);
        let mut ba = right;
        ba.merge(&filled(a));
        assert_eq!(ab.estimate(), ba.estimate());
        left.merge(&ab);
        assert_eq!(left.estimate(), ab.estimate());
    }
}

#[test]
fn insert_is_idempotent_in_every_tier() {
    for n in [0usize, 1, 2, 5, 128, 200] {
        let mut s = filled(n);
        let before = s.estimate();
        s.insert(Element::from_hasher_default::<WyHash, _>(&0usize));
        s.insert(Element::from_hasher_default::<WyHash, _>(&0usize));
        if n > 0 {
            assert_eq!(s.estimate(), before);
        }
    }
}

#[test]
fn estimate_never_decreases_across_inserts() {
    let mut s = Sketch::<12, 6>::default();
    let mut last = 0usize;
    for i in 0..600usize {
        s.insert(Element::from_hasher_default::<WyHash, _>(&i));
        let e = s.estimate();
        assert!(e >= last, "estimate dropped from {} to {} at {}", last, e, i);
        last = e;
    }
}

#[test]
fn average_error_stays_within_bound() {
    let mut e = Sketch::<12, 6>::default();
    let n = 10_000usize;
    let mut total_relative_error: f64 = 0.0;
    for i in 0..n {
        e.insert(Element::from_hasher_default::<WyHash, _>(&i));
        let estimate = e.estimate() as f64;
        let actual = (i + 1) as f64;
        let relative_error = (estimate - actual).abs() / actual;
        total_relative_error += relative_error;
    }
    let avg_relative_error = total_relative_error / ((n + 1) as f64);
    let standard_error = 1.04 / 2.0f64.powi(12).sqrt();
    assert!(
        avg_relative_error <= standard_error * 1.2,
        "average relative error {} exceeds threshold",
        avg_relative_error
    );
    assert_eq!(e.estimate(), 10068);
}

#[test]
fn hashed_elements_match_the_wyhash_digest() {
    // the hashing path must feed the real wyhash digest into the encoder,
    // not the raw value
    let value: u64 = 42;
    let via_hasher = Element::<12, 6>::from_hasher_default::<WyHash, _>(value);
    let digest = wyhash::wyhash(&value.to_le_bytes(), 0);
    let via_digest = Element::<12, 6>::from_hashed(digest);
    assert_eq!(via_hasher, via_digest);
    assert_ne!(via_hasher.0, value as u32);
}

#[test]
fn duplicated_sketch_keeps_the_estimate() {
    for n in [0usize, 2, 57, 200] {
        let s = filled(n);
        let copy = s.duplicate();
        assert_eq!(copy.estimate(), s.estimate());
    }
}

#[test]
fn estimator_merge_matches_sketch_merge() {
    let mut a = CardinalityEstimator::<usize, WyHash, 12, 6>::new();
    let mut b = CardinalityEstimator::<usize, WyHash, 12, 6>::new();
    for i in 0..50usize {
        a.insert(&i);
    }
    for i in 25..75usize {
        b.insert(&i);
    }
    a.merge(&b);
    assert_eq!(a.estimate(), 75);
    let c = a.duplicate();
    assert_eq!(c.estimate(), 75);
}
