//! Memory-footprint checks of the representation containers.

use cardinality_estimator_safe::{Array, HyperLogLog, Representation, Sketch, Small};

#[test]
fn array_size() {
    assert_eq!(std::mem::size_of::<Array<0, 0>>(), 32);
}

#[test]
fn small_small_size() {
    assert_eq!(std::mem::size_of::<Small<0, 0>>(), 8);
}

#[test]
fn hyerloglog_size() {
    assert_eq!(std::mem::size_of::<HyperLogLog<0, 0>>(), 32);
}

#[test]
fn representation_small_size() {
    assert_eq!(std::mem::size_of::<Representation<0, 0>>(), 40);
}

#[test]
fn sketch_small_size() {
    assert_eq!(Sketch::<0, 0>::default().size_of(), 8);
}
