//! A cardinality sketch: a probabilistic distinct-count data structure.
//!
//! The sketch estimates the number of distinct elements in a stream using
//! bounded memory.  It scales its representation to the observed load:
//! a single packed word for up to two elements, an exact deduplicated
//! array for up to 128, and a HyperLogLog-style register file beyond that.

pub mod array;
pub mod codec;
pub mod element;
pub mod equality;
pub mod estimate;
pub mod estimator;
pub mod float_bits;
pub mod hyperloglog;
pub mod json;
pub mod laws;
pub mod representation;
pub mod sketch;
pub mod small;

pub use array::Array;
pub use codec::DeserializeError;
pub use element::Element;
pub use estimator::CardinalityEstimator;
pub use representation::Representation;
pub use hyperloglog::HyperLogLog;
pub use sketch::Sketch;
pub use small::Small;
