//! Path-keyed cardinality counting over streams of JSON-like records.
//!
//! A record is a tree of [`value::Value`] nodes. Flattening a record yields,
//! for every scalar leaf, an observation pairing the dot-joined object-key
//! path leading to the leaf with the leaf's scalar value. An accumulator then
//! counts, per path, how many distinct scalar values have ever been observed:
//! exactly (a set of canonical tokens) or approximately (a fixed-memory
//! cardinality sketch).

pub mod value;
pub mod flatten;
pub mod exact;
pub mod sketch;
pub mod approx;
pub mod runner;
pub mod report;
