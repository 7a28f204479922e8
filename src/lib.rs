//! Streaming log anomaly detection: deduplication of tokenized lines,
//! chunked distance search results, and context assembly around anomalies.
//!
//! Line framing, tokenization and the similarity index are supplied by the
//! caller: this crate decides what to search, and what to report from the
//! distances it is given.
use vstd::prelude::*;

pub mod known_lines;
pub mod context;
pub mod trainer;
pub mod marker;
pub mod walk;
pub mod processor;

verus! {

/// Maximum number of lines of context kept before and after an anomaly.
pub const CTX_DISTANCE: usize = 3;

/// Number of unique tokenized lines searched at once.
pub const CHUNK_SIZE: usize = 512;

/// The anomaly cutoff `0.3`, as the bit pattern of an `f32`.
///
/// Distances are non-negative `f32` values carried as their bit patterns
/// (`f32::to_bits`); for non-negative floats the unsigned order of the bit
/// patterns is the numeric order, so `d > THRESHOLD` holds of the bits
/// exactly when it holds of the floats.
pub const THRESHOLD: u32 = 0x3E99_999A;

} // verus!
