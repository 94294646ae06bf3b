//! A probabilistic set-membership library: a Bloom filter and a counting
//! variant that supports deletion, both backed by word-packed storage.
//!
//! The storage layer packs boolean flags (one bit each) or 4-bit saturating
//! counters into 64-bit words.  A builder derives consistent filter
//! dimensions (bit size, hash count, expected element count) from one
//! another; membership operations hash each element to `hashes` positions
//! in `[0, size)` and mutate or query the storage at those positions.
use vstd::prelude::*;

pub mod bloom;
pub mod builder;
pub mod hash;
pub mod vec;

verus! {

/// Errors reported by operations that combine two filters or two storage
/// vectors.
#[derive(Clone, Copy, Debug, PartialEq, Eq, Structural)]
pub enum FilterError {
    /// Two filters were combined whose configurations differ in bit size
    /// or hash count.
    ConfigurationMismatch,
    /// Two storage vectors of different word counts were combined.
    IncompatibleSize,
}

} // verus!
