//! A word-embedding store.
//!
//! The crate keeps a vocabulary of words, a matrix with one row per word
//! (plus, optionally, rows for hashed subword buckets), an optional cache of
//! per-row norms and an optional metadata document.  On top of that it
//! offers embedding lookup with subword fallback, cosine-similarity and
//! analogy ranking, iteration in row order, and a byte-level container
//! format that round-trips a store exactly.
//!
//! Vector components are IEEE 754 single-precision values carried as their
//! `u32` bit patterns; the scalar arithmetic itself is delegated to a
//! software floating-point library.

use vstd::prelude::*;

pub mod container;
pub mod embeddings;
pub mod embeddings_wrap;
pub mod metadata;
pub mod scalar;
pub mod similarity;
pub mod storage;
pub mod subwords;
pub mod vecmath;
pub mod vocab;

verus! {

/// The failures that the store reports to a caller.
#[derive(Debug, PartialEq, Eq)]
pub enum Error {
    /// A query word (or several, for analogy queries) could not be resolved
    /// to an exact row nor to a non-empty set of subword rows.
    UnknownWord { words: Vec<Vec<u8>> },
    /// The operation is not available on this vocabulary or storage variant.
    UnsupportedOperation,
    /// A caller-supplied vector does not match the storage dimensionality.
    InvalidShape,
    /// A positional access was out of bounds.
    IndexOutOfRange,
    /// A container image was malformed.
    IOError,
    /// A metadata document was rejected.
    InvalidMetadata,
}

} // verus!
