//! The error type of the library.

use vstd::prelude::*;

verus! {

/// Everything that can go wrong in Stratum.
#[derive(Debug)]
pub enum AkashaError {
    /// The `sled` store failed.
    Storage(sled::Error),
    /// A value could not be encoded or decoded in binary form.
    Serialization(String),
    /// A value could not be encoded or decoded as JSON.
    Json(String),
    /// A record that was asked for does not exist.
    NotFound(String),
    /// A query string does not follow the grammar.
    QueryParse(String),
    /// A query could not be carried out.
    QueryExecution(String),
    /// An embedding has the wrong number of components.
    DimensionMismatch { expected: usize, got: usize },
    /// Adding an edge would close a causal cycle.
    CausalCycle(String),
    /// A record is not well formed.
    InvalidRecord(String),
    /// An input/output operation failed.
    Io(String),
    /// Any other failure.
    Other(String),
}

/// Results of the library.
pub type Result<T> = std::result::Result<T, AkashaError>;

} // verus!
