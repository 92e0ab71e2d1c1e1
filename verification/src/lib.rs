//! Stratum: an embedded temporal-semantic-causal record store.

pub mod error;
pub mod ext;
pub mod record;
pub mod text;
pub mod hex;
pub mod graph;
pub mod index;
pub mod storage;
pub mod db;
pub mod api;
pub mod query;

pub use error::{AkashaError, Result};
pub use record::RecordId;

use vstd::prelude::*;

verus! {

/// Counters that describe the size of a database.
pub struct DbStats {
    pub total_records: usize,
    pub temporal_entries: usize,
    pub semantic_vectors: usize,
    pub causal_edges: usize,
}

} // verus!
