//! Indexes over the stored records.

pub mod links;
pub mod temporal;

pub use temporal::TemporalIndex;
