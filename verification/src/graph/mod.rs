//! The causal graph of records.

pub mod causal;

pub use causal::CausalGraph;
