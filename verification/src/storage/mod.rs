//! Durable storage of encoded records.

pub mod engine;

pub use engine::StorageEngine;
