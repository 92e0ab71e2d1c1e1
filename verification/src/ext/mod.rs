//! Trusted items: declarations of outside types and the wrappers through
//! which the verified code calls outside crates and std functions that vstd
//! leaves unspecified. Nothing in this module is proved.

pub mod dash;
pub mod text;
pub mod store;
pub mod clock;
pub mod hash;
