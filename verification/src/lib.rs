//! A fixed-capacity key-value cache that evicts with the SIEVE algorithm.

pub mod cache;
pub mod condition;
pub mod laws;
pub mod model;

pub use cache::SieveCache;
pub use condition::{EvictCondition, Unconditional};
