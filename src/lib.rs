//! A trace-driven page-replacement simulator: memory accesses are replayed
//! against a fixed number of physical page slots, counting page loads and
//! dirty write-backs under a chosen eviction policy.

pub mod operation;
pub mod evictors;
pub mod sim;
pub mod laws;
pub mod search;
