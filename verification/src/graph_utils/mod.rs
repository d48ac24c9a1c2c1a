//! Graph algorithms.
pub mod laws;
pub mod reach;
pub mod search;
pub mod settled;
pub mod tarjan_scc;
