//! A directed communication graph built from (sender, recipient) pairs, with
//! degree aggregation and community detection by label propagation.

pub mod community;
pub mod degree_laws;
pub mod email;
pub mod graph;
pub mod ranking;
pub mod summary;
