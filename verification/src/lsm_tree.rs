//! The mutable, in-memory layer of a log-structured merge tree.

pub mod laws;
pub mod levels;
pub mod skip_list_layer;
pub mod types;
