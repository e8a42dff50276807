//! Verified building blocks of an operating system: neighbor discovery for IPv6, the in-memory
//! layer of a log-structured merge tree, and the decision logic of several services and tools.

pub mod component_resolvers;
pub mod emulator;
pub mod flash;
pub mod fxfs_server;
pub mod lowpan;
pub mod lsm_tree;
pub mod math;
pub mod ndp;
pub mod net;
mod random;
pub mod text;
