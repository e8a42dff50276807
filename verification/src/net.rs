//! Addresses, times and small collections for the network code.

pub mod addr;
pub mod laws;
pub mod link;
pub mod num;
pub mod table;
pub mod time;
