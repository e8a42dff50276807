//! The Neighbor Discovery Protocol for IPv6, after RFC 4861 and RFC 4862: router, prefix and
//! parameter discovery, stateless address autoconfiguration, and address resolution.

pub mod autoconf;
pub mod config;
pub mod context;
pub mod effects;
pub mod handler;
pub mod laws;
pub mod safety;
pub mod model;
pub mod packet;
pub mod state;
pub mod timer;
