//! Resolving a set of domains, timing connections to their addresses,
//! choosing one address per domain and writing the choice out as a hosts
//! file; and the DNS messages of a forwarding server.

pub mod text;
pub mod keyed;
pub mod executor;
pub mod domain;
pub mod hosts;
pub mod page;
pub mod dns;
