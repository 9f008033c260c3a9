//! A DNS message codec (RFC 1035 wire format) and the decisions of a minimal
//! forwarding resolver.

pub mod error;
pub mod header;
pub mod model;
pub mod name;
pub mod resolver;
pub mod util;
