//! Per-connection price store with a fixed-size binary request protocol:
//! nine-byte records come in, four-byte range means go out.

pub mod connection;
pub mod endpoint;
pub mod message;
pub mod reader;
pub mod response;
pub mod store;
pub mod wire;
