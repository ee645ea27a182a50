//! A verified core for a single-threaded, readiness-driven HTTP/1.1-style
//! connection reactor: incremental request assembly across partial reads,
//! a per-connection state machine, a pure response dispatcher, and the
//! connection table that the reactor thread owns.
pub mod bytes;
pub mod connection;
pub mod json;
pub mod laws;
pub mod request;
pub mod response;
pub mod table;
