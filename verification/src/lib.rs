//! Routing and protocol-normalization core of a clustered key-value store
//! client: a slot-range routing table queried by binary search, a dual
//! wire-protocol frame abstraction with a one-way upgrade to the canonical
//! form, server-identity parsing and formatting, and the decoding steps of
//! the cursor-driven scan state machines.

pub mod errors;
pub mod value;
pub mod server;
pub mod scan;
pub mod routing;
pub mod frame;
