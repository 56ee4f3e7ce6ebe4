//! An ephemeral-note service: a line-oriented wire protocol with incremental
//! framing, a note registry with time-based eviction, and the per-connection
//! session logic that ties them together.

pub mod decimal;
pub mod protocol;
pub mod roundtrip;
pub mod connection;
pub mod registry;
pub mod session;
pub mod server_cli;
pub mod client;
