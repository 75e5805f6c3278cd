//! The protocol engine of a remote filesystem server: request framing, payload streaming
//! across reads, path resolution confined to the server root, the per-connection command
//! state machine, and the registry that wakes sessions waiting for a change.

pub mod bus;
pub mod config;
pub mod frame;
pub mod path;
pub mod payload;
pub mod request;
pub mod response;
pub mod session;
