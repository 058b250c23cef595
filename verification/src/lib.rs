//! RPC session layer for a client driving an embedded editor subprocess.
//!
//! The crate frames a bidirectional binary message stream (a
//! self-describing value format carried over the subprocess's standard
//! streams), decodes notification payloads into typed events, and
//! correlates requests with responses under the peer's stack discipline:
//! the peer answers requests in strict reverse order of issuance.

pub mod value;
pub mod wire;
pub mod rpc;
pub mod neovim;
pub mod event;
