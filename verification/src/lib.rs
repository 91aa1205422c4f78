//! Protocol engine for a minimal publish/subscribe messaging client over a
//! caller-supplied non-blocking TCP transport.
//!
//! This crate holds the verified core: the wire codec, the incremental packet
//! reader, the session state, and the state machine that dispatches inbound
//! frames. Transport I/O lives outside the crate; the engine exchanges plain
//! byte buffers with it.

pub mod codec;
pub mod engine;
pub mod errors;
pub mod reader;
pub mod session;
