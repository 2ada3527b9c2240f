//! Data-transfer layer of a WebSocket connection.
//!
//! The crate is a set of small state machines that turn an application's
//! reads and writes into WebSocket frames and back. None of them performs
//! I/O: each says which single I/O operation is wanted next, and is then told
//! what that operation did. No payload byte is ever buffered on the heap.

pub mod error;
pub mod frame;
pub mod heartbeat;
pub mod mask;
pub mod read;
pub mod role;
pub mod stream;
pub mod transfer;
pub mod write;
