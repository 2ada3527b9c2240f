//! Why a read or a write is refused.

use vstd::prelude::*;
use crate::frame::ProtocolError;

verus! {

/// Errors that the state machines themselves raise. Errors of the
/// underlying I/O never pass through them: whoever performs the I/O hands
/// those to the caller as they come.
#[derive(Clone, Copy, Debug, PartialEq, Eq, Structural)]
pub enum Error {
    /// The peer broke the protocol. The direction in which it happened
    /// stays unusable.
    Protocol(ProtocolError),
    /// A close frame has gone through in this direction before.
    Closed,
}

} // verus!
