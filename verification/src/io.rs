//! Results of the non-blocking calls that a driver makes for the server.

use vstd::prelude::*;

verus! {

/// Why a non-blocking socket call did not complete.
#[derive(Clone, Copy, Debug, PartialEq, Eq, Structural)]
pub enum ErrorKind {
    /// The call could not complete without blocking; nothing is wrong.
    WouldBlock,
    /// The call was interrupted before it transferred anything.
    Interrupted,
    /// The peer reset the connection.
    ConnectionReset,
    /// The connection was aborted.
    ConnectionAborted,
    /// The peer no longer reads what is written.
    BrokenPipe,
    /// The socket is not connected.
    NotConnected,
    /// The call timed out.
    TimedOut,
    /// Any other failure.
    Other,
}

/// Whether a failed call only reported that it would have blocked.
pub fn would_block(kind: ErrorKind) -> (b: bool)
    ensures
        b == (kind == ErrorKind::WouldBlock),
{
    kind == ErrorKind::WouldBlock
}

/// What one non-blocking read gave.
#[derive(Debug)]
pub enum ReadResult {
    /// The read returned, with the bytes that it put into the buffer; none,
    /// where the peer has closed its side.
    Bytes(Vec<u8>),
    /// The read failed.
    Failed(ErrorKind),
}

impl ReadResult {
    /// The bytes that the read gave; none, where it failed.
    pub open spec fn bytes(self) -> Seq<u8> {
        match self {
            ReadResult::Bytes(data) => data@,
            ReadResult::Failed(_) => Seq::empty(),
        }
    }
}

/// What one non-blocking write gave.
#[derive(Clone, Copy, Debug, PartialEq, Eq, Structural)]
pub enum WriteResult {
    /// The write returned, having taken this many bytes.
    Written(usize),
    /// The write failed.
    Failed(ErrorKind),
}

/// What one non-blocking accept on the listener gave.
#[derive(Clone, Copy, Debug, PartialEq, Eq, Structural)]
pub enum AcceptResult {
    /// A client connected.
    Connected,
    /// The accept failed; with `WouldBlock`, no client is waiting.
    Failed(ErrorKind),
}

} // verus!
