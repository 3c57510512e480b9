//! The faults a transfer can end with, mirroring the protocol's error
//! classification: transport timeouts, peer cancellation, protocol
//! violations, retryable faults, an exhausted retry bound, and misuse of
//! the fixed packet-size contract.

use vstd::prelude::*;

verus! {

/// The kinds of fault a transfer or a transport operation can report.
#[derive(Clone, Copy, Debug, PartialEq, Eq, Structural)]
pub enum Error {
    /// The transport's wait for a first byte elapsed with nothing to read.
    TimedOut,
    /// The peer sent a cancel byte; the session ends immediately.
    ConnectionAborted,
    /// A protocol violation: a wrong sequence byte, a bad complement, or an
    /// unexpected control byte where another was required.
    InvalidData,
    /// A retryable fault, such as a checksum mismatch; it consumes one retry
    /// attempt and is surfaced only if the bound is exhausted.
    Interrupted,
    /// The retry bound was exhausted for a single packet.
    BrokenPipe,
    /// A caller-supplied buffer violates the fixed 128-byte packet contract.
    UnexpectedEof,
}

impl Error {
    /// A short description of the fault, for callers that print it.
    pub fn describe(&self) -> (r: &'static str)
        ensures
            r@.len() > 0,
    {
        proof {
            reveal_strlit("timed out");
            reveal_strlit("connection aborted");
            reveal_strlit("invalid data");
            reveal_strlit("interrupted");
            reveal_strlit("broken pipe");
            reveal_strlit("unexpected end of file");
        }
        match self {
            Error::TimedOut => "timed out",
            Error::ConnectionAborted => "connection aborted",
            Error::InvalidData => "invalid data",
            Error::Interrupted => "interrupted",
            Error::BrokenPipe => "broken pipe",
            Error::UnexpectedEof => "unexpected end of file",
        }
    }
}

} // verus!
