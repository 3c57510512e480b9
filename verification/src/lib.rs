//! An XMODEM file-transfer library: a packet codec, an 8-bit wrapping
//! checksum, a retry-bounded session state machine for both the transmit
//! and the receive role, and the small containers and parsers that the
//! surrounding tools share.

pub mod error;
pub mod progress;
pub mod shell;
pub mod stack_vec;
pub mod transport;
pub mod xmodem;
