//! The transport capability a session drives: a blocking byte stream with a
//! first-byte timeout on reads and write-until-complete semantics.
//!
//! A transport is modelled by two byte sequences: `to_read`, the bytes it
//! will deliver to the session in order, and `written`, the bytes the
//! session has handed to it so far. A read past the end of `to_read` is the
//! transport's first-byte timeout. An in-memory implementation,
//! [`ScriptedTransport`], is provided and verified here; a serial port or a
//! UART driver supplies the same capability outside the library.

use vstd::prelude::*;

use crate::error::Error;

verus! {

/// The byte-stream capability the session consumes and never implements.
///
/// `to_read` is the sequence of bytes the transport will deliver, in order;
/// `written` is everything written through it so far. Reading consumes the
/// head of `to_read`; reading when it is exhausted reports the first-byte
/// timeout. Writes block until every byte is accepted and never fail.
pub trait Transport {
    /// The bytes this transport will deliver to its reader, in order.
    /// Verified implementations override this; an implementation outside
    /// the library provides only the executable methods, and what is
    /// proved against this trait holds of it only as far as those methods
    /// honour the contracts below.
    open spec fn to_read(&self) -> Seq<u8> {
        Seq::empty()
    }

    /// The bytes written through this transport so far, oldest first.
    open spec fn written(&self) -> Seq<u8> {
        Seq::empty()
    }

    /// Block for one byte. Delivers the head of `to_read`, or reports
    /// `Error::TimedOut` once the stream is exhausted.
    fn read_one(&mut self) -> (r: Result<u8, Error>)
        ensures
            final(self).written() == old(self).written(),
            old(self).to_read().len() > 0 ==> r == Ok::<u8, Error>(old(self).to_read()[0])
                && final(self).to_read() == old(self).to_read().drop_first(),
            old(self).to_read().len() == 0 ==> r == Err::<u8, Error>(Error::TimedOut)
                && final(self).to_read() == old(self).to_read(),
    ;

    /// Write all of `buf`, blocking until the transport has accepted it.
    fn write_all(&mut self, buf: &[u8])
        ensures
            final(self).to_read() == old(self).to_read(),
            final(self).written() == old(self).written() + buf@,
    ;

    /// Flush anything the transport has buffered.
    fn flush(&mut self)
        ensures
            final(self).to_read() == old(self).to_read(),
            final(self).written() == old(self).written(),
    ;
}

/// An in-memory transport: it delivers a fixed script of incoming bytes and
/// records everything written to it. It stands in for the peer's half of
/// the wire in proofs and tests.
pub struct ScriptedTransport {
    incoming: Vec<u8>,
    cursor: usize,
    outgoing: Vec<u8>,
}

impl ScriptedTransport {
    /// A transport that will deliver exactly `incoming`, in order.
    pub fn new(incoming: Vec<u8>) -> (r: ScriptedTransport)
        ensures
            r.to_read() == incoming@,
            r.written() == Seq::<u8>::empty(),
    {
        ScriptedTransport { incoming, cursor: 0, outgoing: Vec::new() }
    }

    /// The bytes written through this transport so far.
    pub fn written_bytes(&self) -> (r: &Vec<u8>)
        ensures
            r@ == self.written(),
    {
        &self.outgoing
    }

    /// How many scripted bytes are still waiting to be read.
    pub fn remaining(&self) -> (r: usize)
        ensures
            r == self.to_read().len(),
    {
        if self.cursor <= self.incoming.len() {
            self.incoming.len() - self.cursor
        } else {
            0
        }
    }
}

impl Transport for ScriptedTransport {
    closed spec fn to_read(&self) -> Seq<u8> {
        if self.cursor <= self.incoming.len() {
            self.incoming@.skip(self.cursor as int)
        } else {
            Seq::empty()
        }
    }

    closed spec fn written(&self) -> Seq<u8> {
        self.outgoing@
    }

    fn read_one(&mut self) -> (r: Result<u8, Error>) {
        if self.cursor < self.incoming.len() {
            let b = self.incoming[self.cursor];
            self.cursor = self.cursor + 1;
            proof {
                assert(final(self).to_read() =~= old(self).to_read().drop_first());
            }
            Ok(b)
        } else {
            Err(Error::TimedOut)
        }
    }

    fn write_all(&mut self, buf: &[u8]) {
        let mut i: usize = 0;
        while i < buf.len()
            invariant
                i <= buf@.len(),
                self.outgoing@ == old(self).outgoing@ + buf@.take(i as int),
                self.incoming == old(self).incoming,
                self.cursor == old(self).cursor,
            decreases buf@.len() - i,
        {
            self.outgoing.push(buf[i]);
            proof {
                assert(buf@.take(i + 1) =~= buf@.take(i as int).push(buf@[i as int]));
            }
            i = i + 1;
        }
        proof {
            assert(buf@.take(buf@.len() as int) =~= buf@);
        }
    }

    fn flush(&mut self) {
    }
}

} // verus!
