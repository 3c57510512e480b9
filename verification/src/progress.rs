//! Progress reporting: a closed set of milestones that a session reports
//! synchronously to a caller-supplied sink while a transfer runs.

use vstd::prelude::*;

verus! {

/// A milestone of a running transfer.
///
/// A session reports `Waiting` before the initial handshake byte has been
/// exchanged, `Started` once it has, and `Packet(n)` each time the packet
/// with sequence byte `n` has been acknowledged. Both roles report the
/// just-acknowledged packet's own sequence byte.
#[derive(Clone, Copy, Debug, PartialEq, Eq, Structural)]
pub enum Progress {
    /// The initial handshake byte has not yet been exchanged.
    Waiting,
    /// The handshake is complete; data packets may now flow.
    Started,
    /// The packet with this sequence byte was acknowledged.
    Packet(u8),
}

/// A progress callback: a capability the caller hands to a session.
///
/// The session invokes `on_event` synchronously at each milestone; the sink
/// must record the event and hand control straight back. The ghost `events`
/// sequence is the history of everything reported so far, which the
/// session's contracts pin down exactly.
pub trait ProgressSink {
    /// Every event reported to this sink so far, oldest first. Verified
    /// sinks override this; a sink outside the library provides only
    /// `on_event`.
    open spec fn events(&self) -> Seq<Progress> {
        Seq::empty()
    }

    /// Report one milestone.
    fn on_event(&mut self, ev: Progress)
        ensures
            final(self).events() == old(self).events().push(ev),
    ;
}

/// The default sink: it ignores every event. Supplied when the caller
/// gives none.
pub struct NoProgress {
    log: Ghost<Seq<Progress>>,
}

impl NoProgress {
    /// A sink with an empty history.
    pub fn new() -> (r: NoProgress)
        ensures
            r.events() == Seq::<Progress>::empty(),
    {
        NoProgress { log: Ghost(Seq::empty()) }
    }
}

impl ProgressSink for NoProgress {
    closed spec fn events(&self) -> Seq<Progress> {
        self.log@
    }

    fn on_event(&mut self, ev: Progress) {
        self.log = Ghost(self.log@.push(ev));
    }
}

/// A sink that keeps every reported event in a vector, so that a caller
/// (or a test) can inspect the order and content of the milestones.
pub struct EventLog {
    /// The reported events, oldest first.
    pub log: Vec<Progress>,
}

impl EventLog {
    /// An empty log.
    pub fn new() -> (r: EventLog)
        ensures
            r.events() == Seq::<Progress>::empty(),
    {
        EventLog { log: Vec::new() }
    }
}

impl ProgressSink for EventLog {
    closed spec fn events(&self) -> Seq<Progress> {
        self.log@
    }

    fn on_event(&mut self, ev: Progress) {
        self.log.push(ev);
    }
}

} // verus!
