//! Receiver step and the thread-shared history.
//!
//! The receiver loop blocks on a socket outside the library and hands each
//! datagram it gets to [`ingest`]: decode, then append a plain message,
//! discard a bundle, discard a malformed datagram. No datagram, however
//! corrupt, can stop the step, since decoding is total.
//!
//! [`SharedHistory`] is the same buffer behind a reader/writer lock whose
//! invariant is the buffer's well-formedness, so the receiver thread can
//! append while the display tick snapshots, and no snapshot can ever
//! observe more than the capacity or a half-written entry.

use crate::codec::{decode, spec_decode, OscMsg, Packet, ParseResult};
use crate::history::{msgs_view, spec_append, HistoryBuffer, CAPACITY};
use vstd::prelude::*;
use vstd::rwlock::{RwLock, RwLockPredicate};

verus! {

/// What one datagram did to the history.
#[derive(Debug, Clone, Copy, PartialEq, Eq, Structural)]
pub enum IngestOutcome {
    /// A single message: appended, evicting the oldest entry if full.
    Appended,
    /// A bundle: recognized and discarded.
    BundleDropped,
    /// Malformed: discarded.
    DecodeFailed,
}

/// One receiver step. A message becomes the newest history entry; a bundle
/// or a malformed datagram leaves the history exactly as it was.
pub fn ingest(h: &mut HistoryBuffer, datagram: &Vec<u8>) -> (r: IngestOutcome)
    requires
        old(h).wf(),
    ensures
        final(h).wf(),
        match spec_decode(datagram@) {
            ParseResult::Msg(m) => r == IngestOutcome::Appended && final(h)@ == spec_append(
                old(h)@,
                m,
            ),
            ParseResult::Bundle => r == IngestOutcome::BundleDropped && final(h)@ == old(h)@,
            ParseResult::Fail => r == IngestOutcome::DecodeFailed && final(h)@ == old(h)@,
        },
{
    match decode(datagram) {
        Ok(Packet::Message(m)) => {
            h.append(m);
            IngestOutcome::Appended
        },
        Ok(Packet::Bundle) => IngestOutcome::BundleDropped,
        Err(_) => IngestOutcome::DecodeFailed,
    }
}

/// The lock invariant of the shared history: the buffer stays well formed.
pub struct HistoryLockInv;

impl RwLockPredicate<HistoryBuffer> for HistoryLockInv {
    open spec fn inv(self, v: HistoryBuffer) -> bool {
        v.wf()
    }
}

/// The history buffer behind a reader/writer lock: one writer (the
/// receiver thread), readers that only copy. All access runs through the
/// lock, so neither side can observe a partially mutated buffer.
pub struct SharedHistory {
    lock: RwLock<HistoryBuffer, HistoryLockInv>,
}

impl SharedHistory {
    /// An empty shared history.
    pub fn new() -> (r: Self) {
        let h = HistoryBuffer::new();
        SharedHistory { lock: RwLock::new(h, Ghost(HistoryLockInv)) }
    }

    /// One receiver step against the shared buffer: decode outside the
    /// lock, then append under the write lock only if the datagram carried
    /// a single message.
    pub fn ingest(&self, datagram: &Vec<u8>) -> (r: IngestOutcome)
        ensures
            match spec_decode(datagram@) {
                ParseResult::Msg(_) => r == IngestOutcome::Appended,
                ParseResult::Bundle => r == IngestOutcome::BundleDropped,
                ParseResult::Fail => r == IngestOutcome::DecodeFailed,
            },
    {
        match decode(datagram) {
            Ok(Packet::Message(m)) => {
                let (mut h, handle) = self.lock.acquire_write();
                h.append(m);
                handle.release_write(h);
                IngestOutcome::Appended
            },
            Ok(Packet::Bundle) => IngestOutcome::BundleDropped,
            Err(_) => IngestOutcome::DecodeFailed,
        }
    }

    /// A copy of the current history, taken under the read lock. However
    /// the writer interleaves, no snapshot observes more than [`CAPACITY`]
    /// messages.
    pub fn snapshot(&self) -> (r: Vec<OscMsg>)
        ensures
            msgs_view(r@).len() <= CAPACITY,
    {
        let handle = self.lock.acquire_read();
        let r = handle.borrow().snapshot();
        handle.release_read();
        r
    }
}

} // verus!
