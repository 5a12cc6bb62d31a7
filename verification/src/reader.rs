//! Per-connection reader decisions. The transport loop outside the
//! library attempts one frame-sized read per poll and hands the outcome
//! to `reader_step`, which decides what the reader does next: deliver the
//! decoded text to the relay channel, keep polling, or terminate.

use vstd::prelude::*;

use crate::frame::{decode, decode_ok, decoded};

verus! {

/// What one read attempt on a connection produced.
#[derive(Debug, PartialEq, Eq)]
pub enum ReadEvent {
    /// A complete frame was read.
    Frame(Vec<u8>),
    /// Nothing to read yet; the poll would block.
    NotReady,
    /// A transport error or an orderly close.
    Closed,
}

/// What the reader does after one read attempt.
#[derive(Debug, PartialEq, Eq)]
pub enum ReaderAction {
    /// Enqueue this decoded text onto the relay channel, then keep going.
    Deliver(String),
    /// Keep going; a frame that does not decode is dropped, not fatal.
    Skip,
    /// Terminate this reader; the connection's registry entry goes stale.
    Stop,
}

/// Decides one step of the reader loop: a frame that decodes is
/// delivered, a malformed frame is dropped and the connection lives on,
/// a would-block poll is retried, and a transport failure terminates the
/// reader.
pub fn reader_step(ev: ReadEvent) -> (a: ReaderAction)
    ensures
        match ev {
            ReadEvent::Frame(f) => if decode_ok(f@) {
                a matches ReaderAction::Deliver(s) && s@ == decoded(f@)
            } else {
                a is Skip
            },
            ReadEvent::NotReady => a is Skip,
            ReadEvent::Closed => a is Stop,
        },
{
    match ev {
        ReadEvent::Frame(f) => match decode(f.as_slice()) {
            Ok(s) => ReaderAction::Deliver(s),
            Err(_) => ReaderAction::Skip,
        },
        ReadEvent::NotReady => ReaderAction::Skip,
        ReadEvent::Closed => ReaderAction::Stop,
    }
}

} // verus!
