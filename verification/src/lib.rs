//! A buffered sink stage for an event pipeline: a configurable, multi-stage
//! buffer placed in front of a downstream consumer.  Producers push events
//! into the buffer; the consumer pops them and acknowledges consumption so the
//! buffer can release storage.
//!
//! The crate covers the buffer topology itself: the configuration layer that
//! turns a declarative description into a validated stage list, the stage
//! variants (in-memory and two disk-backed formats), the overflow composition
//! that chains stages, and the acknowledgement protocol.  File and network
//! I/O, and the channel plumbing that suspends producers, live outside the
//! library: the types here are state machines from plain values to plain
//! values.

use vstd::prelude::*;

pub mod config;
pub mod config_text;
pub mod internal_events;
pub mod loading;
pub mod text;
pub mod topology;
pub mod disk_v1;
pub mod disk_v2;
pub mod memory;
pub mod record;
pub mod regex_parse;

verus! {

/// What a stage does when a push would exceed its watermark.
#[derive(Clone, Copy, Debug, PartialEq, Eq, Structural)]
pub enum WhenFull {
    /// The producer suspends until space is available.
    Block,
    /// The new event is discarded and a drop counter increments.
    DropNewest,
    /// The new event is forwarded to the next stage.
    Overflow,
}

impl Default for WhenFull {
    fn default() -> (r: Self)
        ensures
            r == WhenFull::Block,
    {
        WhenFull::Block
    }
}

/// What a push did with the event.
#[derive(Clone, Copy, Debug, PartialEq, Eq, Structural)]
pub enum Outcome {
    /// The event is enqueued (durably, for a disk stage).
    Accepted,
    /// The stage cannot accept without violating its watermark; the caller
    /// suspends or forwards per the stage's policy.
    Full,
    /// The stage refused the event per its `drop_newest` policy; a drop
    /// counter has incremented.
    Dropped,
}

/// An opaque payload the buffer transports.  The buffer needs only its
/// encoded byte form, so an event is a byte string.
#[derive(Clone, Debug)]
pub struct Event {
    pub bytes: Vec<u8>,
}

impl View for Event {
    type V = Seq<u8>;

    open spec fn view(&self) -> Seq<u8> {
        self.bytes@
    }
}

impl Event {
    /// Wraps an encoded payload.
    pub fn new(bytes: Vec<u8>) -> (r: Event)
        ensures
            r@ == bytes@,
    {
        Event { bytes }
    }

    /// The encoded byte size of the event.
    pub fn byte_size(&self) -> (r: usize)
        ensures
            r == self@.len(),
    {
        self.bytes.len()
    }

    /// Hands the encoded payload back.
    pub fn into_bytes(self) -> (r: Vec<u8>)
        ensures
            r@ == self@,
    {
        self.bytes
    }

    /// A copy of the event, with the same payload.
    pub fn duplicate(&self) -> (r: Event)
        ensures
            r@ == self@,
    {
        Event { bytes: vstd::slice::slice_to_vec(self.bytes.as_slice()) }
    }
}

} // verus!
