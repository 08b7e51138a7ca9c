//! Byte sources and sinks.
//!
//! A source hands out its remaining bytes strictly in order, in chunks of a
//! bounded size; a sink accepts writes with an all-or-nothing contract per
//! call.  Both traits carry a ghost view — the bytes still to come, the bytes
//! accepted so far — that the contracts of the copy operation are stated over.

use vstd::prelude::*;

verus! {

/// A fatal stream error, propagated unchanged to the caller of the copy.
#[derive(Clone, Copy, Debug, PartialEq, Eq, Structural)]
pub enum StreamError {
    /// The source reported an unrecoverable read failure.
    ReadFailed,
    /// The sink rejected a write.
    WriteFailed,
}

/// The outcome of one read call on a source.
pub enum ReadOutcome {
    /// A non-empty prefix of the source's remaining bytes.
    Data(Vec<u8>),
    /// End of stream: nothing remains.
    Eof,
    /// A transient interruption; the read may simply be retried.
    Interrupted,
    /// An unrecoverable failure.
    Failed(StreamError),
}

/// A sequential byte source.  `remaining()` is the stream of bytes not yet
/// handed out; each successful read consumes a non-empty prefix of it.
pub trait ByteSource: Sized {
    /// The bytes this source has still to deliver, in order.
    spec fn remaining(&self) -> Seq<u8>;

    /// An upper bound on the transient interruptions this source may still
    /// report before delivering data again; every interruption lowers it.
    /// It bounds the retries a caller performs in a row, so that draining a
    /// source terminates.
    spec fn interrupt_budget(&self) -> nat;

    /// Read up to `max` bytes.  Data always comes from the front of
    /// `remaining()`; end of stream is reported only once nothing remains; a
    /// transient interruption leaves the source unchanged.  After an
    /// unrecoverable failure nothing is promised of the source.
    fn read_chunk(&mut self, max: usize) -> (r: ReadOutcome)
        requires
            max > 0,
        ensures
            match r {
                ReadOutcome::Data(data) => {
                    &&& 0 < data@.len() <= max
                    &&& data@.len() <= old(self).remaining().len()
                    &&& data@ == old(self).remaining().take(data@.len() as int)
                    &&& final(self).remaining() == old(self).remaining().skip(
                        data@.len() as int,
                    )
                },
                ReadOutcome::Eof => {
                    &&& old(self).remaining().len() == 0
                    &&& final(self).remaining() == old(self).remaining()
                },
                ReadOutcome::Interrupted => {
                    &&& final(self).remaining() == old(self).remaining()
                    &&& final(self).interrupt_budget() < old(self).interrupt_budget()
                },
                ReadOutcome::Failed(_) => true,
            },
    ;
}

/// A sequential byte sink.  `written()` is everything accepted so far; each
/// write either appends the whole buffer or leaves the sink unchanged.
pub trait ByteSink: Sized {
    /// The bytes this sink has accepted so far, in order.
    spec fn written(&self) -> Seq<u8>;

    /// Write all of `data`, or fail without accepting any of it.
    fn write_all(&mut self, data: &Vec<u8>) -> (r: Result<(), StreamError>)
        ensures
            match r {
                Ok(_) => final(self).written() == old(self).written() + data@,
                Err(_) => final(self).written() == old(self).written(),
            },
    ;
}

} // verus!
