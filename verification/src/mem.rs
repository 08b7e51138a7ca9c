//! In-memory streams: a source that serves a byte vector in bounded chunks
//! and a sink that collects bytes into a vector.
//!
//! Besides being useful on their own, they let the whole copy run without any
//! real I/O: the source can simulate short reads, transient interruptions and
//! a read failure at end of data, and the sink can simulate a write failure
//! by running out of capacity.

use vstd::prelude::*;

use crate::stream::ByteSink;
use crate::stream::ByteSource;
use crate::stream::ReadOutcome;
use crate::stream::StreamError;

verus! {

/// A source backed by a byte vector.  `cursor` is the index of the next byte
/// to serve.  Each read serves at most `chunk` bytes (no extra bound when
/// `chunk` is zero).  The first `pending_interrupts` reads report a transient
/// interruption; when `fail_at_end` is set, exhaustion is reported as a read
/// failure instead of end of stream.
pub struct MemSource {
    /// The bytes this source serves.
    pub data: Vec<u8>,
    /// Index of the next byte to serve.
    pub cursor: usize,
    /// Upper bound on the bytes served per read; zero means no extra bound.
    pub chunk: usize,
    /// How many reads will still report a transient interruption.
    pub pending_interrupts: u64,
    /// Report exhaustion as a read failure instead of end of stream.
    pub fail_at_end: bool,
}

impl MemSource {
    /// A source that serves `data` from the start, without an extra chunk
    /// bound, interruptions or failures.
    pub fn new(data: Vec<u8>) -> (s: MemSource)
        ensures
            s.remaining() == data@,
            s.cursor == 0,
            s.chunk == 0,
            s.pending_interrupts == 0,
            s.fail_at_end == false,
    {
        MemSource { data, cursor: 0, chunk: 0, pending_interrupts: 0, fail_at_end: false }
    }
}

impl ByteSource for MemSource {
    open spec fn remaining(&self) -> Seq<u8> {
        if self.cursor <= self.data@.len() {
            self.data@.skip(self.cursor as int)
        } else {
            Seq::empty()
        }
    }

    open spec fn interrupt_budget(&self) -> nat {
        self.pending_interrupts as nat
    }

    fn read_chunk(&mut self, max: usize) -> (r: ReadOutcome)
        ensures
            final(self).data == old(self).data,
            final(self).chunk == old(self).chunk,
            final(self).fail_at_end == old(self).fail_at_end,
            (r is Interrupted) <==> old(self).pending_interrupts > 0,
            r is Interrupted ==> final(self).cursor == old(self).cursor
                && final(self).pending_interrupts == old(self).pending_interrupts - 1,
            (r is Eof) <==> (old(self).pending_interrupts == 0 && old(self).remaining().len()
                == 0 && !old(self).fail_at_end),
            (r is Failed) <==> (old(self).pending_interrupts == 0
                && old(self).remaining().len() == 0 && old(self).fail_at_end),
            r is Failed ==> r == ReadOutcome::Failed(StreamError::ReadFailed)
                && final(self).cursor == old(self).cursor,
            (r is Data) <==> (old(self).pending_interrupts == 0 && old(self).remaining().len()
                > 0),
            r is Data ==> final(self).pending_interrupts == 0,
            r matches ReadOutcome::Data(data) ==> data@.len() == vstd::math::min(
                vstd::math::min(
                    max as int,
                    if old(self).chunk == 0 {
                        max as int
                    } else {
                        old(self).chunk as int
                    },
                ),
                old(self).remaining().len() as int,
            ),
    {
        if self.pending_interrupts > 0 {
            self.pending_interrupts = self.pending_interrupts - 1;
            return ReadOutcome::Interrupted;
        }
        let len = self.data.len();
        if self.cursor >= len {
            if self.fail_at_end {
                return ReadOutcome::Failed(StreamError::ReadFailed);
            }
            return ReadOutcome::Eof;
        }
        let avail = len - self.cursor;
        let mut take: usize = max;
        if self.chunk > 0 && self.chunk < take {
            take = self.chunk;
        }
        if avail < take {
            take = avail;
        }
        let mut out: Vec<u8> = Vec::new();
        let mut i: usize = 0;
        while i < take
            invariant
                i <= take,
                self.cursor + take <= usize::MAX,
                self.cursor + take <= self.data@.len(),
                out@ == self.data@.subrange(self.cursor as int, self.cursor + i),
            decreases take - i,
        {
            let b = self.data[self.cursor + i];
            out.push(b);
            proof {
                assert(out@ =~= self.data@.subrange(self.cursor as int, self.cursor + i + 1));
            }
            i = i + 1;
        }
        proof {
            assert(out@ =~= self.remaining().take(out@.len() as int));
            assert(self.data@.skip(self.cursor + take) =~= self.remaining().skip(
                out@.len() as int,
            ));
        }
        self.cursor = self.cursor + take;
        ReadOutcome::Data(out)
    }
}

/// A sink that appends into a byte vector, accepting at most `capacity`
/// bytes in all.  A write that would push the total past the capacity is
/// rejected whole.
pub struct MemSink {
    /// The bytes accepted so far.
    pub data: Vec<u8>,
    /// Most bytes this sink will hold in all.
    pub capacity: usize,
}

impl MemSink {
    /// An empty sink that accepts up to `capacity` bytes.
    pub fn new(capacity: usize) -> (s: MemSink)
        ensures
            s.written() == Seq::<u8>::empty(),
            s.capacity == capacity,
    {
        MemSink { data: Vec::new(), capacity }
    }
}

impl ByteSink for MemSink {
    open spec fn written(&self) -> Seq<u8> {
        self.data@
    }

    fn write_all(&mut self, data: &Vec<u8>) -> (r: Result<(), StreamError>)
        ensures
            final(self).capacity == old(self).capacity,
            (r is Ok) <==> old(self).data@.len() + data@.len() <= old(self).capacity,
            r is Err ==> r == Err::<(), StreamError>(StreamError::WriteFailed),
    {
        let n = data.len();
        if n <= self.capacity && self.data.len() <= self.capacity - n {
            let mut i: usize = 0;
            while i < n
                invariant
                    i <= n,
                    n == data@.len(),
                    self.data@ == old(self).data@ + data@.take(i as int),
                    self.capacity == old(self).capacity,
                decreases n - i,
            {
                let b = data[i];
                self.data.push(b);
                proof {
                    assert(self.data@ =~= old(self).data@ + data@.take(i + 1));
                }
                i = i + 1;
            }
            proof {
                assert(self.data@ =~= old(self).data@ + data@);
            }
            Ok(())
        } else {
            Err(StreamError::WriteFailed)
        }
    }
}

} // verus!
