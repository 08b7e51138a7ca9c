//! The corrupting stream transformer.

use vstd::prelude::*;

use crate::model::byte_out;
use crate::model::chunk_output;
use crate::model::intensity_of;
use crate::model::is_transformed;
use crate::model::lemma_transform_with_push;
use crate::model::lemma_valid_sizes_push;
use crate::model::period_of;
use crate::model::transform_with;
use crate::model::valid_sizes;
use crate::model::CHUNK_SIZE;
use crate::model::INTENSITY_DENOM;
use crate::model::MASK;
use crate::model::MAX_STREAM;
use crate::model::PERIOD_BASE;
use crate::stream::ByteSink;
use crate::stream::ByteSource;
use crate::stream::ReadOutcome;
use crate::stream::StreamError;

verus! {

/// How bytes are corrupted.  Only bit-flipping is implemented; insertion and
/// deletion of bytes are named here for extensibility but are deliberately
/// left without behavior, so that stream length is always preserved.
#[derive(Clone, Copy, Debug, PartialEq, Eq, Structural)]
pub enum CorruptionMode {
    /// Flip the two least-significant bits of selected bytes.
    BitFlip,
    /// Insert extra bytes (deferred; no behavior).
    Insertion,
    /// Drop bytes (deferred; no behavior).
    Deletion,
}

/// A stateful stream transformer.  `pos` is the absolute offset, from the
/// start of the stream, of the next byte to be read; it only ever grows, by
/// the length of each processed chunk.
pub struct CorruptingCopy {
    /// Number of bytes already read from the source and written to the sink.
    pub pos: u64,
    /// The corruption strategy in force.
    pub mode: CorruptionMode,
}

impl CorruptingCopy {
    /// A fresh transformer: at the start of the stream, bit-flipping mode.
    pub fn new() -> (c: CorruptingCopy)
        ensures
            c.pos == 0,
            c.mode == CorruptionMode::BitFlip,
    {
        CorruptingCopy { pos: 0, mode: CorruptionMode::BitFlip }
    }

    /// Corrupt one chunk in place.  The chunk is taken to span absolute
    /// positions `[self.pos, self.pos + buf.len())`; the intensity is fixed
    /// at the chunk's starting position for every byte of the chunk.
    pub fn corrupt_buf(&self, buf: &mut Vec<u8>)
        requires
            self.pos + old(buf)@.len() <= MAX_STREAM,
        ensures
            final(buf)@ == chunk_output(self.pos as nat, old(buf)@),
    {
        let intensity: u64 = self.pos / INTENSITY_DENOM;
        if intensity == 0 {
            proof {
                assert(buf@ =~= chunk_output(self.pos as nat, buf@));
            }
            return;
        }
        proof {
            vstd::arithmetic::div_mod::lemma_div_by_multiple(
                PERIOD_BASE as int,
                INTENSITY_DENOM as int,
            );
            assert(MAX_STREAM / INTENSITY_DENOM == PERIOD_BASE);
            vstd::arithmetic::div_mod::lemma_div_is_ordered(
                self.pos as int,
                MAX_STREAM as int,
                INTENSITY_DENOM as int,
            );
            assert(intensity <= PERIOD_BASE);
            vstd::arithmetic::div_mod::lemma_div_non_zero(
                PERIOD_BASE as int,
                intensity as int,
            );
        }
        let step: u64 = PERIOD_BASE / intensity;
        let n = buf.len();
        let mut i: usize = 0;
        while i < n
            invariant
                i <= n,
                n == buf@.len(),
                buf@.len() == old(buf)@.len(),
                self.pos + n <= MAX_STREAM,
                intensity == intensity_of(self.pos as nat),
                intensity > 0,
                step == period_of(intensity as nat),
                step > 0,
                forall|j: int|
                    0 <= j < i ==> buf@[j] == byte_out(
                        self.pos as nat,
                        (self.pos + j) as nat,
                        old(buf)@[j],
                    ),
                forall|j: int| i <= j < n ==> buf@[j] == old(buf)@[j],
            decreases n - i,
        {
            let p: u64 = self.pos + i as u64;
            if p % step == 0 {
                let b = buf[i];
                buf[i] = b ^ MASK;
            }
            i += 1;
        }
        proof {
            assert(buf@ =~= chunk_output(self.pos as nat, old(buf)@));
        }
    }

    /// Corrupt the next chunk in place and account for it.  The chunk spans
    /// absolute positions `[pos, pos + buf.len())`; afterwards `pos` stands
    /// past it.  This is one step of a copy, for a driver whose reads and
    /// writes happen where Verus cannot follow them.
    pub fn process_chunk(&mut self, buf: &mut Vec<u8>)
        requires
            old(self).mode == CorruptionMode::BitFlip,
            old(self).pos + old(buf)@.len() <= MAX_STREAM,
        ensures
            final(self).mode == old(self).mode,
            final(self).pos == old(self).pos + old(buf)@.len(),
            final(buf)@ == chunk_output(old(self).pos as nat, old(buf)@),
    {
        let n = buf.len();
        self.corrupt_buf(buf);
        self.pos = self.pos + n as u64;
    }

    /// Drain `r` to completion, corrupting each chunk in place and forwarding
    /// it to `w`; return the total byte count transferred.
    ///
    /// Success is up to the source and the sink: whatever they decide, the
    /// bytes the sink accepted are exactly the transform of the consumed
    /// prefix of the source, in order and without loss, and `pos` advanced by
    /// their number.  On success the source is fully drained, and the count
    /// equals its whole former remainder.  A transient read interruption is
    /// retried invisibly; any other read failure, or any write failure, is
    /// propagated at once.
    pub fn copy<R: ByteSource, W: ByteSink>(&mut self, r: &mut R, w: &mut W) -> (res: Result<
        u64,
        StreamError,
    >)
        requires
            old(self).mode == CorruptionMode::BitFlip,
            old(self).pos + old(r).remaining().len() <= MAX_STREAM,
        ensures
            final(self).mode == old(self).mode,
            old(self).pos <= final(self).pos,
            final(self).pos - old(self).pos <= old(r).remaining().len(),
            final(w).written().len() == old(w).written().len() + final(self).pos - old(
                self,
            ).pos,
            final(w).written().take(old(w).written().len() as int) == old(w).written(),
            is_transformed(
                old(self).pos as nat,
                old(r).remaining().take((final(self).pos - old(self).pos) as int),
                final(w).written().skip(old(w).written().len() as int),
            ),
            match res {
                Ok(n) => {
                    &&& n == final(self).pos - old(self).pos
                    &&& final(self).pos == old(self).pos + old(r).remaining().len()
                    &&& final(r).remaining().len() == 0
                },
                Err(_) => true,
            },
    {
        let mut written: u64 = 0;
        let ghost mut sizes: Seq<int> = Seq::empty();
        loop
            invariant
                self.mode == old(self).mode,
                self.pos == old(self).pos + written,
                written <= old(r).remaining().len(),
                old(self).pos + old(r).remaining().len() <= MAX_STREAM,
                r.remaining() == old(r).remaining().skip(written as int),
                w.written().len() == old(w).written().len() + written,
                w.written().take(old(w).written().len() as int) == old(w).written(),
                valid_sizes(written as nat, sizes),
                w.written().skip(old(w).written().len() as int) == transform_with(
                    old(self).pos as nat,
                    old(r).remaining().take(written as int),
                    sizes,
                ),
            decreases r.remaining().len(), r.interrupt_budget(),
        {
            let outcome = r.read_chunk(CHUNK_SIZE);
            match outcome {
                ReadOutcome::Eof => {
                    proof {
                        assert(old(r).remaining().take(written as int) =~= old(r).remaining());
                        assert(is_transformed(
                            old(self).pos as nat,
                            old(r).remaining().take(written as int),
                            w.written().skip(old(w).written().len() as int),
                        ));
                    }
                    return Ok(written);
                },
                ReadOutcome::Interrupted => {
                },
                ReadOutcome::Failed(e) => {
                    proof {
                        assert(is_transformed(
                            old(self).pos as nat,
                            old(r).remaining().take(written as int),
                            w.written().skip(old(w).written().len() as int),
                        ));
                    }
                    return Err(e);
                },
                ReadOutcome::Data(mut data) => {
                    let ghost raw: Seq<u8> = data@;
                    let n = data.len();
                    self.corrupt_buf(&mut data);
                    match w.write_all(&data) {
                        Ok(_) => {
                            proof {
                                let prefix = old(r).remaining().take(written as int);
                                lemma_valid_sizes_push(written as nat, sizes, n as int);
                                lemma_transform_with_push(
                                    old(self).pos as nat,
                                    prefix,
                                    sizes,
                                    raw,
                                );
                                assert(prefix + raw =~= old(r).remaining().take(
                                    written + n,
                                ));
                                assert(w.written().take(old(w).written().len() as int)
                                    =~= old(w).written());
                                assert(w.written().skip(old(w).written().len() as int)
                                    =~= transform_with(
                                    old(self).pos as nat,
                                    prefix,
                                    sizes,
                                ) + chunk_output((old(self).pos + written) as nat, raw));
                                sizes = sizes.push(n as int);
                            }
                            written = written + n as u64;
                            self.pos = self.pos + n as u64;
                        },
                        Err(e) => {
                            proof {
                                assert(is_transformed(
                                    old(self).pos as nat,
                                    old(r).remaining().take(written as int),
                                    w.written().skip(old(w).written().len() as int),
                                ));
                            }
                            return Err(e);
                        },
                    }
                },
            }
        }
    }
}

} // verus!
