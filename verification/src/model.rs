//! The mathematical model of the corruption transform.
//!
//! Every contract of the library is stated over these spec functions.  A byte
//! at absolute stream position `p`, read in a chunk that began at absolute
//! position `chunk_start`, is corrupted exactly when the chunk's intensity is
//! positive and `p` falls on that intensity's corruption period.

use vstd::prelude::*;

verus! {

/// Bytes are read from the source in chunks of at most this many bytes.
pub const CHUNK_SIZE: usize = 65536;

/// One intensity step per this many bytes of progress (1 MiB).
pub const INTENSITY_DENOM: u64 = 1048576;

/// Numerator of the corruption period: at intensity `i` every
/// `PERIOD_BASE / i`-th byte is corrupted.
pub const PERIOD_BASE: u64 = 10000000;

/// The corruption mask: flips the two least-significant bits.
pub const MASK: u8 = 0x3;

/// Largest supported stream extent (start position plus length).  Below this
/// bound the intensity stays under `PERIOD_BASE`, so the corruption period is
/// never zero and the transform is well defined everywhere.
pub const MAX_STREAM: u64 = 10485760000000;

/// Whole mebibytes of stream processed before position `p`.
pub open spec fn intensity_of(p: nat) -> nat {
    p / (INTENSITY_DENOM as nat)
}

/// Spacing, in bytes, between corrupted positions at intensity `i`.
pub open spec fn period_of(i: nat) -> nat
    recommends
        i > 0,
{
    (PERIOD_BASE as nat) / i
}

/// Whether the byte at absolute position `p` is corrupted, given that its
/// chunk began at absolute position `chunk_start`.  The intensity is fixed at
/// the chunk's starting position for the whole chunk.
pub open spec fn corrupted_at(chunk_start: nat, p: nat) -> bool {
    let i = intensity_of(chunk_start);
    i > 0 && period_of(i) > 0 && p % period_of(i) == 0
}

/// The corruption applied to a single byte.
pub open spec fn flip_byte(b: u8) -> u8 {
    b ^ MASK
}

/// The value written for input byte `b` at absolute position `p`, in a chunk
/// that began at `chunk_start`.
pub open spec fn byte_out(chunk_start: nat, p: nat, b: u8) -> u8 {
    if corrupted_at(chunk_start, p) {
        flip_byte(b)
    } else {
        b
    }
}

/// The transform of one whole chunk that began at absolute position
/// `chunk_start`.
pub open spec fn chunk_output(chunk_start: nat, c: Seq<u8>) -> Seq<u8> {
    Seq::new(c.len(), |i: int| byte_out(chunk_start, (chunk_start + i) as nat, c[i]))
}

/// Whether `sizes` is a legal fragmentation of an input of length `len` into
/// chunks: every chunk is non-empty, no chunk exceeds `CHUNK_SIZE`, and the
/// chunks cover the input exactly.
pub open spec fn valid_sizes(len: nat, sizes: Seq<int>) -> bool
    decreases sizes.len(),
{
    if sizes.len() == 0 {
        len == 0
    } else {
        &&& 0 < sizes[0] <= CHUNK_SIZE
        &&& sizes[0] <= len
        &&& valid_sizes((len - sizes[0]) as nat, sizes.drop_first())
    }
}

/// The output of the transform on `input`, starting at absolute position
/// `start`, when the source fragmented the input into chunks of the given
/// sizes.
pub open spec fn transform_with(start: nat, input: Seq<u8>, sizes: Seq<int>) -> Seq<u8>
    decreases sizes.len(),
{
    if sizes.len() == 0 {
        Seq::empty()
    } else {
        chunk_output(start, input.take(sizes[0])) + transform_with(
            (start + sizes[0]) as nat,
            input.skip(sizes[0]),
            sizes.drop_first(),
        )
    }
}

/// Whether `output` is a possible result of transforming `input` starting at
/// absolute position `start`, under some legal fragmentation into chunks.
pub open spec fn is_transformed(start: nat, input: Seq<u8>, output: Seq<u8>) -> bool {
    exists|sizes: Seq<int>|
        valid_sizes(input.len(), sizes) && output == transform_with(start, input, sizes)
}

/// Appending one more legal chunk size keeps a fragmentation legal.
pub proof fn lemma_valid_sizes_push(len: nat, sizes: Seq<int>, n: int)
    requires
        valid_sizes(len, sizes),
        0 < n <= CHUNK_SIZE,
    ensures
        valid_sizes((len + n) as nat, sizes.push(n)),
    decreases sizes.len(),
{
    if sizes.len() == 0 {
        assert(sizes.push(n)[0] == n);
        assert(sizes.push(n).drop_first() =~= Seq::<int>::empty());
        assert(valid_sizes(0, sizes.push(n).drop_first()));
    } else {
        lemma_valid_sizes_push((len - sizes[0]) as nat, sizes.drop_first(), n);
        assert(sizes.push(n)[0] == sizes[0]);
        assert(sizes.push(n).drop_first() =~= sizes.drop_first().push(n));
    }
}

/// Transforming one more chunk extends the output by that chunk's transform,
/// taken at the position where the chunk begins.
pub proof fn lemma_transform_with_push(start: nat, input: Seq<u8>, sizes: Seq<int>, c: Seq<u8>)
    requires
        valid_sizes(input.len(), sizes),
        c.len() > 0,
    ensures
        transform_with(start, input + c, sizes.push(c.len() as int)) == transform_with(
            start,
            input,
            sizes,
        ) + chunk_output((start + input.len()) as nat, c),
    decreases sizes.len(),
{
    let n = c.len() as int;
    let s1 = sizes.push(n);
    if sizes.len() == 0 {
        assert(input + c =~= c);
        assert(s1[0] == n);
        assert(s1.drop_first() =~= Seq::<int>::empty());
        assert(c.take(n) =~= c);
        assert(c.skip(n) =~= Seq::<u8>::empty());
        assert(transform_with((start + n) as nat, c.skip(n), s1.drop_first())
            == Seq::<u8>::empty());
        assert(transform_with(start, input + c, s1) =~= chunk_output(start, c));
        assert(transform_with(start, input, sizes) + chunk_output((start + input.len()) as nat, c)
            =~= chunk_output(start, c));
    } else {
        let s0 = sizes[0];
        let rest = sizes.drop_first();
        assert(s1[0] == s0);
        assert(s1.drop_first() =~= rest.push(n));
        assert((input + c).take(s0) =~= input.take(s0));
        assert((input + c).skip(s0) =~= input.skip(s0) + c);
        lemma_transform_with_push((start + s0) as nat, input.skip(s0), rest, c);
        assert(transform_with(start, input + c, s1) == chunk_output(start, input.take(s0))
            + transform_with((start + s0) as nat, input.skip(s0) + c, rest.push(n)));
        assert((chunk_output(start, input.take(s0)) + transform_with(
            (start + s0) as nat,
            input.skip(s0),
            rest,
        )) + chunk_output((start + input.len()) as nat, c) =~= chunk_output(start, input.take(s0))
            + (transform_with((start + s0) as nat, input.skip(s0), rest) + chunk_output(
                (start + input.len()) as nat,
                c,
            )));
    }
}

} // verus!
