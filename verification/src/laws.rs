//! Laws of the corruption transform, stated and proved over the model.

use vstd::prelude::*;

use crate::model::byte_out;
use crate::model::chunk_output;
use crate::model::flip_byte;
use crate::model::intensity_of;
use crate::model::is_transformed;
use crate::model::period_of;
use crate::model::transform_with;
use crate::model::valid_sizes;
use crate::model::INTENSITY_DENOM;
use crate::model::MASK;
use crate::model::PERIOD_BASE;

verus! {

/// The transform never inserts or drops bytes: under any fragmentation, the
/// output of an input is exactly as long as the input.
pub proof fn lemma_transform_with_len(start: nat, input: Seq<u8>, sizes: Seq<int>)
    requires
        valid_sizes(input.len(), sizes),
    ensures
        transform_with(start, input, sizes).len() == input.len(),
    decreases sizes.len(),
{
    if sizes.len() == 0 {
    } else {
        lemma_transform_with_len(
            (start + sizes[0]) as nat,
            input.skip(sizes[0]),
            sizes.drop_first(),
        );
    }
}

/// Length preservation: any output of the transform has exactly the input's
/// length.
pub proof fn lemma_length_preservation(start: nat, input: Seq<u8>, output: Seq<u8>)
    requires
        is_transformed(start, input, output),
    ensures
        output.len() == input.len(),
{
    let sizes = choose|sizes: Seq<int>|
        valid_sizes(input.len(), sizes) && output == transform_with(start, input, sizes);
    lemma_transform_with_len(start, input, sizes);
}

/// The absolute starting position of the chunk that covers offset `i` of an
/// input transformed from absolute position `start` under fragmentation
/// `sizes`.
pub open spec fn chunk_start_in(start: nat, sizes: Seq<int>, i: int) -> nat
    decreases sizes.len(),
{
    if sizes.len() == 0 {
        start
    } else if i < sizes[0] {
        start
    } else {
        chunk_start_in((start + sizes[0]) as nat, sizes.drop_first(), i - sizes[0])
    }
}

/// The byte at output offset `i` is `byte_out` of the byte at input offset
/// `i` alone, taken at absolute position `start + i`, with the intensity of
/// the chunk that covers `i` — which begins no earlier than the stream's
/// start and no later than position `start + i` itself.
pub proof fn lemma_transform_with_index(start: nat, input: Seq<u8>, sizes: Seq<int>)
    requires
        valid_sizes(input.len(), sizes),
    ensures
        forall|i: int|
            0 <= i < input.len() ==> #[trigger] transform_with(start, input, sizes)[i]
                == byte_out(chunk_start_in(start, sizes, i), (start + i) as nat, input[i])
                && start <= chunk_start_in(start, sizes, i) <= start + i,
    decreases sizes.len(),
{
    if sizes.len() == 0 {
    } else {
        let s0 = sizes[0];
        let rest = sizes.drop_first();
        let head = chunk_output(start, input.take(s0));
        let tail = transform_with((start + s0) as nat, input.skip(s0), rest);
        assert(head.len() == s0);
        lemma_transform_with_len((start + s0) as nat, input.skip(s0), rest);
        lemma_transform_with_index((start + s0) as nat, input.skip(s0), rest);
        assert forall|i: int| 0 <= i < input.len() implies #[trigger] transform_with(
            start,
            input,
            sizes,
        )[i] == byte_out(chunk_start_in(start, sizes, i), (start + i) as nat, input[i])
            && start <= chunk_start_in(start, sizes, i) <= start + i by {
            if i < s0 {
                assert((head + tail)[i] == head[i]);
            } else {
                assert((head + tail)[i] == tail[i - s0]);
                assert(tail[i - s0] == byte_out(
                    chunk_start_in((start + s0) as nat, rest, i - s0),
                    ((start + s0) + (i - s0)) as nat,
                    input.skip(s0)[i - s0],
                ));
            }
        };
    }
}

/// Order preservation: the byte at output offset `i` depends only on the
/// byte at input offset `i` — it is either that byte unchanged or that byte
/// with the corruption mask applied.  Nothing is reordered.
pub proof fn lemma_order_preservation(start: nat, input: Seq<u8>, output: Seq<u8>)
    requires
        is_transformed(start, input, output),
    ensures
        output.len() == input.len(),
        forall|i: int|
            0 <= i < input.len() ==> #[trigger] output[i] == input[i] || output[i] == flip_byte(
                input[i],
            ),
{
    let sizes = choose|sizes: Seq<int>|
        valid_sizes(input.len(), sizes) && output == transform_with(start, input, sizes);
    lemma_transform_with_len(start, input, sizes);
    lemma_transform_with_index(start, input, sizes);
}

/// Corruption inactivity below 1 MiB: a byte whose absolute position lies
/// before the first whole mebibyte always passes through unchanged.
pub proof fn lemma_inactive_below_first_mebibyte(start: nat, input: Seq<u8>, output: Seq<u8>)
    requires
        is_transformed(start, input, output),
    ensures
        forall|i: int|
            0 <= i < input.len() && start + i < INTENSITY_DENOM ==> #[trigger] output[i]
                == input[i],
{
    let sizes = choose|sizes: Seq<int>|
        valid_sizes(input.len(), sizes) && output == transform_with(start, input, sizes);
    lemma_transform_with_len(start, input, sizes);
    lemma_transform_with_index(start, input, sizes);
    assert forall|i: int|
        0 <= i < input.len() && start + i < INTENSITY_DENOM implies #[trigger] output[i]
        == input[i] by {
        let cs = chunk_start_in(start, sizes, i);
        assert(transform_with(start, input, sizes)[i] == byte_out(cs, (start + i) as nat, input[i])
            && start <= cs <= start + i);
        vstd::arithmetic::div_mod::lemma_basic_div(cs as int, INTENSITY_DENOM as int);
        assert(intensity_of(cs) == 0);
    };
}

/// Determinism: the transform of a given input at a given starting position
/// under a given fragmentation is one single output — two runs that chunk
/// the same way produce byte-identical results.
pub proof fn lemma_determinism(
    start: nat,
    input: Seq<u8>,
    sizes: Seq<int>,
    out1: Seq<u8>,
    out2: Seq<u8>,
)
    requires
        out1 == transform_with(start, input, sizes),
        out2 == transform_with(start, input, sizes),
    ensures
        out1 == out2,
{
}

/// The corruption of a single byte is self-inverse.
pub proof fn lemma_flip_involution(b: u8)
    ensures
        flip_byte(flip_byte(b)) == b,
{
    assert((b ^ MASK) ^ MASK == b) by (bit_vector);
}

/// Corrupting one chunk twice at the same starting position restores it.
pub proof fn lemma_chunk_involution(chunk_start: nat, c: Seq<u8>)
    ensures
        chunk_output(chunk_start, chunk_output(chunk_start, c)) == c,
{
    assert forall|i: int| 0 <= i < c.len() implies chunk_output(
        chunk_start,
        chunk_output(chunk_start, c),
    )[i] == c[i] by {
        lemma_flip_involution(c[i]);
    };
    assert(chunk_output(chunk_start, chunk_output(chunk_start, c)) =~= c);
}

/// XOR involution: transforming an input twice, from the same starting
/// position and under the same fragmentation, restores the input exactly.
pub proof fn lemma_transform_involution(start: nat, input: Seq<u8>, sizes: Seq<int>)
    requires
        valid_sizes(input.len(), sizes),
    ensures
        transform_with(start, transform_with(start, input, sizes), sizes) == input,
    decreases sizes.len(),
{
    let once = transform_with(start, input, sizes);
    lemma_transform_with_len(start, input, sizes);
    if sizes.len() == 0 {
        assert(once =~= input);
    } else {
        let s0 = sizes[0];
        let rest = sizes.drop_first();
        let head = chunk_output(start, input.take(s0));
        let tail = transform_with((start + s0) as nat, input.skip(s0), rest);
        assert(head.len() == s0);
        assert(once.take(s0) =~= head);
        assert(once.skip(s0) =~= tail);
        lemma_chunk_involution(start, input.take(s0));
        lemma_transform_involution((start + s0) as nat, input.skip(s0), rest);
        assert(transform_with(start, once, sizes) == chunk_output(start, once.take(s0))
            + transform_with((start + s0) as nat, once.skip(s0), rest));
        assert(chunk_output(start, once.take(s0)) == input.take(s0));
        assert(transform_with((start + s0) as nat, once.skip(s0), rest) == input.skip(s0));
        assert(input.take(s0) + input.skip(s0) =~= input);
    }
}

/// Monotonic intensity: of two positions at or past the first mebibyte, the
/// later one has at least the intensity, and at most the corruption period,
/// of the earlier one — corruption never gets sparser as the stream
/// progresses.
pub proof fn lemma_period_monotonic(p1: nat, p2: nat)
    requires
        INTENSITY_DENOM <= p1 <= p2,
    ensures
        0 < intensity_of(p1) <= intensity_of(p2),
        period_of(intensity_of(p2)) <= period_of(intensity_of(p1)),
{
    vstd::arithmetic::div_mod::lemma_div_non_zero(p1 as int, INTENSITY_DENOM as int);
    vstd::arithmetic::div_mod::lemma_div_is_ordered(
        p1 as int,
        p2 as int,
        INTENSITY_DENOM as int,
    );
    vstd::arithmetic::div_mod::lemma_div_is_ordered_by_denominator(
        PERIOD_BASE as int,
        intensity_of(p1) as int,
        intensity_of(p2) as int,
    );
}

} // verus!
