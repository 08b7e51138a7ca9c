//! A streaming byte-corruption filter.
//!
//! The filter copies a byte stream from a source to a sink, deterministically
//! flipping the two least-significant bits of a thin, position-dependent
//! subset of bytes.  Stream length and byte order are preserved exactly; only
//! byte values may change.  Corruption stays inactive over the first mebibyte
//! and grows denser as the stream progresses.

mod filter;
mod laws;
mod mem;
mod model;
mod stream;

pub use laws::chunk_start_in;
pub use laws::lemma_chunk_involution;
pub use laws::lemma_determinism;
pub use laws::lemma_flip_involution;
pub use laws::lemma_inactive_below_first_mebibyte;
pub use laws::lemma_length_preservation;
pub use laws::lemma_order_preservation;
pub use laws::lemma_period_monotonic;
pub use laws::lemma_transform_involution;
pub use laws::lemma_transform_with_index;
pub use laws::lemma_transform_with_len;

pub use mem::MemSink;
pub use mem::MemSource;

pub use filter::CorruptingCopy;
pub use filter::CorruptionMode;

pub use stream::ByteSink;
pub use stream::ByteSource;
pub use stream::ReadOutcome;
pub use stream::StreamError;

pub use model::byte_out;
pub use model::chunk_output;
pub use model::corrupted_at;
pub use model::flip_byte;
pub use model::intensity_of;
pub use model::is_transformed;
pub use model::period_of;
pub use model::transform_with;
pub use model::valid_sizes;
pub use model::CHUNK_SIZE;
pub use model::INTENSITY_DENOM;
pub use model::MASK;
pub use model::MAX_STREAM;
pub use model::PERIOD_BASE;
