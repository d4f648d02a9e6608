//! Splitting text into synthesis chunks on sentence boundaries.
//!
//! A chunk is one pass through the model. Chunks are whole sentences where those
//! fit, since a break inside one is audible; the first chunk is short, so that sound
//! starts quickly, and the others are packed to the model's phoneme budget, which
//! gives it more context and better prosody. Characters are only a proxy for that
//! limit, so the text is phonemised up front and measured directly.

use vstd::prelude::*;

pub mod chunk;
pub mod packer;
pub mod sentences;
pub mod split;
pub mod stream;

pub use chunk::chunk_text;
pub use packer::{Budget, Chunk};
pub use sentences::ends_sentence;
pub use stream::ChunkStream;

verus! {

/// The characters that the first chunk is held to, where characters are capped.
pub const FIRST_CHUNK_CHARS: usize = 100;

/// The phonemes that a chunk is held to.
pub const CHUNK_PHONEMES: usize = 500;

/// The phonemes that the first chunk is held to.
pub const FIRST_CHUNK_PHONEMES: usize = 100;

} // verus!
