//! Decoder for a layered game save container.
//!
//! A container starts with a 20-byte SHA-1 digest of everything that follows,
//! then a 4-byte big-endian size prefix and an LZO-compressed block.  The
//! decompressed block holds a 19-byte header (size, magic tag, version, hash,
//! declared output length) followed by a serialized Huffman tree and the
//! Huffman-encoded payload.  The library peels these layers in order and
//! returns the decoded payload bytes, or a typed error naming the stage that
//! rejected the input.

mod bits;
mod container;
mod errors;
mod huffman;

pub use bits::BitReader;
pub use container::{handle_uncompressed_data, load_save_mem, Header};
pub use errors::LoadSaveError;
pub use huffman::decode;
