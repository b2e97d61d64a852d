use vstd::prelude::*;

verus! {

/// Everything that can go wrong while loading a save container.
///
/// Each variant names the stage that rejected the input.  The decode
/// pipeline in this crate produces only the integrity, block-decompression,
/// header and Huffman variants; `IOError` and `MalformedRecord` belong to
/// the unverified callers that read files and parse the structured record.
#[derive(Clone, Copy, Debug, PartialEq, Eq, Structural)]
pub enum LoadSaveError {
    /// Reading the container from storage failed.
    IOError,
    /// The container is shorter than the 24-byte minimum
    /// (20-byte digest plus 4-byte size prefix).
    TooShort,
    /// The leading 20 bytes do not equal the SHA-1 digest of the rest.
    ChecksumMismatch,
    /// The block decompressor rejected the compressed payload.
    BlockDecompress,
    /// The decompressed buffer is shorter than its 19-byte header.
    HeaderTooShort,
    /// The 3-byte magic tag of the header is not the expected literal.
    BadMagic,
    /// The declared Huffman output length is negative.
    BadOutputLength,
    /// Deserializing the Huffman tree would need more than 511 nodes.
    TreeOverflow,
    /// The bit stream ended before the declared output was produced.
    OutOfBounds,
    /// The decoded payload does not conform to the record schema.
    MalformedRecord,
}

} // verus!
