use vstd::prelude::*;
use vstd::slice::slice_subrange;
use crate::bits::bits_of_bytes;
use crate::errors::LoadSaveError;
use crate::huffman::{decode, lemma_huffman_err, spec_decode};
use sha1::Digest;

verus! {

/// The SHA-1 digest (20 bytes) of a byte sequence.  Left unspecified: it is
/// the value the `sha1` crate computes, a function of the input alone.
pub uninterp spec fn sha1_of(data: Seq<u8>) -> Seq<u8>;

/// Relies on `sha1::Sha1::digest`: SHA-1 of the input, always 20 bytes,
/// depending on the input bytes alone.
#[verifier::external_body]
fn sha1_digest(data: &[u8]) -> (r: Vec<u8>)
    ensures
        r@ == sha1_of(data@),
        r@.len() == 20,
{
    sha1::Sha1::digest(data).to_vec()
}

/// What LZO decompression of `src` into a buffer of `dst_len` bytes yields:
/// `Some` of the output (padded with zeroes up to `dst_len` if the stream
/// ends early), or `None` if the decompressor rejects the input.  A function
/// of its two arguments alone.
pub uninterp spec fn lzo_decompress_of(src: Seq<u8>, dst_len: int) -> Option<Seq<u8>>;

/// Declares `minilzo_rs::LZO` so that it can stand in signatures.
#[verifier::external_type_specification]
#[verifier::external_body]
pub struct ExLzo(minilzo_rs::LZO);

/// Relies on `minilzo_rs::LZO::init`: builds a decompressor instance, or
/// fails if the library cannot initialize itself on this machine.
#[verifier::external_body]
fn lzo_init() -> (r: Option<minilzo_rs::LZO>)
{
    match minilzo_rs::LZO::init() {
        Ok(l) => Some(l),
        Err(_) => None,
    }
}

/// Relies on `minilzo_rs::LZO::decompress_safe`: decompresses `src` into a
/// buffer of exactly `dst_len` bytes, or reports an error.  Its result is
/// a function of `src` and `dst_len` alone: the receiver's only state is
/// scratch memory that decompression does not read.
#[verifier::external_body]
fn lzo_decompress(lzo: &minilzo_rs::LZO, src: &[u8], dst_len: usize) -> (r: Result<Vec<u8>, LoadSaveError>)
    ensures
        match r {
            Ok(v) => {
                &&& lzo_decompress_of(src@, dst_len as int) == Some(v@)
                &&& v@.len() == dst_len
            },
            Err(e) => {
                &&& lzo_decompress_of(src@, dst_len as int) is None
                &&& e == LoadSaveError::BlockDecompress
            },
        },
{
    match lzo.decompress_safe(src, dst_len) {
        Ok(v) => Ok(v),
        Err(_) => Err(LoadSaveError::BlockDecompress),
    }
}

/// The unsigned value of 4 bytes of `b` starting at `i`, big-endian.
pub open spec fn be32_at(b: Seq<u8>, i: int) -> int {
    b[i] * 0x1000000 + b[i + 1] * 0x10000 + b[i + 2] * 0x100 + b[i + 3]
}

/// The unsigned value of 4 bytes of `b` starting at `i`, little-endian.
pub open spec fn le32_at(b: Seq<u8>, i: int) -> int {
    b[i] + b[i + 1] * 0x100 + b[i + 2] * 0x10000 + b[i + 3] * 0x1000000
}

/// Whether bytes 4..7 of the decompressed buffer hold the magic tag,
/// the ASCII literal "WSG".
pub open spec fn magic_ok(d: Seq<u8>) -> bool {
    d[4] == 0x57 && d[5] == 0x53 && d[6] == 0x47
}

/// The fixed-layout 19-byte header at the front of the decompressed buffer.
/// All fields but `declared_len` are informational: parsed, never checked.
#[derive(Clone, Copy, Debug, PartialEq, Eq, Structural)]
pub struct Header {
    /// Declared inner size (big-endian, informational).
    pub inner_size: u32,
    /// Format version (little-endian, informational).
    pub version: u32,
    /// Content hash (little-endian, informational).
    pub content_hash: u32,
    /// Exact Huffman output length: the raw bits of a little-endian i32.
    pub declared_len: u32,
}

/// What parsing the header yields: `HeaderTooShort` under 19 bytes,
/// `BadMagic` when the tag is off, else the four fields.
pub open spec fn spec_parse_header(d: Seq<u8>) -> Result<Header, LoadSaveError> {
    if d.len() < 19 {
        Err(LoadSaveError::HeaderTooShort)
    } else if !magic_ok(d) {
        Err(LoadSaveError::BadMagic)
    } else {
        Ok(Header {
            inner_size: be32_at(d, 0) as u32,
            version: le32_at(d, 7) as u32,
            content_hash: le32_at(d, 11) as u32,
            declared_len: le32_at(d, 15) as u32,
        })
    }
}

impl Header {
    /// Parses the 19-byte header from the front of `d`.
    pub fn parse(d: &[u8]) -> (r: Result<Header, LoadSaveError>)
        ensures
            r == spec_parse_header(d@),
    {
        if d.len() < 19 {
            return Err(LoadSaveError::HeaderTooShort);
        }
        if !(d[4] == 0x57 && d[5] == 0x53 && d[6] == 0x47) {
            return Err(LoadSaveError::BadMagic);
        }
        let inner_size: u32 = (d[0] as u32) * 0x1000000 + (d[1] as u32) * 0x10000
            + (d[2] as u32) * 0x100 + (d[3] as u32);
        let version: u32 = (d[7] as u32) + (d[8] as u32) * 0x100 + (d[9] as u32) * 0x10000
            + (d[10] as u32) * 0x1000000;
        let content_hash: u32 = (d[11] as u32) + (d[12] as u32) * 0x100
            + (d[13] as u32) * 0x10000 + (d[14] as u32) * 0x1000000;
        let declared_len: u32 = (d[15] as u32) + (d[16] as u32) * 0x100
            + (d[17] as u32) * 0x10000 + (d[18] as u32) * 0x1000000;
        Ok(Header { inner_size, version, content_hash, declared_len })
    }
}

/// What handling the decompressed buffer yields: header parsing, then the
/// Huffman decode of everything after byte 19, producing exactly the
/// declared number of bytes.  A declared length with the sign bit set is a
/// negative i32 and can never be an output length.
pub open spec fn spec_handle(d: Seq<u8>) -> Result<Seq<u8>, LoadSaveError> {
    match spec_parse_header(d) {
        Err(e) => Err(e),
        Ok(h) => {
            if h.declared_len >= 0x80000000u32 {
                Err(LoadSaveError::BadOutputLength)
            } else {
                spec_decode(d.skip(19), h.declared_len as nat)
            }
        },
    }
}

/// Parses the header of the decompressed buffer and Huffman-decodes the
/// payload after it into exactly the declared number of bytes.
pub fn handle_uncompressed_data(uncompressed_data: Vec<u8>) -> (r: Result<Vec<u8>, LoadSaveError>)
    ensures
        match r {
            Ok(v) => spec_handle(uncompressed_data@) == Ok::<_, LoadSaveError>(v@),
            Err(e) => spec_handle(uncompressed_data@) == Err::<Seq<u8>, _>(e),
        },
{
    let h = match Header::parse(uncompressed_data.as_slice()) {
        Ok(h) => h,
        Err(e) => return Err(e),
    };
    if h.declared_len >= 0x80000000u32 {
        return Err(LoadSaveError::BadOutputLength);
    }
    let n: usize = h.declared_len as usize;
    let huff = slice_subrange(uncompressed_data.as_slice(), 19, uncompressed_data.len());
    proof {
        assert(huff@ =~= uncompressed_data@.skip(19));
    }
    decode(huff, n)
}

/// True when the byte sequences behind `a` and `b` are equal.
fn bytes_eq(a: &[u8], b: &[u8]) -> (r: bool)
    ensures
        r == (a@ == b@),
{
    if a.len() != b.len() {
        return false;
    }
    let mut i: usize = 0;
    while i < a.len()
        invariant
            i <= a@.len(),
            a@.len() == b@.len(),
            forall|j: int| 0 <= j < i ==> a@[j] == b@[j],
        decreases a@.len() - i,
    {
        if a[i] != b[i] {
            return false;
        }
        i = i + 1;
    }
    proof {
        assert(a@ =~= b@);
    }
    true
}

/// What loading a container from memory yields: the length check, the
/// SHA-1 comparison, LZO decompression of the size-prefixed block, then
/// `spec_handle` on the decompressed buffer.
pub open spec fn spec_load(b: Seq<u8>) -> Result<Seq<u8>, LoadSaveError> {
    if b.len() < 24 {
        Err(LoadSaveError::TooShort)
    } else if sha1_of(b.skip(20)) != b.take(20) {
        Err(LoadSaveError::ChecksumMismatch)
    } else {
        match lzo_decompress_of(b.skip(24), be32_at(b, 20)) {
            Option::None => Err(LoadSaveError::BlockDecompress),
            Option::Some(d) => spec_handle(d),
        }
    }
}

/// Decodes a whole save container held in memory: digest check, LZO
/// decompression, header parse, Huffman decode.  Returns the decoded
/// payload bytes.
///
/// The result is `spec_load` of the input, with one allowance: if the LZO
/// library fails to initialize, the block-decompression error is reported
/// even on inputs `spec_load` accepts.
pub fn load_save_mem(buffer: Vec<u8>) -> (r: Result<Vec<u8>, LoadSaveError>)
    ensures
        match r {
            Ok(v) => spec_load(buffer@) == Ok::<_, LoadSaveError>(v@),
            Err(e) => match e {
                LoadSaveError::BlockDecompress => {
                    &&& buffer@.len() >= 24
                    &&& sha1_of(buffer@.skip(20)) == buffer@.take(20)
                },
                _ => spec_load(buffer@) == Err::<Seq<u8>, _>(e),
            },
        },
        spec_load(buffer@) == Err::<Seq<u8>, _>(LoadSaveError::BlockDecompress)
            ==> r == Err::<Vec<u8>, _>(LoadSaveError::BlockDecompress),
{
    if buffer.len() < 24 {
        return Err(LoadSaveError::TooShort);
    }
    let whole = buffer.as_slice();
    let data = slice_subrange(whole, 20, buffer.len());
    proof {
        assert(data@ =~= buffer@.skip(20));
    }
    let digest = sha1_digest(data);
    let lead = slice_subrange(whole, 0, 20);
    proof {
        assert(lead@ =~= buffer@.take(20));
    }
    if !bytes_eq(digest.as_slice(), lead) {
        return Err(LoadSaveError::ChecksumMismatch);
    }
    let declared: u32 = (data[0] as u32) * 0x1000000 + (data[1] as u32) * 0x10000
        + (data[2] as u32) * 0x100 + (data[3] as u32);
    proof {
        assert(declared == be32_at(buffer@, 20));
    }
    let dst_len: usize = declared as usize;
    let comp = slice_subrange(whole, 24, buffer.len());
    proof {
        assert(comp@ =~= buffer@.skip(24));
    }
    let lzo = match lzo_init() {
        Some(l) => l,
        None => return Err(LoadSaveError::BlockDecompress),
    };
    let inter = match lzo_decompress(&lzo, comp, dst_len) {
        Ok(v) => v,
        Err(e) => return Err(e),
    };
    handle_uncompressed_data(inter)
}

/// A container shorter than the 24-byte minimum always fails with the
/// length error, before anything is read past its end.
pub proof fn lemma_short_container(b: Seq<u8>)
    requires
        b.len() < 24,
    ensures
        spec_load(b) == Err::<Seq<u8>, _>(LoadSaveError::TooShort),
{
}

/// The checksum gate: a full-length container fails with
/// `ChecksumMismatch` exactly when its leading 20 bytes are not the SHA-1
/// digest of the rest.  Any corruption of the payload that changes that
/// digest, and any corruption of the leading 20 bytes themselves, is
/// caught here; no later stage ever reports this error.
pub proof fn lemma_checksum_gate(b: Seq<u8>)
    requires
        b.len() >= 24,
    ensures
        (spec_load(b) == Err::<Seq<u8>, _>(LoadSaveError::ChecksumMismatch))
            <==> sha1_of(b.skip(20)) != b.take(20),
{
    if sha1_of(b.skip(20)) == b.take(20) {
        match lzo_decompress_of(b.skip(24), be32_at(b, 20)) {
            Option::None => {},
            Option::Some(d) => {
                match spec_parse_header(d) {
                    Err(_) => {},
                    Ok(h) => {
                        if h.declared_len < 0x80000000u32 {
                            if spec_decode(d.skip(19), h.declared_len as nat) is Err {
                                lemma_huffman_err(bits_of_bytes(d.skip(19)),
                                    h.declared_len as nat);
                            }
                        }
                    },
                }
            },
        }
    }
}

/// Decoding is deterministic: the decoded record is a function of the
/// container bytes alone, so two results that meet `load_save_mem`'s
/// contract on the same bytes are equal.
pub proof fn lemma_load_deterministic(
    b: Seq<u8>,
    r1: Result<Seq<u8>, LoadSaveError>,
    r2: Result<Seq<u8>, LoadSaveError>,
)
    requires
        r1 == spec_load(b),
        r2 == spec_load(b),
    ensures
        r1 == r2,
{
}

/// A corrupted magic tag is caught at the header stage, not the checksum
/// stage: while the digest still matches and decompression still succeeds,
/// the failure is `BadMagic`.
pub proof fn lemma_bad_magic(b: Seq<u8>, d: Seq<u8>)
    requires
        b.len() >= 24,
        sha1_of(b.skip(20)) == b.take(20),
        lzo_decompress_of(b.skip(24), be32_at(b, 20)) == Some(d),
        d.len() >= 19,
        !magic_ok(d),
    ensures
        spec_load(b) == Err::<Seq<u8>, _>(LoadSaveError::BadMagic),
{
}

} // verus!
