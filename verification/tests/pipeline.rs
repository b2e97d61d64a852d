use borderlands2::{handle_uncompressed_data, load_save_mem, Header, LoadSaveError};
use sha1::Digest;

/// Packs bits (given as 0/1 values, most-significant-bit first) into bytes,
/// zero-padding the last byte.
fn pack_bits(bits: &[u8]) -> Vec<u8> {
    let mut out: Vec<u8> = Vec::new();
    for chunk in bits.chunks(8) {
        let mut b: u8 = 0;
        for (i, &bit) in chunk.iter().enumerate() {
            b |= bit << (7 - i);
        }
        out.push(b);
    }
    out
}

/// The Huffman block of the fixtures: a two-leaf tree ('a' on 0, 'b' on 1)
/// followed by the encoded symbols of "abba".
fn huffman_block() -> Vec<u8> {
    let mut bits: Vec<u8> = vec![0];
    for &symbol in &[b'a', b'b'] {
        bits.push(1);
        for k in (0..8).rev() {
            bits.push((symbol >> k) & 1);
        }
    }
    bits.extend_from_slice(&[0, 1, 1, 0]); // a, b, b, a
    pack_bits(&bits)
}

/// A decompressed buffer: 19-byte header with the given magic tag and
/// declared output length, then the Huffman block.
fn intermediate(magic: &[u8; 3], declared_len: i32) -> Vec<u8> {
    let mut inter: Vec<u8> = Vec::new();
    inter.extend_from_slice(&22u32.to_be_bytes()); // informational inner size
    inter.extend_from_slice(magic);
    inter.extend_from_slice(&2u32.to_le_bytes()); // informational version
    inter.extend_from_slice(&0u32.to_le_bytes()); // informational hash
    inter.extend_from_slice(&declared_len.to_le_bytes());
    inter.extend_from_slice(&huffman_block());
    inter
}

/// Wraps a decompressed buffer into a full container: LZO-compress it,
/// prefix the declared decompressed size, and prefix the SHA-1 digest.
fn container_of(inter: &[u8]) -> Vec<u8> {
    let mut lzo = minilzo_rs::LZO::init().unwrap();
    let comp = lzo.compress(inter).unwrap();
    let mut body: Vec<u8> = Vec::new();
    body.extend_from_slice(&(inter.len() as u32).to_be_bytes());
    body.extend_from_slice(&comp);
    let digest = sha1::Sha1::digest(&body);
    let mut out: Vec<u8> = digest.to_vec();
    out.extend_from_slice(&body);
    out
}

#[test]
fn load_valid_container() {
    let container = container_of(&intermediate(b"WSG", 4));
    assert_eq!(load_save_mem(container), Ok(b"abba".to_vec()));
}

#[test]
fn load_twice_is_identical() {
    let container = container_of(&intermediate(b"WSG", 4));
    assert_eq!(load_save_mem(container.clone()), load_save_mem(container));
}

#[test]
fn short_container_is_too_short() {
    assert_eq!(load_save_mem(Vec::new()), Err(LoadSaveError::TooShort));
    assert_eq!(load_save_mem(vec![7u8; 23]), Err(LoadSaveError::TooShort));
}

#[test]
fn payload_mutation_is_checksum_mismatch() {
    let container = container_of(&intermediate(b"WSG", 4));
    for at in 20..container.len() {
        let mut bad = container.clone();
        bad[at] ^= 0x01;
        assert_eq!(load_save_mem(bad), Err(LoadSaveError::ChecksumMismatch));
    }
}

#[test]
fn digest_mutation_is_checksum_mismatch() {
    let container = container_of(&intermediate(b"WSG", 4));
    for at in 0..20 {
        let mut bad = container.clone();
        bad[at] ^= 0x80;
        assert_eq!(load_save_mem(bad), Err(LoadSaveError::ChecksumMismatch));
    }
}

#[test]
fn garbage_block_is_decompress_error() {
    let mut body: Vec<u8> = Vec::new();
    body.extend_from_slice(&10u32.to_be_bytes());
    body.extend_from_slice(&[0xFF; 5]);
    let digest = sha1::Sha1::digest(&body);
    let mut container: Vec<u8> = digest.to_vec();
    container.extend_from_slice(&body);
    assert_eq!(load_save_mem(container), Err(LoadSaveError::BlockDecompress));
}

#[test]
fn corrupt_magic_is_bad_magic_not_checksum() {
    // The digest still matches, so the failure must come from the header
    // stage, not the integrity stage.
    let container = container_of(&intermediate(b"XSG", 4));
    assert_eq!(load_save_mem(container), Err(LoadSaveError::BadMagic));
}

#[test]
fn short_decompressed_buffer_is_header_too_short() {
    let container = container_of(&[1u8, 2, 3, 4, 5]);
    assert_eq!(load_save_mem(container), Err(LoadSaveError::HeaderTooShort));
}

#[test]
fn negative_declared_length_is_bad_output_length() {
    let container = container_of(&intermediate(b"WSG", -1));
    assert_eq!(load_save_mem(container), Err(LoadSaveError::BadOutputLength));
}

#[test]
fn oversized_tree_in_container_is_overflow() {
    let mut inter = intermediate(b"WSG", 0);
    inter.truncate(19);
    inter.extend_from_slice(&[0u8; 64]);
    let container = container_of(&inter);
    assert_eq!(load_save_mem(container), Err(LoadSaveError::TreeOverflow));
}

#[test]
fn truncated_stream_in_container_is_out_of_bounds() {
    // Declares more symbols than the bit stream can supply.
    let container = container_of(&intermediate(b"WSG", 1000));
    assert_eq!(load_save_mem(container), Err(LoadSaveError::OutOfBounds));
}

#[test]
fn handle_decompressed_buffer_directly() {
    assert_eq!(handle_uncompressed_data(intermediate(b"WSG", 4)), Ok(b"abba".to_vec()));
    assert_eq!(
        handle_uncompressed_data(intermediate(b"WSH", 4)),
        Err(LoadSaveError::BadMagic)
    );
}

#[test]
fn header_parse_reads_fields() {
    let inter = intermediate(b"WSG", 4);
    let h = Header::parse(&inter).unwrap();
    assert_eq!(h.inner_size, 22);
    assert_eq!(h.version, 2);
    assert_eq!(h.content_hash, 0);
    assert_eq!(h.declared_len, 4);
}

#[test]
fn header_parse_rejects_short_and_bad_magic() {
    assert_eq!(Header::parse(&[0u8; 18]), Err(LoadSaveError::HeaderTooShort));
    let inter = intermediate(b"WSh", 4);
    assert_eq!(Header::parse(&inter), Err(LoadSaveError::BadMagic));
}
