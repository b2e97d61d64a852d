use borderlands2::{decode, BitReader, LoadSaveError};

/// Packs bits (given as 0/1 values, most-significant-bit first) into bytes,
/// zero-padding the last byte.
fn pack_bits(bits: &[u8]) -> Vec<u8> {
    let mut out: Vec<u8> = Vec::new();
    for chunk in bits.chunks(8) {
        let mut b: u8 = 0;
        for (i, &bit) in chunk.iter().enumerate() {
            b |= bit << (7 - i);
        }
        out.push(b);
    }
    out
}

/// Appends the 9 serialized bits of a leaf: a set flag, then the symbol.
fn push_leaf(bits: &mut Vec<u8>, symbol: u8) {
    bits.push(1);
    for k in (0..8).rev() {
        bits.push((symbol >> k) & 1);
    }
}

/// The serialized two-leaf tree: root, then 'a' on the 0 branch and 'b' on
/// the 1 branch.
fn tree_ab_bits() -> Vec<u8> {
    let mut bits = vec![0];
    push_leaf(&mut bits, b'a');
    push_leaf(&mut bits, b'b');
    bits
}

#[test]
fn decode_round_trip_abba() {
    let mut bits = tree_ab_bits();
    bits.extend_from_slice(&[0, 1, 1, 0]); // a, b, b, a
    let input = pack_bits(&bits);
    assert_eq!(decode(&input, 4), Ok(b"abba".to_vec()));
}

#[test]
fn decode_single_leaf_repeats_symbol() {
    // A one-leaf tree encodes every symbol with zero bits.
    let mut bits = Vec::new();
    push_leaf(&mut bits, b'a');
    let input = pack_bits(&bits);
    assert_eq!(decode(&input, 5), Ok(vec![b'a'; 5]));
}

#[test]
fn decode_exact_output_length() {
    let mut bits = tree_ab_bits();
    bits.extend_from_slice(&[1, 1, 1]);
    let input = pack_bits(&bits);
    for n in 0..3 {
        let out = decode(&input, n).unwrap();
        assert_eq!(out.len(), n);
    }
}

#[test]
fn decode_too_long_request_fails_cleanly() {
    let mut bits = tree_ab_bits();
    bits.extend_from_slice(&[0, 1, 1, 0]);
    let input = pack_bits(&bits);
    assert_eq!(decode(&input, 50), Err(LoadSaveError::OutOfBounds));
}

#[test]
fn decode_empty_input_is_out_of_bounds() {
    assert_eq!(decode(&[], 0), Err(LoadSaveError::OutOfBounds));
}

#[test]
fn decode_truncated_leaf_is_out_of_bounds() {
    // A leaf flag with only 7 bits left for its symbol.
    assert_eq!(decode(&[0x80], 1), Err(LoadSaveError::OutOfBounds));
}

#[test]
fn decode_huge_tree_is_overflow() {
    // 512 clear bits open 512 internal nodes: one more than the table holds.
    let input = vec![0u8; 64];
    assert_eq!(decode(&input, 0), Err(LoadSaveError::TreeOverflow));
}

#[test]
fn bit_reader_walks_bits_then_stops() {
    let data = [0xA5u8];
    let mut r = BitReader::new(&data);
    let expect = [true, false, true, false, false, true, false, true];
    for &want in &expect {
        assert_eq!(r.read_bit(), Ok(want));
    }
    assert_eq!(r.read_bit(), Err(LoadSaveError::OutOfBounds));
}

#[test]
fn bit_reader_assembles_bytes_msb_first() {
    let data = [0xC3u8, 0x50];
    let mut r = BitReader::new(&data);
    assert_eq!(r.read_bit(), Ok(true));
    assert_eq!(r.read_byte(), Ok(0x86)); // bits 1..9, shifted left by one
    assert_eq!(r.read_byte(), Err(LoadSaveError::OutOfBounds));
}

#[test]
fn decode_is_deterministic() {
    let mut bits = tree_ab_bits();
    bits.extend_from_slice(&[1, 0, 1]);
    let input = pack_bits(&bits);
    assert_eq!(decode(&input, 3), decode(&input, 3));
}
