use vstd::prelude::*;
use crate::errors::LoadSaveError;

verus! {

/// The bit at position `i` of `bytes`, counting bits most-significant first
/// within each byte: bit 0 is the top bit of byte 0.
pub open spec fn bit_at(bytes: Seq<u8>, i: int) -> bool {
    (bytes[i / 8] >> ((7 - (i % 8)) as u32)) & 1 == 1
}

/// The bit-stream view of a byte sequence: 8 bits per byte, MSB first.
pub open spec fn bits_of_bytes(bytes: Seq<u8>) -> Seq<bool> {
    Seq::new(bytes.len() * 8, |i: int| bit_at(bytes, i))
}

/// Numeric weight of one bit.
pub open spec fn bit_val(b: bool) -> int {
    if b { 1 } else { 0 }
}

/// The byte assembled from the 8 bits of `bits` starting at `p`, the first
/// bit becoming the highest-order bit of the result.
pub open spec fn byte_from_bits(bits: Seq<bool>, p: int) -> u8 {
    (bit_val(bits[p]) * 128 + bit_val(bits[p + 1]) * 64 + bit_val(bits[p + 2]) * 32
        + bit_val(bits[p + 3]) * 16 + bit_val(bits[p + 4]) * 8 + bit_val(bits[p + 5]) * 4
        + bit_val(bits[p + 6]) * 2 + bit_val(bits[p + 7])) as u8
}

/// Positional reader over a bit-addressable byte buffer.  The cursor starts
/// at bit 0 and only ever moves forward.  It is kept as a byte index plus a
/// bit offset within that byte, so it cannot overflow for any buffer.
pub struct BitReader<'a> {
    data: &'a [u8],
    byte_idx: usize,
    bit_idx: usize,
}

impl<'a> BitReader<'a> {
    /// The whole bit stream this reader walks.
    pub closed spec fn bits(self) -> Seq<bool> {
        bits_of_bytes(self.data@)
    }

    /// The current cursor position, in bits from the start.
    pub closed spec fn cursor(self) -> int {
        8 * self.byte_idx + self.bit_idx
    }

    /// The cursor never runs past the end of the stream.
    pub closed spec fn wf(self) -> bool {
        &&& self.bit_idx < 8
        &&& self.byte_idx <= self.data@.len()
        &&& self.byte_idx == self.data@.len() ==> self.bit_idx == 0
    }

    pub fn new(data: &'a [u8]) -> (r: Self)
        ensures
            r.bits() == bits_of_bytes(data@),
            r.cursor() == 0,
            r.wf(),
    {
        BitReader { data, byte_idx: 0, bit_idx: 0 }
    }

    /// Returns the bit under the cursor and advances the cursor by one;
    /// fails with `OutOfBounds` once the cursor has reached the end.
    pub fn read_bit(&mut self) -> (res: Result<bool, LoadSaveError>)
        requires
            old(self).wf(),
        ensures
            final(self).wf(),
            final(self).bits() == old(self).bits(),
            0 <= old(self).cursor() <= old(self).bits().len(),
            0 <= final(self).cursor() <= final(self).bits().len(),
            match res {
                Ok(b) => {
                    &&& old(self).cursor() < old(self).bits().len()
                    &&& b == old(self).bits()[old(self).cursor()]
                    &&& final(self).cursor() == old(self).cursor() + 1
                },
                Err(e) => {
                    &&& e == LoadSaveError::OutOfBounds
                    &&& old(self).cursor() >= old(self).bits().len()
                    &&& final(self).cursor() == old(self).cursor()
                },
            },
    {
        if self.byte_idx < self.data.len() {
            let b: u8 = self.data[self.byte_idx];
            let sh: u32 = (7 - self.bit_idx) as u32;
            let bit: bool = (b >> sh) & 1 == 1;
            proof {
                let i = self.cursor();
                assert(i / 8 == self.byte_idx && i % 8 == self.bit_idx);
                assert(self.bits()[i] == bit_at(self.data@, i));
            }
            if self.bit_idx == 7 {
                self.bit_idx = 0;
                self.byte_idx = self.byte_idx + 1;
            } else {
                self.bit_idx = self.bit_idx + 1;
            }
            Ok(bit)
        } else {
            Err(LoadSaveError::OutOfBounds)
        }
    }

    /// Reads 8 consecutive bits, assembled most-significant-bit first;
    /// fails with `OutOfBounds` if fewer than 8 bits remain.
    pub fn read_byte(&mut self) -> (res: Result<u8, LoadSaveError>)
        requires
            old(self).wf(),
        ensures
            final(self).wf(),
            final(self).bits() == old(self).bits(),
            0 <= old(self).cursor() <= old(self).bits().len(),
            0 <= final(self).cursor() <= final(self).bits().len(),
            match res {
                Ok(v) => {
                    &&& old(self).cursor() + 8 <= old(self).bits().len()
                    &&& v == byte_from_bits(old(self).bits(), old(self).cursor())
                    &&& final(self).cursor() == old(self).cursor() + 8
                },
                Err(e) => {
                    &&& e == LoadSaveError::OutOfBounds
                    &&& old(self).cursor() + 8 > old(self).bits().len()
                },
            },
    {
        let b0 = match self.read_bit() { Ok(b) => b, Err(e) => return Err(e) };
        let b1 = match self.read_bit() { Ok(b) => b, Err(e) => return Err(e) };
        let b2 = match self.read_bit() { Ok(b) => b, Err(e) => return Err(e) };
        let b3 = match self.read_bit() { Ok(b) => b, Err(e) => return Err(e) };
        let b4 = match self.read_bit() { Ok(b) => b, Err(e) => return Err(e) };
        let b5 = match self.read_bit() { Ok(b) => b, Err(e) => return Err(e) };
        let b6 = match self.read_bit() { Ok(b) => b, Err(e) => return Err(e) };
        let b7 = match self.read_bit() { Ok(b) => b, Err(e) => return Err(e) };
        let value: u8 = (if b0 { 128u8 } else { 0u8 }) + (if b1 { 64u8 } else { 0u8 })
            + (if b2 { 32u8 } else { 0u8 }) + (if b3 { 16u8 } else { 0u8 })
            + (if b4 { 8u8 } else { 0u8 }) + (if b5 { 4u8 } else { 0u8 })
            + (if b6 { 2u8 } else { 0u8 }) + (if b7 { 1u8 } else { 0u8 });
        Ok(value)
    }
}

} // verus!
