//! Little-endian byte encoding of 32-bit words.

use vstd::prelude::*;

verus! {

/// Byte `position` of `value` in little-endian order: position 0 is the
/// least significant byte.
pub open spec fn le_byte(value: u32, position: int) -> u8 {
    if position == 0 {
        (value % 256) as u8
    } else if position == 1 {
        (value / 256 % 256) as u8
    } else if position == 2 {
        (value / 65536 % 256) as u8
    } else {
        (value / 16777216) as u8
    }
}

/// The little-endian encoding of `values`: four bytes for each word, the
/// words in order.
pub open spec fn le_bytes(values: Seq<u32>) -> Seq<u8> {
    Seq::new(4 * values.len(), |i: int| le_byte(values[i / 4], i % 4))
}

/// Encodes `values` as little-endian bytes.
pub fn u32s_to_le_bytes(values: &[u32]) -> (bytes: Vec<u8>)
    ensures
        bytes@ == le_bytes(values@),
        bytes@.len() == 4 * values@.len(),
{
    let mut bytes: Vec<u8> = Vec::new();
    let mut i: usize = 0;
    while i < values.len()
        invariant
            i <= values.len(),
            bytes@.len() == 4 * i,
            forall|j: int| 0 <= j < 4 * i ==> bytes@[j] == le_byte(values@[j / 4], j % 4),
        decreases values.len() - i,
    {
        let value: u32 = values[i];
        bytes.push((value % 256) as u8);
        bytes.push((value / 256 % 256) as u8);
        bytes.push((value / 65536 % 256) as u8);
        bytes.push((value / 16777216) as u8);
        i += 1;
    }
    bytes
}

} // verus!
