//! Little-endian integers in byte buffers.

use vstd::prelude::*;

verus! {

/// The little-endian 16-bit value at `offset`.
pub open spec fn spec_le_u16(bytes: Seq<u8>, offset: int) -> int {
    bytes[offset] + 256 * bytes[offset + 1]
}

/// The little-endian 32-bit value at `offset`.
pub open spec fn spec_le_u32(bytes: Seq<u8>, offset: int) -> int {
    spec_le_u16(bytes, offset) + 0x1_0000 * spec_le_u16(bytes, offset + 2)
}

/// The little-endian 64-bit value at `offset`.
pub open spec fn spec_le_u64(bytes: Seq<u8>, offset: int) -> int {
    spec_le_u32(bytes, offset) + 0x1_0000_0000 * spec_le_u32(bytes, offset + 4)
}

/// Reads the little-endian 16-bit value at `offset`.
pub fn le_u16(bytes: &[u8], offset: usize) -> (value: u16)
    requires
        offset + 2 <= bytes@.len(),
    ensures
        value == spec_le_u16(bytes@, offset as int),
{
    let low = bytes[offset] as u16;
    let high = bytes[offset + 1] as u16;
    low + 256 * high
}

/// Reads the little-endian 32-bit value at `offset`.
pub fn le_u32(bytes: &[u8], offset: usize) -> (value: u32)
    requires
        offset + 4 <= bytes@.len(),
    ensures
        value == spec_le_u32(bytes@, offset as int),
{
    let len = bytes.len();
    assert(offset + 4 <= len);
    let low = le_u16(bytes, offset) as u32;
    let high = le_u16(bytes, offset + 2) as u32;
    low + 0x1_0000 * high
}

/// Reads the little-endian 64-bit value at `offset`.
pub fn le_u64(bytes: &[u8], offset: usize) -> (value: u64)
    requires
        offset + 8 <= bytes@.len(),
    ensures
        value == spec_le_u64(bytes@, offset as int),
{
    let len = bytes.len();
    assert(offset + 8 <= len);
    let low = le_u32(bytes, offset) as u64;
    let high = le_u32(bytes, offset + 4) as u64;
    low + 0x1_0000_0000 * high
}

} // verus!
