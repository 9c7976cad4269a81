//! Little-endian readings of multi-byte integers out of byte sequences.

use vstd::prelude::*;

verus! {

/// The value of the little-endian 16-bit integer at offset `off` of `s`.
pub open spec fn u16_le(s: Seq<u8>, off: int) -> int {
    s[off] + s[off + 1] * 0x100
}

/// The value of the little-endian 32-bit integer at offset `off` of `s`.
pub open spec fn u32_le(s: Seq<u8>, off: int) -> int {
    s[off] + s[off + 1] * 0x100 + s[off + 2] * 0x1_0000 + s[off + 3] * 0x100_0000
}

/// Reads the little-endian 16-bit integer at offset `off` of `s`.
pub fn read_u16_le(s: &[u8], off: usize) -> (r: u16)
    requires
        off + 2 <= s@.len(),
    ensures
        r == u16_le(s@, off as int),
{
    (s[off] as u16) + (s[off + 1] as u16) * 0x100
}

/// Reads the little-endian 32-bit integer at offset `off` of `s`.
pub fn read_u32_le(s: &[u8], off: usize) -> (r: u32)
    requires
        off + 4 <= s@.len(),
    ensures
        r == u32_le(s@, off as int),
{
    (s[off] as u32) + (s[off + 1] as u32) * 0x100 + (s[off + 2] as u32) * 0x1_0000 + (s[off
        + 3] as u32) * 0x100_0000
}

} // verus!
