//! Reading fixed-width integers out of byte sequences.

use vstd::prelude::*;

verus! {

/// The big-endian unsigned integer stored in `s[i..i + 4]`.
pub open spec fn be_u32_at(s: Seq<u8>, i: int) -> int {
    s[i] * 0x100_0000 + s[i + 1] * 0x1_0000 + s[i + 2] * 0x100 + s[i + 3]
}

/// The little-endian unsigned integer stored in `s[i..i + 4]`.
pub open spec fn le_u32_at(s: Seq<u8>, i: int) -> int {
    s[i] + s[i + 1] * 0x100 + s[i + 2] * 0x1_0000 + s[i + 3] * 0x100_0000
}

/// The little-endian unsigned integer stored in `s[i..i + 2]`.
pub open spec fn le_u16_at(s: Seq<u8>, i: int) -> int {
    s[i] + s[i + 1] * 0x100
}

/// Reads a big-endian `u32` from `s[i..i + 4]`.
pub fn read_be_u32(s: &Vec<u8>, i: usize) -> (r: u32)
    requires
        i + 4 <= s.len(),
    ensures
        r == be_u32_at(s@, i as int),
{
    (s[i] as u32) * 0x100_0000 + (s[i + 1] as u32) * 0x1_0000 + (s[i + 2] as u32) * 0x100 + (
    s[i + 3] as u32)
}

/// Reads a little-endian `u32` from `s[i..i + 4]`.
pub fn read_le_u32(s: &Vec<u8>, i: usize) -> (r: u32)
    requires
        i + 4 <= s.len(),
    ensures
        r == le_u32_at(s@, i as int),
{
    (s[i] as u32) + (s[i + 1] as u32) * 0x100 + (s[i + 2] as u32) * 0x1_0000 + (s[i + 3] as u32)
        * 0x100_0000
}

/// Reads a little-endian `u16` from `s[i..i + 2]`.
pub fn read_le_u16(s: &Vec<u8>, i: usize) -> (r: u16)
    requires
        i + 2 <= s.len(),
    ensures
        r == le_u16_at(s@, i as int),
{
    (s[i] as u16) + (s[i + 1] as u16) * 0x100
}

} // verus!
