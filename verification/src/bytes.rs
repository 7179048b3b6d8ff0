//! Numbers in byte strings.

use vstd::prelude::*;

verus! {

/// The 16-bit number at `i`, lowest byte first.
pub open spec fn le_u16(s: Seq<u8>, i: int) -> u16 {
    (s[i] + s[i + 1] * 0x100) as u16
}

/// The 32-bit number at `i`, lowest byte first.
pub open spec fn le_u32(s: Seq<u8>, i: int) -> u32 {
    (s[i] + s[i + 1] * 0x100 + s[i + 2] * 0x1_0000 + s[i + 3] * 0x100_0000) as u32
}

/// The 64-bit number at `i`, lowest byte first.
pub open spec fn le_u64(s: Seq<u8>, i: int) -> u64 {
    (le_u32(s, i) + le_u32(s, i + 4) * 0x1_0000_0000) as u64
}

pub fn read_le_u16(s: &[u8], i: usize) -> (r: u16)
    requires
        i + 2 <= s@.len(),
    ensures
        r == le_u16(s@, i as int),
{
    assert(s.len() == s@.len());
    s[i] as u16 + s[i + 1] as u16 * 0x100
}

pub fn read_le_u32(s: &[u8], i: usize) -> (r: u32)
    requires
        i + 4 <= s@.len(),
    ensures
        r == le_u32(s@, i as int),
{
    assert(s.len() == s@.len());
    s[i] as u32 + s[i + 1] as u32 * 0x100 + s[i + 2] as u32 * 0x1_0000 + s[i + 3] as u32
        * 0x100_0000
}

pub fn read_le_u64(s: &[u8], i: usize) -> (r: u64)
    requires
        i + 8 <= s@.len(),
    ensures
        r == le_u64(s@, i as int),
{
    assert(s.len() == s@.len());
    read_le_u32(s, i) as u64 + read_le_u32(s, i + 4) as u64 * 0x1_0000_0000
}

} // verus!
