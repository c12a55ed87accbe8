//! Little-endian numbers in byte buffers.

use vstd::prelude::*;

verus! {

/// The little-endian number in the bytes `[at, at + n)`.
pub open spec fn little_endian(s: Seq<u8>, at: int, n: nat) -> nat
    decreases n,
{
    if n == 0 {
        0
    } else {
        s[at] as nat + 256 * little_endian(s, at + 1, (n - 1) as nat)
    }
}

/// Reads two bytes.
pub fn read_u16(s: &[u8], at: usize) -> (r: u16)
    requires
        at + 2 <= s@.len(),
    ensures
        r == little_endian(s@, at as int, 2),
{
    proof {
        reveal_with_fuel(little_endian, 3);
    }
    s[at] as u16 + 256 * (s[at + 1] as u16)
}

/// Reads four bytes.
pub fn read_u32(s: &[u8], at: usize) -> (r: u32)
    requires
        at + 4 <= s@.len(),
    ensures
        r == little_endian(s@, at as int, 4),
{
    proof {
        reveal_with_fuel(little_endian, 5);
    }
    s[at] as u32 + 256 * (s[at + 1] as u32 + 256 * (s[at + 2] as u32 + 256 * (s[at + 3] as u32)))
}

/// Reads eight bytes.
pub fn read_u64(s: &[u8], at: usize) -> (r: u64)
    requires
        at + 8 <= s@.len(),
    ensures
        r == little_endian(s@, at as int, 8),
{
    let _len: usize = s.len();
    let low: u64 = read_u32(s, at) as u64;
    let high: u64 = read_u32(s, at + 4) as u64;
    proof {
        reveal_with_fuel(little_endian, 9);
    }
    low + 0x1_0000_0000 * high
}

/// The low byte comes first: a number of two, four or eight bytes.
pub proof fn law_low_byte_first(s: Seq<u8>, at: int)
    ensures
        little_endian(s, at, 2) == s[at] + 0x100 * s[at + 1],
        little_endian(s, at, 4) == s[at] + 0x100 * s[at + 1] + 0x1_0000 * s[at + 2] + 0x100_0000
            * s[at + 3],
        little_endian(s, at, 8) == little_endian(s, at, 4) + 0x1_0000_0000 * little_endian(
            s,
            at + 4,
            4,
        ),
{
    reveal_with_fuel(little_endian, 9);
}

} // verus!
