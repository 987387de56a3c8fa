//! Big-endian integers, as they stand in every message.

use vstd::prelude::*;

verus! {

/// The two bytes of `x`, most significant first.
pub open spec fn be16(x: u16) -> Seq<u8> {
    seq![(x / 256) as u8, (x % 256) as u8]
}

/// The four bytes of `x`, most significant first.
pub open spec fn be32(x: u32) -> Seq<u8> {
    seq![
        (x / 0x100_0000) as u8,
        (x / 0x1_0000 % 256) as u8,
        (x / 0x100 % 256) as u8,
        (x % 256) as u8,
    ]
}

/// The number that the two bytes of `s` from position `at` on stand for.
pub open spec fn u16_at(s: Seq<u8>, at: int) -> u16 {
    (s[at] * 256 + s[at + 1]) as u16
}

/// The number that the four bytes of `s` from position `at` on stand for.
pub open spec fn u32_at(s: Seq<u8>, at: int) -> u32 {
    (s[at] * 0x100_0000 + s[at + 1] * 0x1_0000 + s[at + 2] * 0x100 + s[at + 3]) as u32
}

/// The two's complement word of a signed 32-bit number.
pub open spec fn word32(x: i32) -> u32 {
    if x >= 0 {
        x as u32
    } else {
        (x + 0x1_0000_0000) as u32
    }
}

/// The signed number that a two's complement word stands for.
pub open spec fn signed32(w: u32) -> i32 {
    if w < 0x8000_0000 {
        w as i32
    } else {
        (w - 0x1_0000_0000) as i32
    }
}

/// The low half of the two's complement word of a signed number.
pub open spec fn word16(x: i32) -> u16 {
    (word32(x) % 0x1_0000) as u16
}

/// The signed number that a 16-bit two's complement word stands for.
pub open spec fn signed16(w: u16) -> i32 {
    if w < 0x8000 {
        w as i32
    } else {
        (w - 0x1_0000) as i32
    }
}

/// The signed number in the four bytes of `s` from position `at` on.
pub open spec fn i32_at(s: Seq<u8>, at: int) -> i32 {
    signed32(u32_at(s, at))
}

/// The signed number in the two bytes of `s` from position `at` on.
pub open spec fn i16_at(s: Seq<u8>, at: int) -> i32 {
    signed16(u16_at(s, at))
}

/// Reading sixteen bits back from their bytes gives the number written.
pub proof fn lemma_u16_round_trip(x: u16, s: Seq<u8>, at: int)
    requires
        s[at] == be16(x)[0],
        s[at + 1] == be16(x)[1],
    ensures
        u16_at(s, at) == x,
{
}

/// Reading thirty-two bits back from their bytes gives the number written.
pub proof fn lemma_u32_round_trip(x: u32, s: Seq<u8>, at: int)
    requires
        s[at] == be32(x)[0],
        s[at + 1] == be32(x)[1],
        s[at + 2] == be32(x)[2],
        s[at + 3] == be32(x)[3],
    ensures
        u32_at(s, at) == x,
{
}

/// A small signed number comes back from its half-word.
pub proof fn lemma_signed16(x: i32)
    requires
        i16::MIN <= x <= i16::MAX,
    ensures
        signed16(word16(x)) == x,
{
}

/// The bytes of `x`, most significant first.
pub fn be16_bytes(x: u16) -> (b: [u8; 2])
    ensures
        b@ == be16(x),
{
    let b = [(x / 256) as u8, (x % 256) as u8];
    assert(b@ =~= be16(x));
    b
}

/// The bytes of `x`, most significant first.
pub fn be32_bytes(x: u32) -> (b: [u8; 4])
    ensures
        b@ == be32(x),
{
    let b = [
        (x / 0x100_0000) as u8,
        (x / 0x1_0000 % 256) as u8,
        (x / 0x100 % 256) as u8,
        (x % 256) as u8,
    ];
    assert(b@ =~= be32(x));
    b
}

/// Reads two bytes of `s` from position `at` on.
pub fn read_u16(s: &[u8], at: usize) -> (x: u16)
    requires
        at + 2 <= s@.len(),
    ensures
        x == u16_at(s@, at as int),
{
    s[at] as u16 * 256 + s[at + 1] as u16
}

/// Reads four bytes of `s` from position `at` on.
pub fn read_u32(s: &[u8], at: usize) -> (x: u32)
    requires
        at + 4 <= s@.len(),
    ensures
        x == u32_at(s@, at as int),
{
    s[at] as u32 * 0x100_0000 + s[at + 1] as u32 * 0x1_0000 + s[at + 2] as u32 * 0x100
        + s[at + 3] as u32
}

/// The two's complement word of a signed number.
pub fn to_word32(x: i32) -> (w: u32)
    ensures
        w == word32(x),
{
    if x >= 0 {
        x as u32
    } else {
        (x as i64 + 0x1_0000_0000) as u32
    }
}

/// The low half of the two's complement word of a signed number.
pub fn to_word16(x: i32) -> (w: u16)
    ensures
        w == word16(x),
{
    (to_word32(x) % 0x1_0000) as u16
}

/// Reads a signed number from the four bytes of `s` from position `at` on.
pub fn read_i32(s: &[u8], at: usize) -> (x: i32)
    requires
        at + 4 <= s@.len(),
    ensures
        x == i32_at(s@, at as int),
{
    to_signed32(read_u32(s, at))
}

/// The signed number that a word stands for.
pub fn to_signed32(w: u32) -> (x: i32)
    ensures
        x == signed32(w),
{
    if w < 0x8000_0000 {
        w as i32
    } else {
        (w as i64 - 0x1_0000_0000) as i32
    }
}

/// Reads a signed number from the two bytes of `s` from position `at` on.
pub fn read_i16(s: &[u8], at: usize) -> (x: i32)
    requires
        at + 2 <= s@.len(),
    ensures
        x == i16_at(s@, at as int),
{
    let w = read_u16(s, at);
    if w < 0x8000 {
        w as i32
    } else {
        w as i32 - 0x1_0000
    }
}

/// The number in the `len` bytes of `s` from position `at` on: each byte counts 256
/// times the one after it.
pub open spec fn field(s: Seq<u8>, at: int, len: nat) -> int
    decreases len,
{
    if len == 0 {
        0
    } else {
        256 * field(s, at, (len - 1) as nat) + s[at + len - 1]
    }
}

/// Numbers stand on the wire with their highest byte first; negative ones as what is
/// left of them to the next power of two.
pub proof fn law_numbers_are_big_endian(s: Seq<u8>, at: int, x: u32, y: u16, z: i32)
    ensures
        u32_at(s, at) == field(s, at, 4),
        u16_at(s, at) == field(s, at, 2),
        be32(x).len() == 4 && field(be32(x), 0, 4) == x,
        be16(y).len() == 2 && field(be16(y), 0, 2) == y,
        word32(z) == if z >= 0 {
            z as int
        } else {
            z + 0x1_0000_0000
        },
        signed32(word32(z)) == z,
        word32(signed32(x)) == x,
        word16(z) == z as int % 0x1_0000,
        signed16(y) == y || signed16(y) == y - 0x1_0000,
        -0x8000 <= signed16(y) < 0x8000,
{
    reveal_with_fuel(field, 5);
}

} // verus!
