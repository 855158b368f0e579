//! Big-endian fixed-width integers as bytes, in both directions.

use vstd::prelude::*;

verus! {

/// The number that the two bytes of `s` from position `at` on stand for.
pub open spec fn be_u16_at(s: Seq<u8>, at: int) -> int {
    s[at] * 0x100 + s[at + 1]
}

/// The number that the four bytes of `s` from position `at` on stand for.
pub open spec fn be_u32_at(s: Seq<u8>, at: int) -> int {
    s[at] * 0x100_0000 + s[at + 1] * 0x1_0000 + s[at + 2] * 0x100 + s[at + 3]
}

/// The number that the four bytes of `s` from position `at` on stand for
/// in two's complement.
pub open spec fn be_i32_at(s: Seq<u8>, at: int) -> int {
    if be_u32_at(s, at) >= 0x8000_0000 {
        be_u32_at(s, at) - 0x1_0000_0000
    } else {
        be_u32_at(s, at)
    }
}

/// The number that the eight bytes of `s` from position `at` on stand for.
pub open spec fn be_u64_at(s: Seq<u8>, at: int) -> int {
    be_u32_at(s, at) * 0x1_0000_0000 + be_u32_at(s, at + 4)
}

/// The two big-endian bytes of `v`.
pub open spec fn u16_be(v: u16) -> Seq<u8> {
    seq![(v / 0x100) as u8, (v % 0x100) as u8]
}

/// The four big-endian bytes of `v`.
pub open spec fn u32_be(v: u32) -> Seq<u8> {
    seq![
        (v / 0x100_0000) as u8,
        (v / 0x1_0000 % 0x100) as u8,
        (v / 0x100 % 0x100) as u8,
        (v % 0x100) as u8,
    ]
}

/// The four big-endian bytes of `v` in two's complement.
pub open spec fn i32_be(v: i32) -> Seq<u8> {
    if v < 0 {
        u32_be((v + 0x1_0000_0000) as u32)
    } else {
        u32_be(v as u32)
    }
}

/// The eight big-endian bytes of `v`.
pub open spec fn u64_be(v: u64) -> Seq<u8> {
    u32_be((v / 0x1_0000_0000) as u32) + u32_be((v % 0x1_0000_0000) as u32)
}

} // verus!
