//! Conversions between byte arrays and machine integers, little-endian:
//! within each word or address, the least significant byte comes first.

use vstd::prelude::*;

verus! {

use vstd::arithmetic::div_mod::{lemma_div_denominator, lemma_fundamental_div_mod};

/// The number that a little-endian run of four bytes denotes.
pub open spec fn le32_val(b: Seq<u8>) -> int
    recommends
        b.len() == 4,
{
    b[0] + b[1] * 0x100 + b[2] * 0x10000 + b[3] * 0x1000000
}

/// The number that a little-endian run of two bytes denotes.
pub open spec fn le16_val(b: Seq<u8>) -> int
    recommends
        b.len() == 2,
{
    b[0] + b[1] * 0x100
}

/// The little-endian bytes of a 32-bit integer.
pub open spec fn le32_bytes(w: u32) -> Seq<u8> {
    seq![
        (w as int % 0x100) as u8,
        (w as int / 0x100 % 0x100) as u8,
        (w as int / 0x10000 % 0x100) as u8,
        (w as int / 0x1000000) as u8,
    ]
}

/// Read a 32-bit integer from its four little-endian bytes.
pub fn u8sto32(bytes: &[u8]) -> (w: u32)
    requires
        bytes@.len() == 4,
    ensures
        w as int == le32_val(bytes@),
{
    bytes[0] as u32 + bytes[1] as u32 * 0x100 + bytes[2] as u32 * 0x10000 + bytes[3] as u32
        * 0x1000000
}

/// Read a 16-bit integer from its two little-endian bytes.
pub fn u8sto16(bytes: &[u8]) -> (a: u16)
    requires
        bytes@.len() == 2,
    ensures
        a as int == le16_val(bytes@),
{
    bytes[0] as u16 + bytes[1] as u16 * 0x100
}

/// Split a 32-bit integer into its four little-endian bytes.
pub fn u32to8s(w: u32) -> (bytes: [u8; 4])
    ensures
        bytes@ == le32_bytes(w),
        le32_val(bytes@) == w,
{
    proof {
        lemma_fundamental_div_mod(w as int, 0x100);
        lemma_fundamental_div_mod(w as int / 0x100, 0x100);
        lemma_fundamental_div_mod(w as int / 0x10000, 0x100);
        lemma_div_denominator(w as int, 0x100, 0x100);
        lemma_div_denominator(w as int, 0x10000, 0x100);
    }
    let bytes: [u8; 4] = [
        (w % 0x100) as u8,
        (w / 0x100 % 0x100) as u8,
        (w / 0x10000 % 0x100) as u8,
        (w / 0x1000000) as u8,
    ];
    proof {
        assert(bytes@ =~= le32_bytes(w));
    }
    bytes
}

/// Split a 16-bit integer into its two little-endian bytes.
pub fn u16to8s(a: u16) -> (bytes: [u8; 2])
    ensures
        bytes@ == seq![(a as int % 0x100) as u8, (a as int / 0x100) as u8],
        le16_val(bytes@) == a,
{
    proof {
        lemma_fundamental_div_mod(a as int, 0x100);
    }
    let bytes: [u8; 2] = [(a % 0x100) as u8, (a / 0x100) as u8];
    proof {
        assert(bytes@ =~= seq![(a as int % 0x100) as u8, (a as int / 0x100) as u8]);
    }
    bytes
}

} // verus!
