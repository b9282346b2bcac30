//! The numeric conversion layer: bijective-where-defined conversions between
//! the packed signed-magnitude containers (word, address, double word) and
//! ordinary signed integers, plus extraction of byte fields from a word.
//!
//! The mathematical model of a packed container splits it into a magnitude
//! (the low bits, read as a base-64 number) and a sign bit; the spec
//! functions below state every conversion in those terms.

use vstd::prelude::*;

verus! {

use vstd::arithmetic::div_mod::{
    lemma_fundamental_div_mod,
    lemma_fundamental_div_mod_converse_div,
    lemma_fundamental_div_mod_converse_mod,
    lemma_hoist_over_denominator,
    lemma_mod_bound,
    lemma_mod_breakdown,
    lemma_mod_multiples_vanish,
    lemma_small_mod,
};
use vstd::arithmetic::mul::{
    lemma_mul_inequality,
    lemma_mul_is_associative,
    lemma_mul_is_distributive_sub_other_way,
};
use crate::mix_types::{MixAddr, MixByte, MixWord, MIX_ADDR_MAX, MIX_ADDR_MIN, MIX_DOUBLEWORD_MAX,
    MIX_DOUBLEWORD_MIN, MIX_WORD_MAX, MIX_WORD_MIN};

/// The absolute value of a mathematical integer.
pub open spec fn int_abs(v: int) -> int {
    if v < 0 {
        -v
    } else {
        v
    }
}

/// 64 raised to the power `k`: the place value of base-64 digits.
pub open spec fn pow64(k: nat) -> int
    decreases k,
{
    if k == 0 {
        1
    } else {
        64 * pow64((k - 1) as nat)
    }
}

/// The magnitude stored in a word: its low 30 bits, read as a number.
pub open spec fn word_mag(w: MixWord) -> int {
    (w as int) % 0x4000_0000
}

/// Whether a word's sign bit (bit 30) says minus.
pub open spec fn word_is_neg(w: MixWord) -> bool {
    ((w as int) / 0x4000_0000) % 2 == 1
}

/// The signed integer a word denotes.
pub open spec fn word_val(w: MixWord) -> int {
    if word_is_neg(w) {
        -word_mag(w)
    } else {
        word_mag(w)
    }
}

/// The word that encodes `v`: sign bit from `v`'s sign, magnitude truncated
/// to 30 bits, unused high bit clear.
pub open spec fn word_encode(v: int) -> MixWord {
    ((if v < 0 {
        0x4000_0000int
    } else {
        0int
    }) + int_abs(v) % 0x4000_0000) as u32
}

/// The magnitude stored in an address: its low 12 bits.
pub open spec fn addr_mag(a: MixAddr) -> int {
    (a as int) % 0x1000
}

/// Whether an address's sign bit (bit 12) says minus.
pub open spec fn addr_is_neg(a: MixAddr) -> bool {
    ((a as int) / 0x1000) % 2 == 1
}

/// The signed integer an address denotes.
pub open spec fn addr_val(a: MixAddr) -> int {
    if addr_is_neg(a) {
        -addr_mag(a)
    } else {
        addr_mag(a)
    }
}

/// The address that encodes `v`: sign bit from `v`'s sign, magnitude
/// truncated to 12 bits, unused high bits clear.
pub open spec fn addr_encode(v: int) -> MixAddr {
    ((if v < 0 {
        0x1000int
    } else {
        0int
    }) + int_abs(v) % 0x1000) as u16
}

/// The magnitude spanned by a double word: the high word's magnitude in the
/// upper 30 bits, the low word's in the lower 30.
pub open spec fn dword_mag(hi: MixWord, lo: MixWord) -> int {
    word_mag(hi) * 0x4000_0000 + word_mag(lo)
}

/// The signed integer a double word denotes; only the high word's sign
/// counts.
pub open spec fn dword_val(hi: MixWord, lo: MixWord) -> int {
    if word_is_neg(hi) {
        -dword_mag(hi, lo)
    } else {
        dword_mag(hi, lo)
    }
}

/// The word pair that encodes `v`: the magnitude truncated to 60 bits and
/// split at bit 30, with `v`'s sign bit written into both words.
pub open spec fn dword_encode(v: int) -> (MixWord, MixWord) {
    let sign = if v < 0 {
        0x4000_0000int
    } else {
        0int
    };
    let m = int_abs(v);
    (((sign + (m / 0x4000_0000) % 0x4000_0000) as u32), ((sign + m % 0x4000_0000) as u32))
}

/// Convert a MIX address to a signed machine 16-bit integer.
pub fn from_mix_addr(addr: MixAddr) -> (r: i16)
    ensures
        r as int == addr_val(addr),
        MIX_ADDR_MIN <= r <= MIX_ADDR_MAX,
{
    let mag: u16 = addr % 0x1000;
    let neg: bool = (addr / 0x1000) % 2 == 1;
    if neg {
        -(mag as i16)
    } else {
        mag as i16
    }
}

/// Convert a signed machine 16-bit integer to a MIX address. A magnitude
/// too large for 12 bits loses its higher-order bits.
pub fn to_mix_addr(addr: i16) -> (r: MixAddr)
    ensures
        r == addr_encode(addr as int),
{
    let m32: u32 = if addr < 0 {
        (-(addr as i32)) as u32
    } else {
        addr as u32
    };
    let mag: u16 = (m32 % 0x1000) as u16;
    if addr < 0 {
        0x1000 + mag
    } else {
        mag
    }
}

/// Convert a MIX word to a signed machine 32-bit integer.
pub fn from_mix_word(word: MixWord) -> (r: i32)
    ensures
        r as int == word_val(word),
        MIX_WORD_MIN <= r <= MIX_WORD_MAX,
{
    let mag: u32 = word % 0x4000_0000;
    let neg: bool = (word / 0x4000_0000) % 2 == 1;
    if neg {
        -(mag as i32)
    } else {
        mag as i32
    }
}

/// Convert a signed machine 32-bit integer to a MIX word. A magnitude too
/// large for 30 bits loses its higher-order bits.
pub fn to_mix_word(word: i32) -> (r: MixWord)
    ensures
        r == word_encode(word as int),
{
    let m64: u64 = if word < 0 {
        (-(word as i64)) as u64
    } else {
        word as u64
    };
    let mag: u32 = (m64 % 0x4000_0000) as u32;
    if word < 0 {
        0x4000_0000 + mag
    } else {
        mag
    }
}

/// Convert two MIX words to a signed machine 64-bit integer, using the sign
/// of the higher word.
pub fn from_mix_dword(hi: MixWord, lo: MixWord) -> (r: i64)
    ensures
        r as int == dword_val(hi, lo),
        MIX_DOUBLEWORD_MIN <= r <= MIX_DOUBLEWORD_MAX,
{
    let hm: u64 = (hi % 0x4000_0000) as u64;
    let lm: u64 = (lo % 0x4000_0000) as u64;
    let m: u64 = hm * 0x4000_0000 + lm;
    let neg: bool = (hi / 0x4000_0000) % 2 == 1;
    if neg {
        -(m as i64)
    } else {
        m as i64
    }
}

/// Convert a signed machine 64-bit integer to two MIX words. A magnitude too
/// large for 60 bits loses its higher-order bits; both words receive the
/// sign.
pub fn to_mix_dword(dword: i64) -> (r: (MixWord, MixWord))
    ensures
        r == dword_encode(dword as int),
{
    let m: u64 = if dword < 0 {
        (-(dword as i128)) as u64
    } else {
        dword as u64
    };
    let lo_mag: u32 = (m % 0x4000_0000) as u32;
    let hi_mag: u32 = ((m / 0x4000_0000) % 0x4000_0000) as u32;
    let sign_bit: u32 = if dword < 0 {
        0x4000_0000
    } else {
        0
    };
    (sign_bit + hi_mag, sign_bit + lo_mag)
}

/// `pow64` is always positive.
pub proof fn lemma_pow64_pos(k: nat)
    ensures
        pow64(k) >= 1,
    decreases k,
{
    if k > 0 {
        lemma_pow64_pos((k - 1) as nat);
    }
}

/// Place values multiply: `64^(a+b) == 64^a * 64^b`.
pub proof fn lemma_pow64_adds(a: nat, b: nat)
    ensures
        pow64(a + b) == pow64(a) * pow64(b),
    decreases a,
{
    if a == 0 {
    } else {
        lemma_pow64_adds((a - 1) as nat, b);
        lemma_mul_is_associative(64, pow64((a - 1) as nat), pow64(b));
    }
}

/// The place values of the six byte positions, as numbers.
pub proof fn lemma_pow64_vals()
    ensures
        pow64(0) == 1,
        pow64(1) == 64,
        pow64(2) == 0x1000,
        pow64(3) == 0x40000,
        pow64(4) == 0x1000000,
        pow64(5) == 0x4000_0000,
{
    reveal_with_fuel(pow64, 6);
}

/// The byte range `[from, to]` of a word, right-aligned: the sign bit is
/// included, shifted down with the rest, exactly when `from == 0`.
pub open spec fn spec_get_bytes(w: MixWord, from: int, to: int) -> int
    recommends
        0 <= from <= to <= 5,
{
    if from == 0 {
        (w as int) / pow64((5 - to) as nat)
    } else {
        ((w as int) / pow64((5 - to) as nat)) % pow64((to - from + 1) as nat)
    }
}

/// The left part `L` of a field specification `8 * L + R`.
pub open spec fn field_l(fs: MixByte) -> int {
    (fs as int) / 8
}

/// The right part `R` of a field specification `8 * L + R`.
pub open spec fn field_r(fs: MixByte) -> int {
    (fs as int) % 8
}

/// A field specification is valid when it decodes to `(L, R)` with
/// `L <= R <= 5`.
pub open spec fn field_spec_valid(fs: MixByte) -> bool {
    field_l(fs) <= field_r(fs) && field_r(fs) <= 5
}

/// The bytes `[L, R]` of a word, left-justified: re-aligned to the word's
/// most-significant end and zero-filled below, wherever the selected range
/// lay. A selection that includes the sign (`L == 0`) puts the sign back in
/// its own position with its bytes right after it; any other selection
/// starts at the byte-1 position.
pub open spec fn spec_field_word(w: MixWord, fs: MixByte) -> int
    recommends
        field_spec_valid(fs),
{
    let l = field_l(fs);
    let r = field_r(fs);
    if l == 0 {
        spec_get_bytes(w, 0, r) * pow64((5 - r) as nat)
    } else {
        spec_get_bytes(w, l, r) * pow64((l + 4 - r) as nat)
    }
}

/// 64 raised to the power `k`, as a machine word.
fn pow64_exec(k: u8) -> (r: u32)
    requires
        k <= 5,
    ensures
        r as int == pow64(k as nat),
        1 <= r <= 0x4000_0000,
{
    proof {
        lemma_pow64_vals();
    }
    if k == 0 {
        1
    } else if k == 1 {
        64
    } else if k == 2 {
        0x1000
    } else if k == 3 {
        0x40000
    } else if k == 4 {
        0x1000000
    } else {
        0x4000_0000
    }
}

/// Return bytes `from` up to and including `to` of a word, right-aligned in
/// the result. If the sign is requested (`from == 0`), its bit is shifted
/// over with the rest.
pub fn get_bytes(word: MixWord, from: u8, to: u8) -> (r: u32)
    requires
        from <= to,
        to <= 5,
    ensures
        r as int == spec_get_bytes(word, from as int, to as int),
        from >= 1 ==> (r as int) < pow64((to - from + 1) as nat),
{
    let d = pow64_exec(5 - to);
    let shifted = word / d;
    if from == 0 {
        shifted
    } else {
        let m = pow64_exec(to - from + 1);
        proof {
            lemma_mod_bound(shifted as int, m as int);
        }
        shifted % m
    }
}

/// Apply a field specification to a word: keep the selected bytes, move
/// them to the most-significant end, and zero-fill the rest.
pub fn get_field_word(word: MixWord, field_spec: MixByte) -> (r: MixWord)
    requires
        field_spec_valid(field_spec),
    ensures
        r as int == spec_field_word(word, field_spec),
{
    let l = field_spec / 8;
    let rr = field_spec % 8;
    let x = get_bytes(word, l, rr);
    if l == 0 {
        let scale = pow64_exec(5 - rr);
        proof {
            lemma_fundamental_div_mod(word as int, scale as int);
            lemma_mod_bound(word as int, scale as int);
            assert(x as int * scale as int == scale as int * (word as int / scale as int)) by (
            nonlinear_arith)
                requires
                    x as int == word as int / scale as int,
            ;
        }
        x * scale
    } else {
        let scale = pow64_exec(l + 4 - rr);
        proof {
            let n = (rr - l + 1) as nat;
            lemma_pow64_pos(n);
            lemma_mul_inequality(x as int, pow64(n) - 1, scale as int);
            lemma_mul_is_distributive_sub_other_way(scale as int, pow64(n), 1);
            lemma_pow64_adds(n, (l + 4 - rr) as nat);
            lemma_pow64_vals();
        }
        x * scale
    }
}

/// A word built from a sign and five in-range byte values decomposes back
/// into exactly those fields.
pub proof fn lemma_word_fields(sign: int, v1: int, v2: int, v3: int, v4: int, v5: int)
    requires
        0 <= sign <= 1,
        0 <= v1 < 64,
        0 <= v2 < 64,
        0 <= v3 < 64,
        0 <= v4 < 64,
        0 <= v5 < 64,
    ensures
        ({
            let w = (sign * 0x4000_0000 + v1 * 0x1000000 + v2 * 0x40000 + v3 * 0x1000 + v4 * 64
                + v5) as MixWord;
            &&& word_is_neg(w) == (sign == 1)
            &&& word_mag(w) == v1 * 0x1000000 + v2 * 0x40000 + v3 * 0x1000 + v4 * 64 + v5
            &&& spec_get_bytes(w, 0, 0) == sign
            &&& spec_get_bytes(w, 1, 1) == v1
            &&& spec_get_bytes(w, 2, 2) == v2
            &&& spec_get_bytes(w, 3, 3) == v3
            &&& spec_get_bytes(w, 4, 4) == v4
            &&& spec_get_bytes(w, 5, 5) == v5
        }),
{
    lemma_pow64_vals();
    let s = sign;
    let m = v1 * 0x1000000 + v2 * 0x40000 + v3 * 0x1000 + v4 * 64 + v5;
    let w = s * 0x4000_0000 + m;
    lemma_fundamental_div_mod_converse_div(w, 0x4000_0000, s, m);
    lemma_fundamental_div_mod_converse_mod(w, 0x4000_0000, s, m);
    lemma_fundamental_div_mod_converse_div(
        w,
        0x1000000,
        s * 64 + v1,
        v2 * 0x40000 + v3 * 0x1000 + v4 * 64 + v5,
    );
    lemma_fundamental_div_mod_converse_mod(s * 64 + v1, 64, s, v1);
    lemma_fundamental_div_mod_converse_div(
        w,
        0x40000,
        s * 0x1000 + v1 * 64 + v2,
        v3 * 0x1000 + v4 * 64 + v5,
    );
    lemma_fundamental_div_mod_converse_mod(s * 0x1000 + v1 * 64 + v2, 64, s * 64 + v1, v2);
    lemma_fundamental_div_mod_converse_div(
        w,
        0x1000,
        s * 0x40000 + v1 * 0x1000 + v2 * 64 + v3,
        v4 * 64 + v5,
    );
    lemma_fundamental_div_mod_converse_mod(
        s * 0x40000 + v1 * 0x1000 + v2 * 64 + v3,
        64,
        s * 0x1000 + v1 * 64 + v2,
        v3,
    );
    lemma_fundamental_div_mod_converse_div(
        w,
        64,
        s * 0x1000000 + v1 * 0x40000 + v2 * 0x1000 + v3 * 64 + v4,
        v5,
    );
    lemma_fundamental_div_mod_converse_mod(
        s * 0x1000000 + v1 * 0x40000 + v2 * 0x1000 + v3 * 64 + v4,
        64,
        s * 0x40000 + v1 * 0x1000 + v2 * 64 + v3,
        v4,
    );
    lemma_fundamental_div_mod_converse_mod(
        w,
        64,
        s * 0x1000000 + v1 * 0x40000 + v2 * 0x1000 + v3 * 64 + v4,
        v5,
    );
}

/// Pack a sign and five byte values into a word.
pub fn word_from_bytes(sign: u8, b1: u8, b2: u8, b3: u8, b4: u8, b5: u8) -> (r: MixWord)
    requires
        sign <= 1,
        b1 <= 63,
        b2 <= 63,
        b3 <= 63,
        b4 <= 63,
        b5 <= 63,
    ensures
        r as int == sign * 0x4000_0000 + b1 * 0x1000000 + b2 * 0x40000 + b3 * 0x1000 + b4 * 64
            + b5,
        word_is_neg(r) == (sign == 1),
        word_mag(r) == b1 * 0x1000000 + b2 * 0x40000 + b3 * 0x1000 + b4 * 64 + b5,
        spec_get_bytes(r, 1, 1) == b1,
        spec_get_bytes(r, 2, 2) == b2,
        spec_get_bytes(r, 3, 3) == b3,
        spec_get_bytes(r, 4, 4) == b4,
        spec_get_bytes(r, 5, 5) == b5,
{
    proof {
        lemma_word_fields(sign as int, b1 as int, b2 as int, b3 as int, b4 as int, b5 as int);
    }
    sign as u32 * 0x4000_0000 + b1 as u32 * 0x1000000 + b2 as u32 * 0x40000 + b3 as u32 * 0x1000
        + b4 as u32 * 64 + b5 as u32
}

/// Law: decoding an encoded address drops the magnitude's bits above the
/// twelfth and keeps the sign, for every integer.
pub proof fn lemma_addr_encode_truncates(v: int)
    ensures
        addr_val(addr_encode(v)) == (if v < 0 {
            -(int_abs(v) % 0x1000)
        } else {
            v % 0x1000
        }),
{
    let s: int = if v < 0 {
        1
    } else {
        0
    };
    let m = int_abs(v) % 0x1000;
    lemma_mod_bound(int_abs(v), 0x1000);
    lemma_fundamental_div_mod_converse_div(s * 0x1000 + m, 0x1000, s, m);
    lemma_fundamental_div_mod_converse_mod(s * 0x1000 + m, 0x1000, s, m);
}

/// Law: for every value an address can represent, encoding then decoding
/// returns it unchanged.
pub proof fn lemma_addr_round_trip(v: int)
    requires
        MIX_ADDR_MIN <= v <= MIX_ADDR_MAX,
    ensures
        addr_val(addr_encode(v)) == v,
{
    lemma_addr_encode_truncates(v);
    lemma_small_mod(int_abs(v) as nat, 0x1000);
}

/// Law: decoding an encoded word drops the magnitude's bits above the
/// thirtieth and keeps the sign, for every integer.
pub proof fn lemma_word_encode_truncates(v: int)
    ensures
        word_val(word_encode(v)) == (if v < 0 {
            -(int_abs(v) % 0x4000_0000)
        } else {
            v % 0x4000_0000
        }),
{
    let s: int = if v < 0 {
        1
    } else {
        0
    };
    let m = int_abs(v) % 0x4000_0000;
    lemma_mod_bound(int_abs(v), 0x4000_0000);
    lemma_fundamental_div_mod_converse_div(s * 0x4000_0000 + m, 0x4000_0000, s, m);
    lemma_fundamental_div_mod_converse_mod(s * 0x4000_0000 + m, 0x4000_0000, s, m);
}

/// Law: for every value a word can represent, encoding then decoding
/// returns it unchanged.
pub proof fn lemma_word_round_trip(v: int)
    requires
        MIX_WORD_MIN <= v <= MIX_WORD_MAX,
    ensures
        word_val(word_encode(v)) == v,
{
    lemma_word_encode_truncates(v);
    lemma_small_mod(int_abs(v) as nat, 0x4000_0000);
}

/// Law: decoding an encoded double word drops the magnitude's bits above
/// the sixtieth and keeps the sign, for every integer.
pub proof fn lemma_dword_encode_truncates(v: int)
    ensures
        dword_val(dword_encode(v).0, dword_encode(v).1) == (if v < 0 {
            -(int_abs(v) % 0x1000_0000_0000_0000)
        } else {
            v % 0x1000_0000_0000_0000
        }),
{
    let s: int = if v < 0 {
        1
    } else {
        0
    };
    let m = int_abs(v);
    let h = (m / 0x4000_0000) % 0x4000_0000;
    let l = m % 0x4000_0000;
    lemma_mod_bound(m / 0x4000_0000, 0x4000_0000);
    lemma_mod_bound(m, 0x4000_0000);
    lemma_fundamental_div_mod_converse_div(s * 0x4000_0000 + h, 0x4000_0000, s, h);
    lemma_fundamental_div_mod_converse_mod(s * 0x4000_0000 + h, 0x4000_0000, s, h);
    lemma_fundamental_div_mod_converse_div(s * 0x4000_0000 + l, 0x4000_0000, s, l);
    lemma_fundamental_div_mod_converse_mod(s * 0x4000_0000 + l, 0x4000_0000, s, l);
    lemma_mod_breakdown(m, 0x4000_0000, 0x4000_0000);
}

/// Law: for every value a double word can represent, encoding then decoding
/// returns it unchanged.
pub proof fn lemma_dword_round_trip(v: int)
    requires
        MIX_DOUBLEWORD_MIN <= v <= MIX_DOUBLEWORD_MAX,
    ensures
        dword_val(dword_encode(v).0, dword_encode(v).1) == v,
{
    lemma_dword_encode_truncates(v);
    lemma_small_mod(int_abs(v) as nat, 0x1000_0000_0000_0000);
}

/// Law: extracting the full byte range `(0, 5)` of a word is the identity.
pub proof fn lemma_get_bytes_full_word(w: MixWord)
    ensures
        spec_get_bytes(w, 0, 5) == w,
{
    lemma_pow64_vals();
}

/// A byte range that starts at or after byte 1 reads only the word's
/// magnitude: the extraction can be computed from `word_mag` alone.
pub proof fn lemma_get_bytes_from_mag(w: MixWord, from: int, to: int)
    requires
        1 <= from <= to <= 5,
    ensures
        spec_get_bytes(w, from, to) == (word_mag(w) / pow64((5 - to) as nat)) % pow64(
            (to - from + 1) as nat,
        ),
{
    let d = pow64((5 - to) as nat);
    let md = pow64((to - from + 1) as nat);
    let k = pow64((from - 1) as nat);
    lemma_pow64_pos((5 - to) as nat);
    lemma_pow64_pos((to - from + 1) as nat);
    lemma_pow64_pos((from - 1) as nat);
    lemma_pow64_adds((5 - to) as nat, (to - from + 1) as nat);
    lemma_pow64_adds((6 - from) as nat, (from - 1) as nat);
    lemma_pow64_vals();
    let h = w as int / 0x4000_0000;
    let m = w as int % 0x4000_0000;
    lemma_fundamental_div_mod(w as int, 0x4000_0000);
    lemma_mod_bound(w as int, 0x4000_0000);
    let j = md * k * h;
    assert(j * d == 0x4000_0000 * h && md * k * h == md * (k * h)) by (nonlinear_arith)
        requires
            j == md * k * h,
            d * md == pow64((6 - from) as nat),
            pow64((6 - from) as nat) * k == 0x4000_0000,
    ;
    lemma_hoist_over_denominator(m, j, d as nat);
    assert(w as int / d == m / d + md * (k * h));
    lemma_mod_multiples_vanish(k * h, m / d, md);
}

/// Law: a byte range that starts at or after byte 1 never includes the sign
/// bit: two words of equal magnitude extract equal ranges.
pub proof fn lemma_get_bytes_ignores_sign(w1: MixWord, w2: MixWord, from: int, to: int)
    requires
        1 <= from <= to <= 5,
        word_mag(w1) == word_mag(w2),
    ensures
        spec_get_bytes(w1, from, to) == spec_get_bytes(w2, from, to),
{
    lemma_get_bytes_from_mag(w1, from, to);
    lemma_get_bytes_from_mag(w2, from, to);
}

/// Law: applying the full field specification `(0, 5)` to a word returns it
/// unchanged.
pub proof fn lemma_field_word_identity(w: MixWord)
    ensures
        spec_field_word(w, 5) == w,
{
    lemma_pow64_vals();
}

/// Law: applying the field specification `(1, 1)` keeps byte 1 in its own
/// position and zero-fills the sign and all other bytes.
pub proof fn lemma_field_word_byte1(w: MixWord)
    ensures
        spec_field_word(w, 9) == spec_get_bytes(w, 1, 1) * 0x1000000,
        ({
            let fw = spec_field_word(w, 9) as MixWord;
            &&& word_is_neg(fw) == false
            &&& spec_get_bytes(fw, 0, 0) == 0
            &&& spec_get_bytes(fw, 1, 1) == spec_get_bytes(w, 1, 1)
            &&& spec_get_bytes(fw, 2, 2) == 0
            &&& spec_get_bytes(fw, 3, 3) == 0
            &&& spec_get_bytes(fw, 4, 4) == 0
            &&& spec_get_bytes(fw, 5, 5) == 0
        }),
{
    lemma_pow64_vals();
    let b1 = spec_get_bytes(w, 1, 1);
    lemma_get_bytes_from_mag(w, 1, 1);
    lemma_mod_bound(word_mag(w) / 0x1000000, 64);
    lemma_mod_bound(w as int, 0x4000_0000);
    lemma_word_fields(0, b1, 0, 0, 0, 0);
}

} // verus!
