//! Parsing of the dump listing back into words: one line per word,
//! `<sign> <b1> <b2> <b3> <b4> <b5>`, tokens separated by ASCII whitespace,
//! the sign `+` or `-`, every byte a decimal number in 0..=63. A malformed
//! line is rejected with a message instead of partially loading memory.
//!
//! The contracts speak of the text's UTF-8 bytes; a byte token is accepted
//! exactly as `u8::from_str` accepts it (an optional leading `+`, then
//! decimal digits, value at most 255) and must then fit in a MIX byte.

use vstd::prelude::*;

verus! {

use vstd::string::StringSliceAdditionalSpecFns;
use vstd::utf8::encode_utf8;
use crate::arch_util::{le32_bytes, u32to8s};
use crate::mix_types::{MixWord, MIX_BYTE_MAX};

/// A rejected dump line, with the reason in words.
#[derive(Debug, Clone)]
pub struct ParseError {
    pub message: &'static str,
}

/// The ways a dump line can be rejected.
#[derive(Debug)]
pub enum ParseFault {
    /// Fewer than six whitespace-separated tokens.
    TooFew,
    /// More than six whitespace-separated tokens.
    TooMany,
    /// The first token is neither `+` nor `-`.
    BadSign,
    /// A byte token is a number, but larger than a MIX byte can hold.
    ByteTooBig,
    /// A byte token is not a small nonnegative number.
    NotANumber,
}

/// The message that reports a fault.
pub open spec fn fault_message(f: ParseFault) -> Seq<char> {
    match f {
        ParseFault::TooFew => "Too few tokens! MIX words have 5 bytes and a sign."@,
        ParseFault::TooMany => "Too many tokens! MIX words have 5 bytes and a sign."@,
        ParseFault::BadSign => "Invalid sign. Sign must be '+' or '-'"@,
        ParseFault::ByteTooBig => "Invalid byte token. Byte must fit into a MIX byte."@,
        ParseFault::NotANumber => "Invalid byte token. Byte must be a small nonnegative number."@,
    }
}

/// ASCII whitespace: the token separators of the dump format. Only these
/// bytes separate tokens; a Unicode space character does not, and a line
/// carrying one is rejected at its byte tokens.
pub open spec fn is_ws(b: u8) -> bool {
    b == 32 || 9 <= b <= 13
}

/// The token at the head of a byte string: the longest whitespace-free
/// prefix.
pub open spec fn token_at(s: Seq<u8>) -> Seq<u8>
    decreases s.len(),
{
    if s.len() == 0 || is_ws(s[0]) {
        Seq::empty()
    } else {
        seq![s[0]] + token_at(s.drop_first())
    }
}

/// The head token is never longer than the string, and never empty when
/// the string starts with a non-separator.
pub proof fn lemma_token_at_len(s: Seq<u8>)
    ensures
        token_at(s).len() <= s.len(),
        s.len() > 0 && !is_ws(s[0]) ==> token_at(s).len() >= 1,
    decreases s.len(),
{
    if s.len() > 0 && !is_ws(s[0]) {
        lemma_token_at_len(s.drop_first());
    }
}

/// The whitespace-separated tokens of a byte string, in order.
pub open spec fn spec_tokens(s: Seq<u8>) -> Seq<Seq<u8>>
    decreases s.len(),
    via spec_tokens_decreases
{
    if s.len() == 0 {
        Seq::empty()
    } else if is_ws(s[0]) {
        spec_tokens(s.drop_first())
    } else {
        seq![token_at(s)] + spec_tokens(s.skip(token_at(s).len() as int))
    }
}

#[via_fn]
proof fn spec_tokens_decreases(s: Seq<u8>) {
    if s.len() > 0 && !is_ws(s[0]) {
        lemma_token_at_len(s);
    }
}

/// When the first `k` bytes are non-separators and the string ends or has a
/// separator right after them, the head token is exactly those `k` bytes.
pub proof fn lemma_token_at_prefix(s: Seq<u8>, k: int)
    requires
        0 <= k <= s.len(),
        forall|j: int| 0 <= j < k ==> !is_ws(#[trigger] s[j]),
        k == s.len() || is_ws(s[k]),
    ensures
        token_at(s) == s.take(k),
    decreases k,
{
    if k == 0 {
        assert(token_at(s) =~= s.take(0));
    } else {
        lemma_token_at_prefix(s.drop_first(), k - 1);
        assert(token_at(s) == seq![s[0]] + token_at(s.drop_first()));
        assert(seq![s[0]] + s.drop_first().take(k - 1) =~= s.take(k));
    }
}

/// Whether a byte is an ASCII whitespace separator.
fn is_ws_byte(b: u8) -> (r: bool)
    ensures
        r == is_ws(b),
{
    b == 32 || (b >= 9 && b <= 13)
}

/// The byte ranges that a list of index pairs selects.
pub open spec fn token_views(bytes: Seq<u8>, toks: Seq<(usize, usize)>) -> Seq<Seq<u8>> {
    Seq::new(toks.len(), |k: int| bytes.subrange(toks[k].0 as int, toks[k].1 as int))
}

/// Split a byte string at ASCII whitespace: returns the index ranges of its
/// tokens, in order.
fn tokenize(bytes: &[u8]) -> (toks: Vec<(usize, usize)>)
    ensures
        token_views(bytes@, toks@) == spec_tokens(bytes@),
        forall|k: int|
            0 <= k < toks@.len() ==> #[trigger] toks@[k].0 < toks@[k].1 <= bytes@.len(),
{
    let n = bytes.len();
    let mut toks: Vec<(usize, usize)> = Vec::new();
    let mut i: usize = 0;
    proof {
        assert(bytes@.skip(0) =~= bytes@);
        assert(token_views(bytes@, toks@) + spec_tokens(bytes@) =~= spec_tokens(bytes@));
    }
    while i < n
        invariant
            i <= n,
            n == bytes@.len(),
            token_views(bytes@, toks@) + spec_tokens(bytes@.skip(i as int)) == spec_tokens(
                bytes@,
            ),
            forall|k: int|
                0 <= k < toks@.len() ==> #[trigger] toks@[k].0 < toks@[k].1 <= bytes@.len(),
        decreases n - i,
    {
        if is_ws_byte(bytes[i]) {
            proof {
                assert(bytes@.skip(i as int).drop_first() =~= bytes@.skip(i as int + 1));
                assert(spec_tokens(bytes@.skip(i as int)) == spec_tokens(
                    bytes@.skip(i as int + 1),
                ));
            }
            i = i + 1;
        } else {
            let start = i;
            i = i + 1;
            while i < n && !is_ws_byte(bytes[i])
                invariant
                    start < i <= n,
                    n == bytes@.len(),
                    forall|j: int| start <= j < i ==> !is_ws(#[trigger] bytes@[j]),
                decreases n - i,
            {
                i = i + 1;
            }
            let ghost prev = toks@;
            toks.push((start, i));
            proof {
                let suffix = bytes@.skip(start as int);
                let k = i - start;
                assert forall|j: int| 0 <= j < k implies !is_ws(#[trigger] suffix[j]) by {
                    assert(suffix[j] == bytes@[start + j]);
                }
                lemma_token_at_prefix(suffix, k);
                assert(suffix.take(k) =~= bytes@.subrange(start as int, i as int));
                assert(spec_tokens(suffix) == seq![token_at(suffix)] + spec_tokens(
                    suffix.skip(token_at(suffix).len() as int),
                ));
                assert(suffix.skip(k) =~= bytes@.skip(i as int));
                assert(token_views(bytes@, toks@) =~= token_views(bytes@, prev) + seq![
                    bytes@.subrange(start as int, i as int),
                ]);
                assert(token_views(bytes@, toks@) + spec_tokens(bytes@.skip(i as int))
                    =~= token_views(bytes@, prev) + spec_tokens(suffix));
            }
        }
    }
    proof {
        assert(spec_tokens(bytes@.skip(n as int)) =~= Seq::<Seq<u8>>::empty());
        assert(token_views(bytes@, toks@) =~= token_views(bytes@, toks@) + spec_tokens(
            bytes@.skip(n as int),
        ));
    }
    toks
}

/// An ASCII decimal digit.
pub open spec fn is_digit(b: u8) -> bool {
    48 <= b <= 57
}

/// Every byte of the string is a decimal digit.
pub open spec fn all_digits(t: Seq<u8>) -> bool {
    forall|i: int| 0 <= i < t.len() ==> is_digit(#[trigger] t[i])
}

/// The number a digit string denotes, most significant digit first.
pub open spec fn digits_value(t: Seq<u8>) -> int
    recommends
        all_digits(t),
    decreases t.len(),
{
    if t.len() == 0 {
        0
    } else {
        digits_value(t.drop_last()) * 10 + (t.last() - 48)
    }
}

/// A digit string's value is never negative.
pub proof fn lemma_digits_value_nonneg(t: Seq<u8>)
    requires
        all_digits(t),
    ensures
        digits_value(t) >= 0,
    decreases t.len(),
{
    if t.len() > 0 {
        assert(all_digits(t.drop_last()));
        lemma_digits_value_nonneg(t.drop_last());
    }
}

/// Dropping trailing digits never increases a digit string's value.
pub proof fn lemma_digits_value_prefix(t: Seq<u8>, k: int)
    requires
        all_digits(t),
        0 <= k <= t.len(),
    ensures
        digits_value(t.take(k)) <= digits_value(t),
    decreases t.len(),
{
    if k < t.len() {
        assert(all_digits(t.drop_last()));
        assert(t.drop_last().take(k) =~= t.take(k));
        lemma_digits_value_prefix(t.drop_last(), k);
        lemma_digits_value_nonneg(t.drop_last());
    } else {
        assert(t.take(k) =~= t);
    }
}

/// A token `u8::from_str` accepts: an optional leading `+`, then at least
/// one decimal digit. (The value may still overflow a `u8`.)
pub open spec fn numeric_token(t: Seq<u8>) -> bool {
    if t.len() > 0 && t[0] == 43 {
        t.len() >= 2 && all_digits(t.skip(1))
    } else {
        t.len() >= 1 && all_digits(t)
    }
}

/// The number a numeric token denotes.
pub open spec fn token_value(t: Seq<u8>) -> int
    recommends
        numeric_token(t),
{
    if t.len() > 0 && t[0] == 43 {
        digits_value(t.skip(1))
    } else {
        digits_value(t)
    }
}

/// Why a byte token is rejected, if it is: not a number `u8::from_str`
/// returns (including a value over 255), or a number too large for a MIX
/// byte.
pub open spec fn byte_token_fault(t: Seq<u8>) -> Option<ParseFault> {
    if !numeric_token(t) || token_value(t) > 255 {
        Some(ParseFault::NotANumber)
    } else if token_value(t) > 63 {
        Some(ParseFault::ByteTooBig)
    } else {
        None
    }
}

/// Parse the byte token at `bytes[start..end]` as `u8::from_str` would,
/// then bound it by the largest MIX byte.
fn parse_byte_token(bytes: &[u8], start: usize, end: usize) -> (res: Result<u8, ParseError>)
    requires
        start <= end <= bytes@.len(),
    ensures
        ({
            let t = bytes@.subrange(start as int, end as int);
            match byte_token_fault(t) {
                None => res matches Ok(b) && b as int == token_value(t) && b <= 63,
                Some(flt) => res matches Err(e) && e.message@ == fault_message(flt),
            }
        }),
{
    let ghost t = bytes@.subrange(start as int, end as int);
    let mut i = start;
    if i < end && bytes[i] == 43 {
        i = i + 1;
    }
    let ghost d0 = i as int;
    let ghost digits = bytes@.subrange(d0, end as int);
    proof {
        if d0 > start {
            assert(t.skip(1) =~= digits);
        } else {
            assert(t =~= digits);
        }
    }
    if i == end {
        // the token is empty or a bare sign: no digits at all
        return Err(
            ParseError { message: "Invalid byte token. Byte must be a small nonnegative number." },
        );
    }
    let mut acc: u32 = 0;
    while i < end
        invariant
            start <= d0 <= i <= end,
            end <= bytes@.len(),
            t == bytes@.subrange(start as int, end as int),
            digits == bytes@.subrange(d0, end as int),
            d0 > start ==> d0 == start + 1 && t.len() > 0 && t[0] == 43 && t.skip(1) == digits,
            d0 == start ==> t == digits && t[0] != 43,
            d0 < end,
            forall|j: int| d0 <= j < i ==> is_digit(#[trigger] bytes@[j]),
            acc as int == digits_value(bytes@.subrange(d0, i as int)),
            acc <= 255,
        decreases end - i,
    {
        let b = bytes[i];
        if b < 48 || b > 57 {
            proof {
                assert(!is_digit(digits[i - d0]));
                assert(!all_digits(digits));
            }
            return Err(
                ParseError {
                    message: "Invalid byte token. Byte must be a small nonnegative number.",
                },
            );
        }
        proof {
            let pre = bytes@.subrange(d0, i as int);
            let cur = bytes@.subrange(d0, i as int + 1);
            assert(cur.drop_last() =~= pre);
            assert(cur.last() == bytes@[i as int]);
        }
        acc = acc * 10 + (b - 48) as u32;
        if acc > 255 {
            proof {
                let cur = bytes@.subrange(d0, i as int + 1);
                if all_digits(digits) {
                    assert(digits.take(i + 1 - d0) =~= cur);
                    lemma_digits_value_prefix(digits, i + 1 - d0);
                    assert(token_value(t) > 255);
                }
            }
            return Err(
                ParseError {
                    message: "Invalid byte token. Byte must be a small nonnegative number.",
                },
            );
        }
        i = i + 1;
    }
    proof {
        assert(digits =~= bytes@.subrange(d0, end as int));
        assert(all_digits(digits));
        assert(numeric_token(t));
        assert(token_value(t) == acc as int);
    }
    if acc > MIX_BYTE_MAX as u32 {
        return Err(ParseError { message: "Invalid byte token. Byte must fit into a MIX byte." });
    }
    Ok(acc as u8)
}

/// Why a whole dump line is rejected, if it is: the first failing check
/// among token count, sign token, and the five byte tokens in order.
pub open spec fn spec_parse_fault(s: Seq<u8>) -> Option<ParseFault> {
    let toks = spec_tokens(s);
    if toks.len() < 6 {
        Some(ParseFault::TooFew)
    } else if toks.len() > 6 {
        Some(ParseFault::TooMany)
    } else if !(toks[0] == seq![43u8] || toks[0] == seq![45u8]) {
        Some(ParseFault::BadSign)
    } else if byte_token_fault(toks[1]) is Some {
        byte_token_fault(toks[1])
    } else if byte_token_fault(toks[2]) is Some {
        byte_token_fault(toks[2])
    } else if byte_token_fault(toks[3]) is Some {
        byte_token_fault(toks[3])
    } else if byte_token_fault(toks[4]) is Some {
        byte_token_fault(toks[4])
    } else {
        byte_token_fault(toks[5])
    }
}

/// The word a fault-free dump line denotes: the sign bit from the sign
/// token, the five byte values packed most significant first.
pub open spec fn spec_parse_value(s: Seq<u8>) -> MixWord
    recommends
        spec_parse_fault(s) is None,
{
    let toks = spec_tokens(s);
    let sign: int = if toks[0] == seq![45u8] {
        1
    } else {
        0
    };
    (sign * 0x4000_0000 + token_value(toks[1]) * 0x1000000 + token_value(toks[2]) * 0x40000
        + token_value(toks[3]) * 0x1000 + token_value(toks[4]) * 64 + token_value(
        toks[5],
    )) as MixWord
}

/// Parse one dump line, given as bytes.
fn parse_word_bytes(bytes: &[u8]) -> (res: Result<MixWord, ParseError>)
    ensures
        match spec_parse_fault(bytes@) {
            None => res == Ok::<MixWord, ParseError>(spec_parse_value(bytes@)),
            Some(flt) => res matches Err(e) && e.message@ == fault_message(flt),
        },
{
    let toks = tokenize(bytes);
    let ghost stoks = spec_tokens(bytes@);
    if toks.len() < 6 {
        return Err(ParseError { message: "Too few tokens! MIX words have 5 bytes and a sign." });
    }
    if toks.len() > 6 {
        return Err(ParseError { message: "Too many tokens! MIX words have 5 bytes and a sign." });
    }
    let (s0, e0) = toks[0];
    proof {
        assert(stoks[0] == bytes@.subrange(s0 as int, e0 as int));
    }
    let sign: u8;
    if e0 - s0 == 1 && bytes[s0] == 43 {
        sign = 0;
        proof {
            assert(stoks[0] =~= seq![43u8]);
        }
    } else if e0 - s0 == 1 && bytes[s0] == 45 {
        sign = 1;
        proof {
            assert(stoks[0] =~= seq![45u8]);
        }
    } else {
        proof {
            if stoks[0] == seq![43u8] || stoks[0] == seq![45u8] {
                let t0 = bytes@.subrange(s0 as int, e0 as int);
                assert(t0.len() == 1);
                assert(t0[0] == bytes@[s0 as int]);
                assert(seq![43u8][0] == 43u8);
                assert(seq![45u8][0] == 45u8);
                assert(e0 - s0 == 1 && (bytes@[s0 as int] == 43 || bytes@[s0 as int] == 45));
            }
        }
        return Err(ParseError { message: "Invalid sign. Sign must be '+' or '-'" });
    }
    proof {
        assert(seq![43u8][0] == 43u8);
        assert(seq![45u8][0] == 45u8);
        assert(stoks[0] != seq![43u8] || stoks[0] != seq![45u8]);
        assert(token_views(bytes@, toks@)[1] == bytes@.subrange(
            toks@[1].0 as int,
            toks@[1].1 as int,
        ));
        assert(token_views(bytes@, toks@)[2] == bytes@.subrange(
            toks@[2].0 as int,
            toks@[2].1 as int,
        ));
        assert(token_views(bytes@, toks@)[3] == bytes@.subrange(
            toks@[3].0 as int,
            toks@[3].1 as int,
        ));
        assert(token_views(bytes@, toks@)[4] == bytes@.subrange(
            toks@[4].0 as int,
            toks@[4].1 as int,
        ));
        assert(token_views(bytes@, toks@)[5] == bytes@.subrange(
            toks@[5].0 as int,
            toks@[5].1 as int,
        ));
    }
    let (s1, e1) = toks[1];
    let b1 = match parse_byte_token(bytes, s1, e1) {
        Ok(b) => b,
        Err(e) => {
            return Err(e);
        },
    };
    let (s2, e2) = toks[2];
    let b2 = match parse_byte_token(bytes, s2, e2) {
        Ok(b) => b,
        Err(e) => {
            return Err(e);
        },
    };
    let (s3, e3) = toks[3];
    let b3 = match parse_byte_token(bytes, s3, e3) {
        Ok(b) => b,
        Err(e) => {
            return Err(e);
        },
    };
    let (s4, e4) = toks[4];
    let b4 = match parse_byte_token(bytes, s4, e4) {
        Ok(b) => b,
        Err(e) => {
            return Err(e);
        },
    };
    let (s5, e5) = toks[5];
    let b5 = match parse_byte_token(bytes, s5, e5) {
        Ok(b) => b,
        Err(e) => {
            return Err(e);
        },
    };
    let w = crate::mix_util::word_from_bytes(sign, b1, b2, b3, b4, b5);
    proof {
        assert(spec_parse_fault(bytes@) is None);
        let sv: int = if stoks[0] == seq![45u8] {
            1
        } else {
            0
        };
        assert(sv == sign as int);
        assert(w as int == sv * 0x4000_0000 + token_value(stoks[1]) * 0x1000000 + token_value(
            stoks[2],
        ) * 0x40000 + token_value(stoks[3]) * 0x1000 + token_value(stoks[4]) * 64 + token_value(
            stoks[5],
        ));
        assert(w == spec_parse_value(bytes@));
    }
    Ok(w)
}

/// Parse a line of the form `fmt_word` returns into a word: a `+` or `-`
/// sign token, then five byte tokens in 0..=63, separated by ASCII
/// whitespace.
pub fn parse_word(s: &str) -> (res: Result<MixWord, ParseError>)
    ensures
        match spec_parse_fault(s.spec_bytes()) {
            None => res == Ok::<MixWord, ParseError>(spec_parse_value(s.spec_bytes())),
            Some(flt) => res matches Err(e) && e.message@ == fault_message(flt),
        },
{
    parse_word_bytes(s.as_bytes())
}

/// The line at the head of a byte string: everything before the first line
/// feed.
pub open spec fn line_at(s: Seq<u8>) -> Seq<u8>
    decreases s.len(),
{
    if s.len() == 0 || s[0] == 10 {
        Seq::empty()
    } else {
        seq![s[0]] + line_at(s.drop_first())
    }
}

/// The head line is never longer than the string.
pub proof fn lemma_line_at_len(s: Seq<u8>)
    ensures
        line_at(s).len() <= s.len(),
    decreases s.len(),
{
    if s.len() > 0 && s[0] != 10 {
        lemma_line_at_len(s.drop_first());
    }
}

/// When the first `k` bytes are not line feeds and the string ends or has
/// a line feed right after them, the head line is exactly those `k` bytes.
pub proof fn lemma_line_at_prefix(s: Seq<u8>, k: int)
    requires
        0 <= k <= s.len(),
        forall|j: int| 0 <= j < k ==> #[trigger] s[j] != 10,
        k == s.len() || s[k] == 10,
    ensures
        line_at(s) == s.take(k),
    decreases k,
{
    if k == 0 {
        assert(line_at(s) =~= s.take(0));
    } else {
        lemma_line_at_prefix(s.drop_first(), k - 1);
        assert(line_at(s) == seq![s[0]] + line_at(s.drop_first()));
        assert(seq![s[0]] + s.drop_first().take(k - 1) =~= s.take(k));
    }
}

/// A line without its trailing carriage return, if it has one.
pub open spec fn strip_cr(l: Seq<u8>) -> Seq<u8> {
    if l.len() > 0 && l.last() == 13 {
        l.drop_last()
    } else {
        l
    }
}

/// The lines of a byte string: split at line feeds, each without a
/// trailing carriage return; an empty remainder after the last line feed
/// is no line.
pub open spec fn spec_lines(s: Seq<u8>) -> Seq<Seq<u8>>
    decreases s.len(),
    via spec_lines_decreases
{
    if s.len() == 0 {
        Seq::empty()
    } else {
        let l = line_at(s);
        if l.len() == s.len() {
            seq![strip_cr(l)]
        } else {
            seq![strip_cr(l)] + spec_lines(s.skip(l.len() as int + 1))
        }
    }
}

#[via_fn]
proof fn spec_lines_decreases(s: Seq<u8>) {
    if s.len() > 0 {
        lemma_line_at_len(s);
    }
}

/// The little-endian byte string a fault-free dump denotes, or the fault
/// of its first malformed line.
pub open spec fn spec_parse_lines(ls: Seq<Seq<u8>>) -> Result<Seq<u8>, ParseFault>
    decreases ls.len(),
{
    if ls.len() == 0 {
        Ok(Seq::empty())
    } else {
        match spec_parse_fault(ls[0]) {
            Some(f) => Err(f),
            None => match spec_parse_lines(ls.drop_first()) {
                Ok(rest) => Ok(le32_bytes(spec_parse_value(ls[0])) + rest),
                Err(f) => Err(f),
            },
        }
    }
}

/// Read a whole dump listing: parse every line with `parse_word` and
/// concatenate the words' little-endian bytes, or report the first
/// malformed line without loading anything.
pub fn parse_words(in_words: &String) -> (res: Result<Vec<u8>, ParseError>)
    ensures
        match spec_parse_lines(spec_lines(encode_utf8(in_words@))) {
            Ok(bs) => res matches Ok(v) && v@ == bs,
            Err(f) => res matches Err(e) && e.message@ == fault_message(f),
        },
{
    let bytes: &[u8] = in_words.as_str().as_bytes();
    let n = bytes.len();
    let mut out: Vec<u8> = Vec::new();
    let mut i: usize = 0;
    proof {
        assert(bytes@.skip(0) =~= bytes@);
        assert(out@ + spec_parse_lines(spec_lines(bytes@)).unwrap() =~= spec_parse_lines(
            spec_lines(bytes@),
        ).unwrap()) by {
            if spec_parse_lines(spec_lines(bytes@)) is Ok {
            }
        }
    }
    while i < n
        invariant
            i <= n,
            n == bytes@.len(),
            bytes@ == encode_utf8(in_words@),
            match spec_parse_lines(spec_lines(bytes@.skip(i as int))) {
                Ok(rest) => spec_parse_lines(spec_lines(bytes@)) == Ok::<Seq<u8>, ParseFault>(
                    out@ + rest,
                ),
                Err(f) => spec_parse_lines(spec_lines(bytes@)) == Err::<Seq<u8>, ParseFault>(f),
            },
        decreases n - i,
    {
        let start = i;
        while i < n && bytes[i] != 10
            invariant
                start <= i <= n,
                n == bytes@.len(),
                forall|j: int| start <= j < i ==> #[trigger] bytes@[j] != 10,
            decreases n - i,
        {
            i = i + 1;
        }
        let line_end = if i > start && bytes[i - 1] == 13 {
            i - 1
        } else {
            i
        };
        let chunk: &[u8] = &bytes[start..line_end];
        proof {
            let suffix = bytes@.skip(start as int);
            let k = i - start;
            assert forall|j: int| 0 <= j < k implies #[trigger] suffix[j] != 10 by {
                assert(suffix[j] == bytes@[start + j]);
            }
            lemma_line_at_prefix(suffix, k as int);
            assert(suffix.take(k as int) =~= bytes@.subrange(start as int, i as int));
            assert(chunk@ =~= strip_cr(line_at(suffix)));
            let rest_lines = if k == suffix.len() {
                Seq::<Seq<u8>>::empty()
            } else {
                spec_lines(bytes@.skip(i as int + 1))
            };
            if k < suffix.len() {
                assert(suffix.skip(k + 1) =~= bytes@.skip(i as int + 1));
            }
            assert(spec_lines(suffix) =~= seq![chunk@] + rest_lines);
            assert((seq![chunk@] + rest_lines).drop_first() =~= rest_lines);
            assert((seq![chunk@] + rest_lines)[0] == chunk@);
        }
        let w = match parse_word_bytes(chunk) {
            Ok(w) => w,
            Err(e) => {
                return Err(e);
            },
        };
        let ghost out_prev = out@;
        let arr = u32to8s(w);
        out.push(arr[0]);
        out.push(arr[1]);
        out.push(arr[2]);
        out.push(arr[3]);
        proof {
            assert(out@ =~= out_prev + le32_bytes(w));
        }
        if i < n {
            i = i + 1;
            proof {
                if spec_parse_lines(spec_lines(bytes@.skip(i as int))) is Ok {
                    let rest = spec_parse_lines(spec_lines(bytes@.skip(i as int))).unwrap();
                    assert(out_prev + (le32_bytes(w) + rest) =~= out@ + rest);
                }
            }
        } else {
            proof {
                assert(spec_lines(bytes@.skip(i as int)) =~= Seq::<Seq<u8>>::empty());
                assert(out_prev + (le32_bytes(w) + Seq::<u8>::empty()) =~= out@
                    + Seq::<u8>::empty());
            }
        }
    }
    proof {
        assert(spec_lines(bytes@.skip(i as int)) =~= Seq::<Seq<u8>>::empty());
        if spec_parse_lines(spec_lines(bytes@)) is Ok {
            let total = spec_parse_lines(spec_lines(bytes@)).unwrap();
            assert(out@ + Seq::<u8>::empty() =~= out@);
        }
    }
    Ok(out)
}

} // verus!
