//! Formatting of memory contents as the human-readable dump listing: one
//! line per word, `<sign> <b1> <b2> <b3> <b4> <b5>`, each byte printed as a
//! decimal number right-aligned in two columns.

use vstd::prelude::*;

verus! {

use vstd::string::StringExecFns;
use crate::arch_util::{le32_val, u8sto32};
use crate::mix_types::MixWord;
use crate::mix_util::{get_bytes, lemma_pow64_vals, spec_get_bytes};

/// The decimal digit character for a value in 0..=9.
pub open spec fn digit_char(d: int) -> char
    recommends
        0 <= d <= 9,
{
    if d == 0 {
        '0'
    } else if d == 1 {
        '1'
    } else if d == 2 {
        '2'
    } else if d == 3 {
        '3'
    } else if d == 4 {
        '4'
    } else if d == 5 {
        '5'
    } else if d == 6 {
        '6'
    } else if d == 7 {
        '7'
    } else if d == 8 {
        '8'
    } else {
        '9'
    }
}

/// A byte value in two columns: a leading blank for one-digit values, two
/// digits otherwise.
pub open spec fn two_digit_chars(b: int) -> Seq<char>
    recommends
        0 <= b < 64,
{
    if b < 10 {
        seq![' ', digit_char(b)]
    } else {
        seq![digit_char(b / 10), digit_char(b % 10)]
    }
}

/// One dump line for a word, without the line break: a blank, the sign,
/// then the five bytes, each two columns wide and blank-separated.
pub open spec fn spec_fmt_word(w: MixWord) -> Seq<char> {
    seq![
        ' ',
        if spec_get_bytes(w, 0, 0) != 0 {
            '-'
        } else {
            '+'
        },
        ' ',
    ] + two_digit_chars(spec_get_bytes(w, 1, 1)) + seq![' ']
        + two_digit_chars(spec_get_bytes(w, 2, 2)) + seq![' ']
        + two_digit_chars(spec_get_bytes(w, 3, 3)) + seq![' ']
        + two_digit_chars(spec_get_bytes(w, 4, 4)) + seq![' ']
        + two_digit_chars(spec_get_bytes(w, 5, 5))
}

/// The whole dump: one line with a trailing line break for each full
/// little-endian word of the byte string; left-over bytes are dropped.
pub open spec fn spec_fmt_words(bytes: Seq<u8>) -> Seq<char>
    decreases bytes.len(),
{
    if bytes.len() < 4 {
        Seq::empty()
    } else {
        spec_fmt_word(le32_val(bytes.take(4)) as MixWord) + seq!['\n'] + spec_fmt_words(
            bytes.skip(4),
        )
    }
}

/// Append one decimal digit.
fn push_digit(out: &mut String, d: u32)
    requires
        d <= 9,
    ensures
        final(out)@ == old(out)@ + seq![digit_char(d as int)],
{
    if d == 0 {
        proof {
            reveal_strlit("0");
        }
        out.append("0");
    } else if d == 1 {
        proof {
            reveal_strlit("1");
        }
        out.append("1");
    } else if d == 2 {
        proof {
            reveal_strlit("2");
        }
        out.append("2");
    } else if d == 3 {
        proof {
            reveal_strlit("3");
        }
        out.append("3");
    } else if d == 4 {
        proof {
            reveal_strlit("4");
        }
        out.append("4");
    } else if d == 5 {
        proof {
            reveal_strlit("5");
        }
        out.append("5");
    } else if d == 6 {
        proof {
            reveal_strlit("6");
        }
        out.append("6");
    } else if d == 7 {
        proof {
            reveal_strlit("7");
        }
        out.append("7");
    } else if d == 8 {
        proof {
            reveal_strlit("8");
        }
        out.append("8");
    } else {
        proof {
            reveal_strlit("9");
        }
        out.append("9");
    }
    proof {
        assert(final(out)@ =~= old(out)@ + seq![digit_char(d as int)]);
    }
}

/// Append a byte value in two columns.
fn push_two_digits(out: &mut String, b: u32)
    requires
        b < 64,
    ensures
        final(out)@ == old(out)@ + two_digit_chars(b as int),
{
    if b < 10 {
        proof {
            reveal_strlit(" ");
        }
        out.append(" ");
        push_digit(out, b);
    } else {
        push_digit(out, b / 10);
        push_digit(out, b % 10);
    }
    proof {
        assert(final(out)@ =~= old(out)@ + two_digit_chars(b as int));
    }
}

/// Format one word as its dump line, without the line break.
pub fn fmt_word(w: MixWord) -> (r: String)
    ensures
        r@ == spec_fmt_word(w),
{
    proof {
        lemma_pow64_vals();
        reveal_strlit(" ");
        reveal_strlit("+");
        reveal_strlit("-");
    }
    let mut out = String::new();
    out.append(" ");
    if get_bytes(w, 0, 0) != 0 {
        out.append("-");
    } else {
        out.append("+");
    }
    out.append(" ");
    push_two_digits(&mut out, get_bytes(w, 1, 1));
    out.append(" ");
    push_two_digits(&mut out, get_bytes(w, 2, 2));
    out.append(" ");
    push_two_digits(&mut out, get_bytes(w, 3, 3));
    out.append(" ");
    push_two_digits(&mut out, get_bytes(w, 4, 4));
    out.append(" ");
    push_two_digits(&mut out, get_bytes(w, 5, 5));
    proof {
        assert(out@ =~= spec_fmt_word(w));
    }
    out
}

/// Format a raw byte string as the row-by-row dump listing of its words.
pub fn fmt_words(in_bytes: &Vec<u8>) -> (r: String)
    ensures
        r@ == spec_fmt_words(in_bytes@),
{
    let mut ix: usize = 0;
    let mut fmt_str = String::new();
    proof {
        assert(in_bytes@.skip(0) =~= in_bytes@);
        assert(fmt_str@ + spec_fmt_words(in_bytes@) =~= spec_fmt_words(in_bytes@));
    }
    while in_bytes.len() - ix > 3
        invariant
            ix <= in_bytes@.len(),
            fmt_str@ + spec_fmt_words(in_bytes@.skip(ix as int)) == spec_fmt_words(in_bytes@),
        decreases in_bytes@.len() - ix,
    {
        let ghost prev = fmt_str@;
        let chunk: &[u8] = &in_bytes.as_slice()[ix..ix + 4];
        let w = u8sto32(chunk);
        let word_str = fmt_word(w);
        fmt_str.append(word_str.as_str());
        fmt_str.append("\n");
        proof {
            reveal_strlit("\n");
            let suffix = in_bytes@.skip(ix as int);
            assert(chunk@ =~= suffix.take(4));
            assert(suffix.skip(4) =~= in_bytes@.skip(ix as int + 4));
            assert(le32_val(suffix.take(4)) as MixWord == w);
            assert(spec_fmt_words(suffix) == spec_fmt_word(le32_val(suffix.take(4)) as MixWord)
                + seq!['\n'] + spec_fmt_words(suffix.skip(4)));
            assert(fmt_str@ + spec_fmt_words(in_bytes@.skip(ix as int + 4)) =~= prev
                + spec_fmt_words(suffix));
        }
        ix = ix + 4;
    }
    proof {
        assert(in_bytes@.skip(ix as int).len() < 4);
        assert(fmt_str@ =~= fmt_str@ + spec_fmt_words(in_bytes@.skip(ix as int)));
    }
    fmt_str
}

} // verus!
