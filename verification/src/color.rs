//! Route colours, written `RRGGBB` or `#RRGGBB` in hexadecimal.

use vstd::prelude::*;
use vstd::string::StringSliceAdditionalSpecFns;
use vstd::utf8::is_continuation_byte;

verus! {

/// The value of an ASCII hexadecimal digit (either case), if `b` is one.
pub open spec fn hex_digit_value(b: u8) -> Option<u8> {
    if 0x30 <= b <= 0x39 {
        Some((b - 0x30) as u8)
    } else if 0x61 <= b <= 0x66 {
        Some((b - 0x61 + 10) as u8)
    } else if 0x41 <= b <= 0x46 {
        Some((b - 0x41 + 10) as u8)
    } else {
        None
    }
}

/// The byte a two-byte piece `b0 b1` reads as in base 16: an optional `+`
/// sign followed by digits, as `u8::from_str_radix(_, 16)` reads it.
pub open spec fn hex_pair(b0: u8, b1: u8) -> Option<u8> {
    if b0 == 0x2b {
        hex_digit_value(b1)
    } else {
        match (hex_digit_value(b0), hex_digit_value(b1)) {
            (Some(h), Some(l)) => Some((16 * h + l) as u8),
            _ => None,
        }
    }
}

/// The bytes of a colour after one leading `#` is dropped.
pub open spec fn color_digits(bytes: Seq<u8>) -> Seq<u8> {
    if bytes.len() > 0 && bytes[0] == 0x23 {
        bytes.drop_first()
    } else {
        bytes
    }
}

/// The red, green and blue components written in `bytes`, if it holds six
/// base-16 digit pairs after an optional `#`.
pub open spec fn hex_color(bytes: Seq<u8>) -> Option<Seq<u8>> {
    let d = color_digits(bytes);
    if d.len() != 6 {
        None
    } else {
        match (hex_pair(d[0], d[1]), hex_pair(d[2], d[3]), hex_pair(d[4], d[5])) {
            (Some(r), Some(g), Some(b)) => Some(seq![r, g, b]),
            _ => None,
        }
    }
}

/// Reading a six-byte colour pair by pair cuts the text inside a character:
/// at the third byte, or, once the first pair has been read, at the fifth.
pub open spec fn hex_color_cuts_char(bytes: Seq<u8>) -> bool {
    let d = color_digits(bytes);
    &&& d.len() == 6
    &&& (is_continuation_byte(d[2]) || (hex_pair(d[0], d[1]) is Some && is_continuation_byte(
        d[4],
    )))
}

fn hex_digit(b: u8) -> (v: Option<u8>)
    ensures
        v == hex_digit_value(b),
{
    if 0x30 <= b && b <= 0x39 {
        Some(b - 0x30)
    } else if 0x61 <= b && b <= 0x66 {
        Some(b - 0x61 + 10)
    } else if 0x41 <= b && b <= 0x46 {
        Some(b - 0x41 + 10)
    } else {
        None
    }
}

fn parse_pair(b0: u8, b1: u8) -> (v: Option<u8>)
    ensures
        v == hex_pair(b0, b1),
{
    if b0 == 0x2b {
        hex_digit(b1)
    } else {
        match (hex_digit(b0), hex_digit(b1)) {
            (Some(h), Some(l)) => Some(16 * h + l),
            _ => None,
        }
    }
}

/// Whether reading `s` as a colour would cut it inside a character.
pub fn color_cuts_char(s: &str) -> (cuts: bool)
    ensures
        cuts == hex_color_cuts_char(s.spec_bytes()),
{
    let b = s.as_bytes();
    let start: usize = if b.len() > 0 && b[0] == 0x23 { 1 } else { 0 };
    proof {
        assert(color_digits(b@) =~= b@.subrange(start as int, b@.len() as int));
    }
    if b.len() - start != 6 {
        return false;
    }
    0x80 <= b[start + 2] && b[start + 2] <= 0xbf || (parse_pair(b[start], b[start + 1]).is_some()
        && 0x80 <= b[start + 4] && b[start + 4] <= 0xbf)
}

/// Parses a colour written as six hexadecimal digits, with or without a
/// leading `#`, into its red, green and blue bytes.
pub fn parse_hex_color(s: &str) -> (color: Option<[u8; 3]>)
    requires
        !hex_color_cuts_char(s.spec_bytes()),
    ensures
        match color {
            Some(c) => hex_color(s.spec_bytes()) == Some(c@),
            None => hex_color(s.spec_bytes()) is None,
        },
{
    let b = s.as_bytes();
    let start: usize = if b.len() > 0 && b[0] == 0x23 { 1 } else { 0 };
    proof {
        assert(color_digits(b@) =~= b@.subrange(start as int, b@.len() as int));
    }
    if b.len() - start != 6 {
        return None;
    }
    let r = match parse_pair(b[start], b[start + 1]) {
        Some(v) => v,
        None => return None,
    };
    let g = match parse_pair(b[start + 2], b[start + 3]) {
        Some(v) => v,
        None => return None,
    };
    let bl = match parse_pair(b[start + 4], b[start + 5]) {
        Some(v) => v,
        None => return None,
    };
    let c = [r, g, bl];
    proof {
        assert(c@ =~= seq![r, g, bl]);
    }
    Some(c)
}

} // verus!

verus! {

/// The lowercase hexadecimal digit (`0`-`9`, `a`-`f`) of `v`, for `v < 16`.
pub open spec fn lower_hex_digit(v: int) -> u8 {
    if v < 10 {
        (0x30 + v) as u8
    } else {
        (0x61 + v - 10) as u8
    }
}

/// The uppercase hexadecimal digit (`0`-`9`, `A`-`F`) of `v`, for `v < 16`.
pub open spec fn upper_hex_digit(v: int) -> u8 {
    if v < 10 {
        (0x30 + v) as u8
    } else {
        (0x41 + v - 10) as u8
    }
}

/// The colour `r g b` written as six hexadecimal digits, in lowercase or in
/// uppercase.
pub open spec fn hex_text(r: u8, g: u8, b: u8, upper: bool) -> Seq<u8> {
    let digit = |v: int| if upper { upper_hex_digit(v) } else { lower_hex_digit(v) };
    seq![
        digit((r / 16) as int),
        digit((r % 16) as int),
        digit((g / 16) as int),
        digit((g % 16) as int),
        digit((b / 16) as int),
        digit((b % 16) as int),
    ]
}

proof fn lemma_digit_reads_back(v: int, upper: bool)
    requires
        0 <= v < 16,
    ensures
        hex_digit_value(if upper { upper_hex_digit(v) } else { lower_hex_digit(v) }) == Some(
            v as u8,
        ),
        (if upper { upper_hex_digit(v) } else { lower_hex_digit(v) }) != 0x2b,
        (if upper { upper_hex_digit(v) } else { lower_hex_digit(v) }) != 0x23,
        !is_continuation_byte(if upper { upper_hex_digit(v) } else { lower_hex_digit(v) }),
{
}

proof fn lemma_pair_reads_back(x: u8, upper: bool)
    ensures
        hex_pair(
            if upper { upper_hex_digit((x / 16) as int) } else { lower_hex_digit((x / 16) as int) },
            if upper { upper_hex_digit((x % 16) as int) } else { lower_hex_digit((x % 16) as int) },
        ) == Some(x),
{
    lemma_digit_reads_back((x / 16) as int, upper);
    lemma_digit_reads_back((x % 16) as int, upper);
    assert(16 * ((x / 16) as int) + (x % 16) as int == x);
}

/// Every colour written as six hexadecimal digits, in either case and with
/// or without a leading `#`, reads back as its red, green and blue bytes, and
/// reading it cuts no character.
pub proof fn lemma_hex_color_reads_written_color(r: u8, g: u8, b: u8, upper: bool)
    ensures
        hex_color(hex_text(r, g, b, upper)) == Some(seq![r, g, b]),
        hex_color(seq![0x23u8] + hex_text(r, g, b, upper)) == Some(seq![r, g, b]),
        !hex_color_cuts_char(hex_text(r, g, b, upper)),
        !hex_color_cuts_char(seq![0x23u8] + hex_text(r, g, b, upper)),
{
    let t = hex_text(r, g, b, upper);
    lemma_pair_reads_back(r, upper);
    lemma_pair_reads_back(g, upper);
    lemma_pair_reads_back(b, upper);
    lemma_digit_reads_back((r / 16) as int, upper);
    lemma_digit_reads_back((g / 16) as int, upper);
    lemma_digit_reads_back((b / 16) as int, upper);
    assert(color_digits(t) == t);
    assert((seq![0x23u8] + t).drop_first() =~= t);
    assert(color_digits(seq![0x23u8] + t) == t);
}

} // verus!
