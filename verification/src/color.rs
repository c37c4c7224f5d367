//! The `#RRGGBB` color codec used by LRX part and document colors.

use vstd::prelude::*;
use vstd::string::StrSliceExecFns;

verus! {

/// A color as three 8-bit channels, the value of an `#RRGGBB` tag.
#[derive(Clone, Copy, Debug, PartialEq, Eq, Structural)]
pub struct Rgb {
    pub r: u8,
    pub g: u8,
    pub b: u8,
}

/// Whether `c` is a hexadecimal digit, upper or lower case.
pub open spec fn is_hex_digit(c: char) -> bool {
    ('0' as u32 <= c as u32 && c as u32 <= '9' as u32)
    || ('a' as u32 <= c as u32 && c as u32 <= 'f' as u32)
    || ('A' as u32 <= c as u32 && c as u32 <= 'F' as u32)
}

/// The numeric value of a hexadecimal digit.
pub open spec fn hex_val(c: char) -> int
    recommends
        is_hex_digit(c),
{
    if '0' as u32 <= c as u32 && c as u32 <= '9' as u32 {
        c as u32 - '0' as u32
    } else if 'a' as u32 <= c as u32 && c as u32 <= 'f' as u32 {
        c as u32 - 'a' as u32 + 10
    } else {
        c as u32 - 'A' as u32 + 10
    }
}

/// The upper-case hexadecimal digit with value `n`.
pub open spec fn hex_digit_char(n: u32) -> char
    recommends
        n < 16,
{
    if n == 0 { '0' } else if n == 1 { '1' } else if n == 2 { '2' }
    else if n == 3 { '3' } else if n == 4 { '4' } else if n == 5 { '5' }
    else if n == 6 { '6' } else if n == 7 { '7' } else if n == 8 { '8' }
    else if n == 9 { '9' } else if n == 10 { 'A' } else if n == 11 { 'B' }
    else if n == 12 { 'C' } else if n == 13 { 'D' } else if n == 14 { 'E' }
    else { 'F' }
}

/// The two-digit upper-case hexadecimal form of a byte.
pub open spec fn hex_byte(v: u8) -> Seq<char> {
    seq![hex_digit_char(v as u32 / 16), hex_digit_char(v as u32 % 16)]
}

/// What parsing a color string yields: `Some` exactly for `#` followed by six
/// hexadecimal digits, the channels read as two digits each.
pub open spec fn spec_parse_color(s: Seq<char>) -> Option<Rgb> {
    if s.len() == 7 && s[0] == '#'
        && is_hex_digit(s[1]) && is_hex_digit(s[2])
        && is_hex_digit(s[3]) && is_hex_digit(s[4])
        && is_hex_digit(s[5]) && is_hex_digit(s[6]) {
        Some(Rgb {
            r: (hex_val(s[1]) * 16 + hex_val(s[2])) as u8,
            g: (hex_val(s[3]) * 16 + hex_val(s[4])) as u8,
            b: (hex_val(s[5]) * 16 + hex_val(s[6])) as u8,
        })
    } else {
        None
    }
}

/// The canonical `#RRGGBB` form of a color, upper-case digits.
pub open spec fn spec_format_color(c: Rgb) -> Seq<char> {
    seq!['#'] + hex_byte(c.r) + hex_byte(c.g) + hex_byte(c.b)
}

/// Exec test for a hexadecimal digit.
pub fn is_hex_digit_exec(c: char) -> (r: bool)
    ensures
        r == is_hex_digit(c),
{
    let u = c as u32;
    ('0' as u32 <= u && u <= '9' as u32)
    || ('a' as u32 <= u && u <= 'f' as u32)
    || ('A' as u32 <= u && u <= 'F' as u32)
}

/// Exec value of a hexadecimal digit.
pub fn hex_val_exec(c: char) -> (r: u32)
    requires
        is_hex_digit(c),
    ensures
        r == hex_val(c),
        r < 16,
{
    let u = c as u32;
    if '0' as u32 <= u && u <= '9' as u32 {
        u - '0' as u32
    } else if 'a' as u32 <= u && u <= 'f' as u32 {
        u - 'a' as u32 + 10
    } else {
        u - 'A' as u32 + 10
    }
}

/// Exec upper-case hexadecimal digit for a value below 16.
pub fn hex_digit_char_exec(n: u32) -> (c: char)
    requires
        n < 16,
    ensures
        c == hex_digit_char(n),
{
    if n == 0 { '0' } else if n == 1 { '1' } else if n == 2 { '2' }
    else if n == 3 { '3' } else if n == 4 { '4' } else if n == 5 { '5' }
    else if n == 6 { '6' } else if n == 7 { '7' } else if n == 8 { '8' }
    else if n == 9 { '9' } else if n == 10 { 'A' } else if n == 11 { 'B' }
    else if n == 12 { 'C' } else if n == 13 { 'D' } else if n == 14 { 'E' }
    else { 'F' }
}

/// Parses an `#RRGGBB` color string. Rejects anything that is not a `#`
/// followed by exactly six hexadecimal digits.
pub fn parse_color(s: &str) -> (r: Option<Rgb>)
    ensures
        r == spec_parse_color(s@),
{
    let n = s.unicode_len();
    if n != 7 {
        return None;
    }
    if s.get_char(0) != '#' {
        return None;
    }
    let c1 = s.get_char(1);
    let c2 = s.get_char(2);
    let c3 = s.get_char(3);
    let c4 = s.get_char(4);
    let c5 = s.get_char(5);
    let c6 = s.get_char(6);
    if !(is_hex_digit_exec(c1) && is_hex_digit_exec(c2) && is_hex_digit_exec(c3)
        && is_hex_digit_exec(c4) && is_hex_digit_exec(c5) && is_hex_digit_exec(c6)) {
        return None;
    }
    let r = hex_val_exec(c1) * 16 + hex_val_exec(c2);
    let g = hex_val_exec(c3) * 16 + hex_val_exec(c4);
    let b = hex_val_exec(c5) * 16 + hex_val_exec(c6);
    Some(Rgb { r: r as u8, g: g as u8, b: b as u8 })
}

/// Parses an `#RRGGBB` color held in `v[from..to]`.
pub fn parse_color_chars(v: &Vec<char>, from: usize, to: usize) -> (r: Option<Rgb>)
    requires
        from <= to <= v@.len(),
    ensures
        r == spec_parse_color(v@.subrange(from as int, to as int)),
{
    let ghost s = v@.subrange(from as int, to as int);
    if to - from != 7 {
        return None;
    }
    if v[from] != '#' {
        assert(s[0] == v@[from as int]);
        return None;
    }
    assert(s[0] == '#');
    let c1 = v[from + 1];
    let c2 = v[from + 2];
    let c3 = v[from + 3];
    let c4 = v[from + 4];
    let c5 = v[from + 5];
    let c6 = v[from + 6];
    proof {
        assert(s[1] == c1 && s[2] == c2 && s[3] == c3 && s[4] == c4 && s[5] == c5 && s[6] == c6);
    }
    if !(is_hex_digit_exec(c1) && is_hex_digit_exec(c2) && is_hex_digit_exec(c3)
        && is_hex_digit_exec(c4) && is_hex_digit_exec(c5) && is_hex_digit_exec(c6)) {
        return None;
    }
    let r = hex_val_exec(c1) * 16 + hex_val_exec(c2);
    let g = hex_val_exec(c3) * 16 + hex_val_exec(c4);
    let b = hex_val_exec(c5) * 16 + hex_val_exec(c6);
    Some(Rgb { r: r as u8, g: g as u8, b: b as u8 })
}

/// Appends the two hexadecimal digits of `v` to `out`.
fn push_hex_byte(out: &mut Vec<char>, v: u8)
    ensures
        final(out)@ == old(out)@ + hex_byte(v),
{
    out.push(hex_digit_char_exec(v as u32 / 16));
    out.push(hex_digit_char_exec(v as u32 % 16));
    assert(out@ =~= old(out)@ + hex_byte(v));
}

/// Formats a color in its canonical `#RRGGBB` form, upper-case digits.
pub fn format_color(c: Rgb) -> (out: Vec<char>)
    ensures
        out@ == spec_format_color(c),
{
    let mut out: Vec<char> = Vec::new();
    out.push('#');
    push_hex_byte(&mut out, c.r);
    push_hex_byte(&mut out, c.g);
    push_hex_byte(&mut out, c.b);
    assert(out@ =~= spec_format_color(c));
    out
}

/// Formats a color as a `String` in its canonical `#RRGGBB` form.
pub fn serialize_color(c: Rgb) -> (out: String)
    ensures
        out@ == spec_format_color(c),
{
    let v = format_color(c);
    crate::strutil::chars_to_string(&v)
}

/// A formatted color always parses back to the color it came from.
pub proof fn lemma_color_round_trip(c: Rgb)
    ensures
        spec_parse_color(spec_format_color(c)) == Some(c),
{
    let s = spec_format_color(c);
    assert(s.len() == 7);
    assert(hex_val(s[1]) == c.r as u32 / 16 && hex_val(s[2]) == c.r as u32 % 16);
    assert(hex_val(s[3]) == c.g as u32 / 16 && hex_val(s[4]) == c.g as u32 % 16);
    assert(hex_val(s[5]) == c.b as u32 / 16 && hex_val(s[6]) == c.b as u32 % 16);
}

} // verus!
