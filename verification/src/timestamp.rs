//! Timestamps of the `mm:ss.cc` form, held as centiseconds.

use vstd::prelude::*;
use crate::numfmt::{
    all_dec_digits, dec_value, spec_dec_digits, spec_pad2, spec_parse_u64,
    format_u64, format_pad2, parse_u64_digits, is_dec_digit,
    lemma_dec_digits_are_digits, lemma_dec_digits_value, lemma_pad2_value,
};
use crate::scan::{spec_find, find_char, lemma_spec_find, lemma_find_is, lemma_find_none};
use crate::strutil::{str_to_chars, chars_to_string, push_chars};

verus! {

/// What parsing a timestamp yields, in centiseconds: the string must be
/// `minutes ":" seconds` with an optional `"." cc` fraction of one or two
/// digits, minutes and seconds both non-empty digit runs, and the total must
/// fit in a `u64`. A single fraction digit counts tenths of a second.
pub open spec fn spec_parse_timestamp(s: Seq<char>) -> Option<u64> {
    let ci = spec_find(s, ':');
    if ci < 0 {
        None
    } else {
        let mins_s = s.subrange(0, ci);
        let rest = s.subrange(ci + 1, s.len() as int);
        if spec_find(rest, ':') >= 0 {
            None
        } else {
            let di = spec_find(rest, '.');
            let secs_s = if di < 0 { rest } else { rest.subrange(0, di) };
            let frac_s = if di < 0 { Seq::<char>::empty() } else {
                rest.subrange(di + 1, rest.len() as int)
            };
            match (spec_parse_u64(mins_s), spec_parse_u64(secs_s)) {
                (Some(m), Some(ss)) => {
                    if di >= 0 && !(1 <= frac_s.len() <= 2 && all_dec_digits(frac_s)) {
                        None
                    } else {
                        let cc = if di < 0 { 0 } else if frac_s.len() == 1 {
                            dec_value(frac_s) * 10
                        } else {
                            dec_value(frac_s)
                        };
                        if m * 6000 + ss * 100 + cc <= u64::MAX {
                            Some((m * 6000 + ss * 100 + cc) as u64)
                        } else {
                            None
                        }
                    }
                },
                _ => None,
            }
        }
    }
}

/// Minutes zero-padded to at least two digits.
pub open spec fn spec_zero_pad2(n: nat) -> Seq<char> {
    if n < 10 {
        seq!['0'] + spec_dec_digits(n)
    } else {
        spec_dec_digits(n)
    }
}

/// The canonical `mm:ss.cc` form of a centisecond count: minutes zero-padded
/// to at least two digits, seconds and centiseconds exactly two each.
pub open spec fn spec_format_timestamp(cs: nat) -> Seq<char> {
    spec_zero_pad2(cs / 6000) + seq![':'] + spec_pad2((cs % 6000) / 100) + seq!['.'] + spec_pad2(
        cs % 100,
    )
}

/// The `mm:ss` form of a whole second count, both fields zero-padded to two
/// digits, as shown beside the progress bar.
pub open spec fn spec_format_time(secs: nat) -> Seq<char> {
    spec_zero_pad2(secs / 60) + seq![':'] + spec_pad2(secs % 60)
}

/// The padded minutes field consists of digits and denotes the minutes.
pub proof fn lemma_zero_pad2(n: nat)
    ensures
        all_dec_digits(spec_zero_pad2(n)),
        spec_zero_pad2(n).len() >= 2,
        dec_value(spec_zero_pad2(n)) == n,
{
    lemma_dec_digits_are_digits(n);
    lemma_dec_digits_value(n);
    if n >= 10 {
        lemma_dec_digits_are_digits(n / 10);
        assert(spec_dec_digits(n) == spec_dec_digits(n / 10) + seq![
            crate::numfmt::dec_digit_char((n % 10) as int),
        ]);
    }
    if n < 10 {
        crate::numfmt::lemma_dec_value_leading_zero(spec_dec_digits(n));
        assert(all_dec_digits(spec_zero_pad2(n))) by {
            let s = spec_zero_pad2(n);
            assert(forall|i: int| 0 <= i < s.len() ==> #[trigger] s[i] == if i == 0 { '0' } else {
                spec_dec_digits(n)[i - 1]
            });
        }
    }
}

/// A formatted timestamp always parses back to the centisecond count it came
/// from.
pub proof fn lemma_timestamp_round_trip(cs: u64)
    ensures
        spec_parse_timestamp(spec_format_timestamp(cs as nat)) == Some(cs),
{
    let n = cs as nat;
    let m = n / 6000;
    let ss = (n % 6000) / 100;
    let cc = n % 100;
    let mins = spec_zero_pad2(m);
    let secs = spec_pad2(ss);
    let frac = spec_pad2(cc);
    let s = spec_format_timestamp(n);
    let a = mins.len() as int;
    lemma_zero_pad2(m);
    lemma_pad2_value(ss);
    lemma_pad2_value(cc);
    assert(s =~= mins + seq![':'] + secs + seq!['.'] + frac);
    assert(s.len() == a + 6);
    // the first colon sits right after the minutes
    assert(s[a] == ':');
    assert forall|j: int| 0 <= j < a implies s[j] != ':' by {
        assert(s[j] == mins[j]);
        assert(is_dec_digit(mins[j]));
    }
    lemma_find_is(s, ':', a);
    let mins_s = s.subrange(0, a);
    let rest = s.subrange(a + 1, s.len() as int);
    assert(mins_s =~= mins);
    assert(rest =~= secs + seq!['.'] + frac);
    // no second colon
    assert forall|j: int| 0 <= j < rest.len() implies rest[j] != ':' by {
        if j < 2 {
            assert(rest[j] == secs[j]);
            assert(is_dec_digit(secs[j]));
        } else if j == 2 {
            assert(rest[j] == '.');
        } else {
            assert(rest[j] == frac[j - 3]);
            assert(is_dec_digit(frac[j - 3]));
        }
    }
    lemma_find_none(rest, ':');
    // the first dot sits after the two seconds digits
    assert(rest[2] == '.');
    assert forall|j: int| 0 <= j < 2 implies rest[j] != '.' by {
        assert(rest[j] == secs[j]);
        assert(is_dec_digit(secs[j]));
    }
    lemma_find_is(rest, '.', 2);
    let secs_s = rest.subrange(0, 2);
    let frac_s = rest.subrange(3, rest.len() as int);
    assert(secs_s =~= secs);
    assert(frac_s =~= frac);
    assert(spec_parse_u64(mins_s) == Some(m as u64)) by {
        assert(dec_value(mins) == m <= u64::MAX);
    }
    assert(spec_parse_u64(secs_s) == Some(ss as u64)) by {
        assert(dec_value(secs) == ss <= u64::MAX);
    }
    assert(dec_value(frac_s) == cc);
    assert(m * 6000 + ss * 100 + cc == n) by {
        assert(n % 6000 == ss * 100 + cc) by {
            assert(cc == (n % 6000) % 100) by {
                vstd::arithmetic::div_mod::lemma_mod_mod(n as int, 100, 60);
            }
            assert(ss * 100 + (n % 6000) % 100 == n % 6000);
        }
        assert(m * 6000 + n % 6000 == n);
    }
}

/// Parses a timestamp held in `v[from..to]` into centiseconds.
pub fn parse_timestamp_chars(v: &Vec<char>, from: usize, to: usize) -> (r: Option<u64>)
    requires
        from <= to <= v@.len(),
    ensures
        r == spec_parse_timestamp(v@.subrange(from as int, to as int)),
{
    let ghost s = v@.subrange(from as int, to as int);
    let ci = match find_char(v, from, to, ':') {
        None => {
            return None;
        },
        Some(ci) => ci,
    };
    proof {
        lemma_spec_find(s, ':');
    }
    let ghost mins_s = s.subrange(0, ci - from);
    let ghost rest = s.subrange(ci - from + 1, s.len() as int);
    assert(mins_s =~= v@.subrange(from as int, ci as int));
    assert(rest =~= v@.subrange(ci + 1, to as int));
    if let Some(_) = find_char(v, ci + 1, to, ':') {
        return None;
    }
    let m = match parse_u64_digits(v, from, ci) {
        None => {
            return None;
        },
        Some(m) => m,
    };
    let di = find_char(v, ci + 1, to, '.');
    let (ss, cc): (u64, u64) = match di {
        None => {
            let ss = match parse_u64_digits(v, ci + 1, to) {
                None => {
                    return None;
                },
                Some(ss) => ss,
            };
            (ss, 0)
        },
        Some(di) => {
            let ghost sdi = spec_find(rest, '.');
            proof {
                lemma_spec_find(rest, '.');
            }
            assert(sdi == di - (ci + 1));
            let ghost secs_s = rest.subrange(0, sdi);
            let ghost frac_s = rest.subrange(sdi + 1, rest.len() as int);
            assert(secs_s =~= v@.subrange(ci + 1, di as int));
            assert(frac_s =~= v@.subrange(di + 1, to as int));
            let ss = match parse_u64_digits(v, ci + 1, di) {
                None => {
                    return None;
                },
                Some(ss) => ss,
            };
            let fraclen = to - (di + 1);
            if fraclen == 1 {
                let c = v[di + 1];
                if !crate::numfmt::is_dec_digit_exec(c) {
                    assert(frac_s[0] == c);
                    return None;
                }
                let d: u64 = c as u32 as u64 - '0' as u32 as u64;
                proof {
                    assert(frac_s =~= seq![c]);
                    crate::numfmt::lemma_dec_value1(c);
                    assert(dec_value(frac_s) == d);
                }
                (ss, d * 10)
            } else if fraclen == 2 {
                let c0 = v[di + 1];
                let c1 = v[di + 2];
                if !crate::numfmt::is_dec_digit_exec(c0) {
                    assert(frac_s[0] == c0);
                    return None;
                }
                if !crate::numfmt::is_dec_digit_exec(c1) {
                    assert(frac_s[1] == c1);
                    return None;
                }
                let d0: u64 = c0 as u32 as u64 - '0' as u32 as u64;
                let d1: u64 = c1 as u32 as u64 - '0' as u32 as u64;
                proof {
                    assert(frac_s =~= seq![c0, c1]);
                    crate::numfmt::lemma_dec_value2(c0, c1);
                    assert(dec_value(frac_s) == d0 * 10 + d1);
                    assert(all_dec_digits(frac_s));
                }
                (ss, d0 * 10 + d1)
            } else {
                assert(frac_s.len() == fraclen);
                return None;
            }
        },
    };
    let a = match m.checked_mul(6000) {
        None => {
            return None;
        },
        Some(a) => a,
    };
    let b = match ss.checked_mul(100) {
        None => {
            return None;
        },
        Some(b) => b,
    };
    let t = match a.checked_add(b) {
        None => {
            return None;
        },
        Some(t) => t,
    };
    let t = match t.checked_add(cc) {
        None => {
            return None;
        },
        Some(t) => t,
    };
    Some(t)
}

/// Parses a `mm:ss` or `mm:ss.cc` timestamp string into centiseconds.
pub fn parse_timestamp(s: &str) -> (r: Option<u64>)
    ensures
        r == spec_parse_timestamp(s@),
{
    let v = str_to_chars(s);
    let n = v.len();
    assert(v@.subrange(0, n as int) =~= s@);
    parse_timestamp_chars(&v, 0, n)
}

/// Appends the canonical form of `n` zero-padded to at least two digits.
fn push_zero_pad2(out: &mut Vec<char>, n: u64)
    ensures
        final(out)@ == old(out)@ + spec_zero_pad2(n as nat),
{
    if n < 10 {
        out.push('0');
    }
    let d = format_u64(n);
    push_chars(out, &d);
    assert(out@ =~= old(out)@ + spec_zero_pad2(n as nat));
}

/// Formats a centisecond count in its canonical `mm:ss.cc` form.
pub fn format_timestamp_chars(cs: u64) -> (out: Vec<char>)
    ensures
        out@ == spec_format_timestamp(cs as nat),
{
    let mut out: Vec<char> = Vec::new();
    push_zero_pad2(&mut out, cs / 6000);
    out.push(':');
    let ss = format_pad2((cs % 6000) / 100);
    push_chars(&mut out, &ss);
    out.push('.');
    let cc = format_pad2(cs % 100);
    push_chars(&mut out, &cc);
    assert(out@ =~= spec_format_timestamp(cs as nat));
    out
}

/// Formats a centisecond count as a `mm:ss.cc` string.
pub fn format_timestamp(cs: u64) -> (out: String)
    ensures
        out@ == spec_format_timestamp(cs as nat),
{
    let v = format_timestamp_chars(cs);
    chars_to_string(&v)
}

/// Formats a whole second count as a `mm:ss` string.
pub fn format_time(secs: u64) -> (out: String)
    ensures
        out@ == spec_format_time(secs as nat),
{
    let mut out: Vec<char> = Vec::new();
    push_zero_pad2(&mut out, secs / 60);
    out.push(':');
    let ss = format_pad2(secs % 60);
    push_chars(&mut out, &ss);
    assert(out@ =~= spec_format_time(secs as nat));
    chars_to_string(&out)
}

} // verus!
