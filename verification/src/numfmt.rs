//! Decimal digit strings: the numeric halves of timestamps and volumes.

use vstd::prelude::*;

verus! {

/// Whether `c` is a decimal digit.
pub open spec fn is_dec_digit(c: char) -> bool {
    '0' as u32 <= c as u32 && c as u32 <= '9' as u32
}

/// The numeric value of a decimal digit.
pub open spec fn dec_val(c: char) -> int
    recommends
        is_dec_digit(c),
{
    c as u32 - '0' as u32
}

/// The decimal digit with value `n`.
pub open spec fn dec_digit_char(n: int) -> char
    recommends
        0 <= n < 10,
{
    if n == 0 { '0' } else if n == 1 { '1' } else if n == 2 { '2' }
    else if n == 3 { '3' } else if n == 4 { '4' } else if n == 5 { '5' }
    else if n == 6 { '6' } else if n == 7 { '7' } else if n == 8 { '8' }
    else { '9' }
}

/// The canonical decimal form of `n`: no leading zeros, `"0"` for zero.
pub open spec fn spec_dec_digits(n: nat) -> Seq<char>
    decreases n,
{
    if n < 10 {
        seq![dec_digit_char(n as int)]
    } else {
        spec_dec_digits(n / 10) + seq![dec_digit_char((n % 10) as int)]
    }
}

/// `n` rendered as exactly two digits, zero padded.
pub open spec fn spec_pad2(n: nat) -> Seq<char>
    recommends
        n < 100,
{
    seq![dec_digit_char((n / 10) as int), dec_digit_char((n % 10) as int)]
}

/// Whether every character of `s` is a decimal digit.
pub open spec fn all_dec_digits(s: Seq<char>) -> bool {
    forall|i: int| 0 <= i < s.len() ==> is_dec_digit(#[trigger] s[i])
}

/// The number a digit string denotes, most significant digit first.
pub open spec fn dec_value(s: Seq<char>) -> int
    decreases s.len(),
{
    if s.len() == 0 {
        0
    } else {
        dec_value(s.drop_last()) * 10 + dec_val(s.last())
    }
}

/// What parsing an unsigned decimal yields: the value of a non-empty
/// all-digit string, if it fits in a `u64`.
pub open spec fn spec_parse_u64(s: Seq<char>) -> Option<u64> {
    if s.len() > 0 && all_dec_digits(s) && dec_value(s) <= u64::MAX {
        Some(dec_value(s) as u64)
    } else {
        None
    }
}

/// A digit string denotes a non-negative number.
pub proof fn lemma_dec_value_nonneg(s: Seq<char>)
    requires
        all_dec_digits(s),
    ensures
        dec_value(s) >= 0,
    decreases s.len(),
{
    if s.len() > 0 {
        assert(all_dec_digits(s.drop_last())) by {
            assert(forall|i: int| 0 <= i < s.len() - 1 ==> s.drop_last()[i] == s[i]);
        }
        lemma_dec_value_nonneg(s.drop_last());
    }
}

/// Dropping trailing digits never increases the value.
pub proof fn lemma_dec_value_prefix(s: Seq<char>, i: int)
    requires
        all_dec_digits(s),
        0 <= i <= s.len(),
    ensures
        dec_value(s.subrange(0, i)) <= dec_value(s),
    decreases s.len() - i,
{
    if i == s.len() {
        assert(s.subrange(0, i) =~= s);
    } else {
        lemma_dec_value_prefix(s, i + 1);
        let t = s.subrange(0, i + 1);
        assert(t.drop_last() =~= s.subrange(0, i));
        assert(all_dec_digits(s.subrange(0, i))) by {
            assert(forall|j: int| 0 <= j < i ==> s.subrange(0, i)[j] == s[j]);
        }
        lemma_dec_value_nonneg(s.subrange(0, i));
        assert(dec_value(t) == dec_value(s.subrange(0, i)) * 10 + dec_val(s[i]));
        assert(dec_value(s.subrange(0, i)) <= dec_value(s.subrange(0, i)) * 10) by {
            lemma_dec_value_nonneg(s.subrange(0, i));
        }
    }
}

/// The canonical decimal form consists of digits.
pub proof fn lemma_dec_digits_are_digits(n: nat)
    ensures
        all_dec_digits(spec_dec_digits(n)),
        spec_dec_digits(n).len() >= 1,
    decreases n,
{
    if n >= 10 {
        lemma_dec_digits_are_digits(n / 10);
    }
}

/// Formatting then reading a number gives the number back.
pub proof fn lemma_dec_digits_value(n: nat)
    ensures
        dec_value(spec_dec_digits(n)) == n,
    decreases n,
{
    if n < 10 {
        let s = spec_dec_digits(n);
        assert(s =~= seq![dec_digit_char(n as int)]);
        assert(s.drop_last() =~= Seq::<char>::empty());
        assert(dec_value(Seq::<char>::empty()) == 0);
        assert(s.last() == dec_digit_char(n as int));
        assert(dec_value(s) == dec_value(s.drop_last()) * 10 + dec_val(s.last()));
        assert(dec_value(s) == dec_val(dec_digit_char(n as int)));
        assert(dec_val(dec_digit_char(n as int)) == n);
    } else {
        lemma_dec_digits_value(n / 10);
        let s = spec_dec_digits(n);
        assert(s.drop_last() =~= spec_dec_digits(n / 10));
        assert(s.last() == dec_digit_char((n % 10) as int));
        assert(dec_val(dec_digit_char((n % 10) as int)) == n % 10);
        assert(dec_value(s) == (n / 10) * 10 + n % 10);
    }
}

/// The two-digit padded form reads back as the number it came from.
pub proof fn lemma_pad2_value(n: nat)
    requires
        n < 100,
    ensures
        all_dec_digits(spec_pad2(n)),
        dec_value(spec_pad2(n)) == n,
        spec_pad2(n).len() == 2,
{
    let s = spec_pad2(n);
    let d0 = seq![dec_digit_char((n / 10) as int)];
    assert(s.drop_last() =~= d0);
    assert(d0.drop_last() =~= Seq::<char>::empty());
    assert(dec_value(Seq::<char>::empty()) == 0);
    assert(dec_value(d0) == dec_val(dec_digit_char((n / 10) as int)));
    assert(dec_value(s) == dec_value(d0) * 10 + dec_val(dec_digit_char((n % 10) as int)));
    assert(dec_val(dec_digit_char((n / 10) as int)) == n / 10);
    assert(dec_val(dec_digit_char((n % 10) as int)) == n % 10);
    assert(dec_value(s) == (n / 10) * 10 + n % 10);
}

/// A leading zero does not change the value a digit string denotes.
pub proof fn lemma_dec_value_leading_zero(t: Seq<char>)
    ensures
        dec_value(seq!['0'] + t) == dec_value(t),
    decreases t.len(),
{
    let s = seq!['0'] + t;
    if t.len() == 0 {
        assert(s =~= seq!['0']);
        assert(s.drop_last() =~= Seq::<char>::empty());
        assert(dec_value(Seq::<char>::empty()) == 0);
        assert(dec_val('0') == 0);
    } else {
        lemma_dec_value_leading_zero(t.drop_last());
        assert(s.drop_last() =~= seq!['0'] + t.drop_last());
        assert(s.last() == t.last());
    }
}

/// The value of a one-digit string.
pub proof fn lemma_dec_value1(c: char)
    ensures
        dec_value(seq![c]) == dec_val(c),
{
    assert(seq![c].drop_last() =~= Seq::<char>::empty());
    assert(dec_value(Seq::<char>::empty()) == 0);
    assert(seq![c].last() == c);
}

/// The value of a two-digit string.
pub proof fn lemma_dec_value2(c0: char, c1: char)
    ensures
        dec_value(seq![c0, c1]) == dec_val(c0) * 10 + dec_val(c1),
{
    let s = seq![c0, c1];
    assert(s.drop_last() =~= seq![c0]);
    lemma_dec_value1(c0);
    assert(s.last() == c1);
}

/// Exec test for a decimal digit.
pub fn is_dec_digit_exec(c: char) -> (r: bool)
    ensures
        r == is_dec_digit(c),
{
    let u = c as u32;
    '0' as u32 <= u && u <= '9' as u32
}

/// Exec decimal digit for a value below 10.
pub fn dec_digit_char_exec(n: u64) -> (c: char)
    requires
        n < 10,
    ensures
        c == dec_digit_char(n as int),
{
    if n == 0 { '0' } else if n == 1 { '1' } else if n == 2 { '2' }
    else if n == 3 { '3' } else if n == 4 { '4' } else if n == 5 { '5' }
    else if n == 6 { '6' } else if n == 7 { '7' } else if n == 8 { '8' }
    else { '9' }
}

/// Renders `n` in its canonical decimal form.
pub fn format_u64(n: u64) -> (out: Vec<char>)
    ensures
        out@ == spec_dec_digits(n as nat),
{
    let mut out: Vec<char> = Vec::new();
    let mut m: u64 = n;
    while m >= 10
        invariant
            spec_dec_digits(n as nat) == spec_dec_digits(m as nat) + out@,
        decreases m,
    {
        let prev = m;
        let ghost out0 = out@;
        out.insert(0, dec_digit_char_exec(m % 10));
        m = m / 10;
        proof {
            assert(spec_dec_digits(prev as nat)
                == spec_dec_digits(prev as nat / 10) + seq![dec_digit_char((prev as nat % 10) as int)]);
            assert(out@ =~= seq![dec_digit_char((prev as nat % 10) as int)] + out0);
            assert(spec_dec_digits(n as nat) =~= spec_dec_digits(m as nat) + out@);
        }
    }
    out.insert(0, dec_digit_char_exec(m));
    assert(out@ =~= spec_dec_digits(n as nat));
    out
}

/// Renders `n < 100` as exactly two digits, zero padded.
pub fn format_pad2(n: u64) -> (out: Vec<char>)
    requires
        n < 100,
    ensures
        out@ == spec_pad2(n as nat),
{
    let mut out: Vec<char> = Vec::new();
    out.push(dec_digit_char_exec(n / 10));
    out.push(dec_digit_char_exec(n % 10));
    assert(out@ =~= spec_pad2(n as nat));
    out
}

/// Reads the digit run `v[from..to]` as a `u64`. `None` on an empty range, a
/// non-digit, or a value over `u64::MAX`.
pub fn parse_u64_digits(v: &Vec<char>, from: usize, to: usize) -> (r: Option<u64>)
    requires
        from <= to <= v@.len(),
    ensures
        r == spec_parse_u64(v@.subrange(from as int, to as int)),
{
    let ghost s = v@.subrange(from as int, to as int);
    if from == to {
        return None;
    }
    let mut acc: u64 = 0;
    let mut i: usize = from;
    while i < to
        invariant
            from <= i <= to <= v@.len(),
            s == v@.subrange(from as int, to as int),
            all_dec_digits(s.subrange(0, i - from)),
            acc == dec_value(s.subrange(0, i - from)),
        decreases to - i,
    {
        let c = v[i];
        if !is_dec_digit_exec(c) {
            assert(s[i - from] == c);
            return None;
        }
        let d: u64 = c as u32 as u64 - '0' as u32 as u64;
        let ghost pre = s.subrange(0, i - from);
        let ghost cur = s.subrange(0, i + 1 - from);
        assert(cur.drop_last() =~= pre);
        assert(cur.last() == c);
        assert(all_dec_digits(cur));
        if acc > (u64::MAX - d) / 10 {
            proof {
                assert(dec_value(cur) == acc * 10 + d);
                assert(dec_value(cur) > u64::MAX);
                lemma_dec_value_prefix_or_nondigit(s, i + 1 - from);
            }
            return None;
        }
        acc = acc * 10 + d;
        i = i + 1;
    }
    assert(s =~= s.subrange(0, to - from));
    Some(acc)
}

/// If some prefix of `s` already denotes more than `u64::MAX`, or `s` holds a
/// non-digit, parsing `s` fails.
proof fn lemma_dec_value_prefix_or_nondigit(s: Seq<char>, i: int)
    requires
        0 <= i <= s.len(),
        all_dec_digits(s.subrange(0, i)),
        dec_value(s.subrange(0, i)) > u64::MAX,
    ensures
        spec_parse_u64(s) is None,
{
    if all_dec_digits(s) {
        assert(s.subrange(0, i) =~= s.subrange(0, i));
        lemma_dec_value_prefix(s, i);
    }
}

} // verus!
