//! Decimal numerals: rendering integers as text and reading them back.

use vstd::prelude::*;
use vstd::string::*;
use crate::chars::{is_digit, chars_of, digit};

verus! {

/// The character of the decimal digit `d` (`d < 10`).
pub open spec fn digit_char(d: nat) -> char {
    (48 + d) as char
}

/// The value of the decimal digit character `c`.
pub open spec fn digit_value(c: char) -> nat {
    ((c as int) - 48) as nat
}

/// The shortest decimal rendering of `n`, as `Display` writes it.
pub open spec fn dec_nat(n: nat) -> Seq<char>
    decreases n,
{
    if n < 10 {
        seq![digit_char(n)]
    } else {
        dec_nat(n / 10).push(digit_char(n % 10))
    }
}

/// The decimal rendering of `i`, with a leading `-` when it is negative.
pub open spec fn dec_int(i: int) -> Seq<char> {
    if i < 0 {
        seq!['-'] + dec_nat((-i) as nat)
    } else {
        dec_nat(i as nat)
    }
}

/// Every character of `s` is a decimal digit.
pub open spec fn all_digits(s: Seq<char>) -> bool {
    forall|i: int| 0 <= i < s.len() ==> is_digit(#[trigger] s[i])
}

/// The value of the digit string `s`, most significant digit first.
pub open spec fn digits_value(s: Seq<char>) -> nat
    decreases s.len(),
{
    if s.len() == 0 {
        0
    } else {
        digits_value(s.drop_last()) * 10 + digit_value(s.last())
    }
}

/// The numeral `[0-9]+` that `s` is, read as a `u32`: `None` when `s` is
/// empty, holds anything but ASCII digits, or is worth more than `u32::MAX`.
pub open spec fn digits_u32_spec(s: Seq<char>) -> Option<u32> {
    if s.len() > 0 && all_digits(s) && digits_value(s) <= u32::MAX {
        Some(digits_value(s) as u32)
    } else {
        None
    }
}

/// What `str::parse::<i32>` gives back: an optional `+` or `-`, then one or
/// more ASCII digits whose signed value fits in an `i32`.
pub open spec fn parse_i32_spec(s: Seq<char>) -> Option<i32> {
    let negative = s.len() > 0 && s[0] == '-';
    let body = if s.len() > 0 && (s[0] == '+' || s[0] == '-') { s.drop_first() } else { s };
    if body.len() > 0 && all_digits(body) {
        if negative && digits_value(body) <= 0x8000_0000 {
            Some((-digits_value(body)) as i32)
        } else if !negative && digits_value(body) <= i32::MAX {
            Some(digits_value(body) as i32)
        } else {
            None
        }
    } else {
        None
    }
}

/// The one-character text of the decimal digit `d`.
fn digit_text(d: u64) -> (s: &'static str)
    requires
        d < 10,
    ensures
        s@ == seq![digit_char(d as nat)],
{
    match d {
        0 => { proof { reveal_strlit("0"); } "0" },
        1 => { proof { reveal_strlit("1"); } "1" },
        2 => { proof { reveal_strlit("2"); } "2" },
        3 => { proof { reveal_strlit("3"); } "3" },
        4 => { proof { reveal_strlit("4"); } "4" },
        5 => { proof { reveal_strlit("5"); } "5" },
        6 => { proof { reveal_strlit("6"); } "6" },
        7 => { proof { reveal_strlit("7"); } "7" },
        8 => { proof { reveal_strlit("8"); } "8" },
        _ => { proof { reveal_strlit("9"); } "9" },
    }
}

/// Appends the decimal rendering of `n` to `out`.
pub fn push_decimal(out: &mut String, n: u64)
    ensures
        final(out)@ == old(out)@ + dec_nat(n as nat),
    decreases n,
{
    if n >= 10 {
        push_decimal(out, n / 10);
        out.append(digit_text(n % 10));
        assert(final(out)@ == old(out)@ + dec_nat(n as nat));
    } else {
        out.append(digit_text(n));
    }
}

/// Appends the decimal rendering of `i`, with its sign, to `out`.
pub fn push_signed_decimal(out: &mut String, i: i64)
    ensures
        final(out)@ == old(out)@ + dec_int(i as int),
{
    if i < 0 {
        proof { reveal_strlit("-"); }
        out.append("-");
        let magnitude: u64 = if i == i64::MIN { 0x8000_0000_0000_0000u64 } else { (-i) as u64 };
        push_decimal(out, magnitude);
        assert(final(out)@ == old(out)@ + dec_int(i as int));
    } else {
        push_decimal(out, i as u64);
    }
}

/// The value of the digits `s[from..to]` is that of `s[from..to-1]`, shifted.
proof fn lemma_digits_step(s: Seq<char>, from: int, to: int)
    requires
        0 <= from < to <= s.len(),
    ensures
        digits_value(s.subrange(from, to)) == digits_value(s.subrange(from, to - 1)) * 10
            + digit_value(s[to - 1]),
{
    assert(s.subrange(from, to).drop_last() =~= s.subrange(from, to - 1));
}

/// A digit string is worth at least any of its prefixes.
proof fn lemma_digits_prefix_bound(s: Seq<char>, from: int, mid: int, to: int)
    requires
        0 <= from <= mid <= to <= s.len(),
    ensures
        digits_value(s.subrange(from, mid)) <= digits_value(s.subrange(from, to)),
    decreases to - mid,
{
    if mid < to {
        lemma_digits_prefix_bound(s, from, mid, to - 1);
        if from < to {
            lemma_digits_step(s, from, to);
        }
    }
}

/// Reads the digits `v[from..]` as a number no greater than `limit`;
/// `None` when one of them is not a digit, when there are none, or when
/// the value exceeds `limit`.
fn read_digits(v: &Vec<char>, from: usize, limit: u64) -> (r: Option<u64>)
    requires
        from <= v.len(),
        limit <= u32::MAX + 1,
    ensures
        ({
            let body = v@.subrange(from as int, v@.len() as int);
            match r {
                Some(n) => body.len() > 0 && all_digits(body) && n == digits_value(body)
                    && n <= limit,
                None => !(body.len() > 0 && all_digits(body) && digits_value(body) <= limit),
            }
        }),
{
    let ghost body = v@.subrange(from as int, v@.len() as int);
    if from == v.len() {
        return None;
    }
    let mut k = from;
    while k < v.len()
        invariant
            from <= k <= v.len(),
            body == v@.subrange(from as int, v@.len() as int),
            forall|i: int| from <= i < k ==> is_digit(#[trigger] v@[i]),
        decreases v.len() - k,
    {
        if !digit(v[k]) {
            assert(!is_digit(body[k - from]));
            return None;
        }
        k = k + 1;
    }
    assert(all_digits(body)) by {
        assert forall|i: int| 0 <= i < body.len() implies is_digit(#[trigger] body[i]) by {
            assert(body[i] == v@[from + i]);
        }
    }
    let mut acc: u64 = 0;
    let mut j = from;
    assert(v@.subrange(from as int, from as int) =~= Seq::<char>::empty());
    while j < v.len()
        invariant
            from <= j <= v.len(),
            all_digits(body),
            body == v@.subrange(from as int, v@.len() as int),
            acc == digits_value(v@.subrange(from as int, j as int)),
            acc <= limit,
            limit <= u32::MAX + 1,
        decreases v.len() - j,
    {
        assert(is_digit(body[j - from]));
        let d = (v[j] as u32 - 48) as u64;
        proof { lemma_digits_step(v@, from as int, j + 1); }
        let next = acc * 10 + d;
        if next > limit {
            proof { lemma_digits_prefix_bound(v@, from as int, j + 1, v@.len() as int); }
            return None;
        }
        acc = next;
        j = j + 1;
    }
    Some(acc)
}

/// Reads the numeral `[0-9]+` that `s` is as a `u32`.
pub fn digits_u32(s: &str) -> (r: Option<u32>)
    ensures
        r == digits_u32_spec(s@),
{
    let v = chars_of(s);
    assert(v@.subrange(0, v@.len() as int) =~= s@);
    match read_digits(&v, 0, 0xffff_ffff) {
        Some(n) => Some(n as u32),
        None => None,
    }
}

/// `str::parse::<i32>`.
pub fn parse_i32(s: &str) -> (r: Option<i32>)
    ensures
        r == parse_i32_spec(s@),
{
    let v = chars_of(s);
    let negative = v.len() > 0 && v[0] == '-';
    let from: usize = if v.len() > 0 && (v[0] == '+' || v[0] == '-') { 1 } else { 0 };
    let ghost body = if s@.len() > 0 && (s@[0] == '+' || s@[0] == '-') { s@.drop_first() } else { s@ };
    assert(v@.subrange(from as int, v@.len() as int) =~= body);
    let limit: u64 = if negative { 0x8000_0000 } else { 0x7fff_ffff };
    match read_digits(&v, from, limit) {
        Some(n) => {
            if negative {
                Some((0 - (n as i64)) as i32)
            } else {
                Some(n as i32)
            }
        },
        None => {
            proof {
                if body.len() > 0 && all_digits(body) {
                    assert(digits_value(body) > limit);
                }
            }
            None
        },
    }
}

/// The decimal rendering of a number is a nonempty string of digits.
pub proof fn lemma_dec_nat_digits(v: nat)
    ensures
        dec_nat(v).len() > 0,
        forall|i: int| 0 <= i < dec_nat(v).len() ==> is_digit(#[trigger] dec_nat(v)[i]),
    decreases v,
{
    if v >= 10 {
        lemma_dec_nat_digits(v / 10);
    }
}

/// Reading the decimal rendering of `v` gives back `v`.
pub proof fn lemma_dec_nat_value(v: nat)
    ensures
        digits_value(dec_nat(v)) == v,
    decreases v,
{
    assert(digit_value(digit_char(v % 10)) == v % 10);
    if v < 10 {
        let s = dec_nat(v);
        assert(s.drop_last() =~= Seq::<char>::empty());
        assert(digits_value(s.drop_last()) == 0);
        assert(s.last() == digit_char(v % 10));
    } else {
        lemma_dec_nat_value(v / 10);
        let s = dec_nat(v);
        assert(s == dec_nat(v / 10).push(digit_char(v % 10)));
        assert(s.drop_last() =~= dec_nat(v / 10));
        assert(s.last() == digit_char(v % 10));
        assert(digits_value(s) == digits_value(s.drop_last()) * 10 + digit_value(s.last()));
        assert((v / 10) * 10 + v % 10 == v);
    }
}

/// `str::parse::<i32>` reads the rendering of any `v` up to `i32::MAX` as `v`.
pub proof fn lemma_parse_i32_dec(v: nat)
    requires
        v <= i32::MAX,
    ensures
        parse_i32_spec(dec_nat(v)) == Some(v as i32),
{
    lemma_dec_nat_digits(v);
    lemma_dec_nat_value(v);
    let s = dec_nat(v);
    assert(is_digit(s[0]));
}

/// `str::parse::<i32>` refuses the rendering of any `v` above `i32::MAX`.
pub proof fn lemma_parse_i32_dec_too_big(v: nat)
    requires
        v > i32::MAX,
    ensures
        parse_i32_spec(dec_nat(v)) is None,
{
    lemma_dec_nat_digits(v);
    lemma_dec_nat_value(v);
    let s = dec_nat(v);
    assert(is_digit(s[0]));
}

/// The rendering of any `u32` reads back as itself.
pub proof fn lemma_digits_u32_dec(v: u32)
    ensures
        digits_u32_spec(dec_nat(v as nat)) == Some(v),
{
    lemma_dec_nat_digits(v as nat);
    lemma_dec_nat_value(v as nat);
    let s = dec_nat(v as nat);
    assert(is_digit(s[0]));
}

/// `str::parse::<i32>` reads the signed rendering of any `i32` as itself.
pub proof fn law_parse_i32_dec_int(n: i32)
    ensures
        parse_i32_spec(dec_int(n as int)) == Some(n),
{
    if n < 0 {
        let m = (-(n as int)) as nat;
        lemma_dec_nat_digits(m);
        lemma_dec_nat_value(m);
        let s = dec_int(n as int);
        assert(s == seq!['-'] + dec_nat(m));
        assert(s[0] == '-');
        assert(s.drop_first() =~= dec_nat(m));
    } else {
        lemma_parse_i32_dec(n as nat);
    }
}

} // verus!
