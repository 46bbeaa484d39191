//! PC-1500 8-byte numeric-variable codec, used by the Variables payload format.
//!
//! ```text
//!   byte 0    signed exponent, two's complement, range -99..=99
//!   byte 1    sign: 0x00 positive/zero, 0x80 negative
//!   bytes 2-6 5-byte packed BCD mantissa: 10 decimal digits, point after digit 1
//!   byte 7    always 0x00
//! ```
//! `value = sign * d0.d1d2...d9 * 10^exponent`. All-zero bytes decode to `"0"`.
//!
//! A second, decode-only form is recognized: when byte 4 is `0xB2`, bytes 5-6 hold a
//! big-endian signed 16-bit integer and the rest of the record is don't-care.

use vstd::prelude::*;

use crate::textbuf::{self, decimal, digit_char, push_char, push_decimal};

verus! {

/// Why a value could not be decoded or encoded.
#[derive(Clone, Copy, Debug, PartialEq, Eq, Structural)]
pub enum BcdError {
    /// `decode` was given something other than 8 bytes.
    WrongLength(usize),
    /// `encode` was given text that is not a decimal number.
    InvalidDecimal,
    /// The value's base-10 exponent lies outside `-99..=99`.
    ExponentOutOfRange,
}

// ── decode ──────────────────────────────────────────────────────────────

/// Byte interpreted as a two's-complement `i8`.
pub open spec fn as_i8(b: u8) -> int {
    if b >= 128 {
        b - 256
    } else {
        b as int
    }
}

/// Big-endian pair interpreted as a two's-complement `i16`.
pub open spec fn as_i16(hi: u8, lo: u8) -> int {
    let v = hi * 256 + lo;
    if v >= 32768 {
        v - 65536
    } else {
        v
    }
}

/// Decimal text of a signed integer.
pub open spec fn int_text(v: int) -> Seq<char> {
    if v < 0 {
        seq!['-'] + decimal((-v) as nat)
    } else {
        decimal(v as nat)
    }
}

/// The ten mantissa digits (nibbles, high first) of five packed bytes.
pub open spec fn unpack_spec(b: Seq<u8>) -> Seq<u8> {
    Seq::new(10, |i: int| if i % 2 == 0 { b[i / 2] / 16 } else { b[i / 2] % 16 })
}

/// Each element written in decimal, concatenated.
pub open spec fn digit_text(ds: Seq<u8>) -> Seq<char>
    decreases ds.len(),
{
    if ds.len() == 0 {
        Seq::empty()
    } else {
        digit_text(ds.drop_last()) + decimal(ds.last() as nat)
    }
}

pub open spec fn zero_run(n: nat) -> Seq<char> {
    Seq::new(n, |i: int| '0')
}

pub open spec fn sign_text(negative: bool) -> Seq<char> {
    if negative {
        seq!['-']
    } else {
        Seq::empty()
    }
}

/// `sig` with `point_pos` of its digits before the decimal point, without exponent.
pub open spec fn plain_decimal_spec(sig: Seq<u8>, point_pos: int, negative: bool) -> Seq<char> {
    let n = sig.len() as int;
    if point_pos <= 0 {
        sign_text(negative) + seq!['0', '.'] + zero_run((-point_pos) as nat) + digit_text(sig)
    } else if point_pos >= n {
        sign_text(negative) + digit_text(sig) + zero_run((point_pos - n) as nat)
    } else {
        sign_text(negative) + digit_text(sig.take(point_pos)) + seq!['.'] + digit_text(
            sig.skip(point_pos),
        )
    }
}

/// Index of the last non-zero element (0 if there is none).
pub open spec fn last_nonzero(ds: Seq<u8>) -> int
    decreases ds.len(),
{
    if ds.len() == 0 {
        0
    } else if ds.last() != 0 {
        ds.len() - 1
    } else {
        last_nonzero(ds.drop_last())
    }
}

/// Canonical text of ten mantissa digits with a base-10 exponent: plain fixed-point for
/// an exponent in `-4..=9`, otherwise `<d>.<ddd>E<+/-><exp>`; trailing zero digits
/// dropped.
pub open spec fn format_value_spec(digits: Seq<u8>, exponent: int, negative: bool) -> Seq<char> {
    let sig = digits.take(last_nonzero(digits) + 1);
    if -4 <= exponent && exponent <= 9 {
        plain_decimal_spec(sig, exponent + 1, negative)
    } else {
        scientific_spec(sig, exponent, negative)
    }
}

pub open spec fn all_zero(ds: Seq<u8>) -> bool {
    forall|i: int| 0 <= i < ds.len() ==> ds[i] == 0
}

/// The text [`decode`] produces for `b`, `None` when `b` is not 8 bytes long.
pub open spec fn decode_spec(b: Seq<u8>) -> Option<Seq<char>> {
    if b.len() != 8 {
        None
    } else if b[4] == 0xB2 {
        Some(int_text(as_i16(b[5], b[6])))
    } else {
        let digits = unpack_spec(b.subrange(2, 7));
        if all_zero(digits) {
            Some(seq!['0'])
        } else {
            Some(format_value_spec(digits, as_i8(b[0]), b[1] == 0x80))
        }
    }
}

/// Decode an 8-byte PC-1500 numeric value to its canonical decimal text: plain
/// fixed-point for a base-10 exponent in `-4..=9`, otherwise `<d>.<ddd>E<+/-><exp>`.
pub fn decode(bytes: &[u8]) -> (r: Result<String, BcdError>)
    ensures
        match r {
            Ok(s) => decode_spec(bytes@) == Some(s@),
            Err(e) => decode_spec(bytes@) is None && e == BcdError::WrongLength(bytes@.len() as usize),
        },
{
    if bytes.len() != 8 {
        return Err(BcdError::WrongLength(bytes.len()));
    }
    if bytes[4] == 0xB2 {
        let v: i32 = (bytes[5] as i32) * 256 + (bytes[6] as i32);
        let v: i32 = if v >= 32768 {
            v - 65536
        } else {
            v
        };
        let mut s = String::new();
        if v < 0 {
            push_char(&mut s, '-');
            push_decimal(&mut s, (-v) as u64);
        } else {
            push_decimal(&mut s, v as u64);
        }
        return Ok(s);
    }
    let exponent: i32 = if bytes[0] >= 128 {
        bytes[0] as i32 - 256
    } else {
        bytes[0] as i32
    };
    let negative = bytes[1] == 0x80;
    let digits = unpack_bcd5(bytes, 2);
    assert(digits@ =~= unpack_spec(bytes@.subrange(2, 7)));
    let mut any = false;
    let mut i: usize = 0;
    while i < 10
        invariant
            i <= 10,
            digits@.len() == 10,
            any == exists|j: int| 0 <= j < i && digits@[j] != 0,
        decreases 10 - i,
    {
        if digits[i] != 0 {
            any = true;
        }
        i = i + 1;
    }
    if !any {
        let mut s = String::new();
        push_char(&mut s, '0');
        assert(s@ =~= seq!['0']);
        return Ok(s);
    }
    Ok(format_value(&digits, exponent, negative))
}

/// The ten digits of `b[at..at + 5]`.
fn unpack_bcd5(b: &[u8], at: usize) -> (d: Vec<u8>)
    requires
        at + 5 <= b@.len(),
    ensures
        d@ == unpack_spec(b@.subrange(at as int, at + 5)),
{
    let mut d: Vec<u8> = Vec::new();
    let mut i: usize = 0;
    while i < 5
        invariant
            i <= 5,
            at + 5 <= b.len(),
            d@.len() == 2 * i,
            forall|k: int| 0 <= k < 2 * i ==> d@[k] == unpack_spec(b@.subrange(at as int, at + 5))[k],
        decreases 5 - i,
    {
        let x = b[at + i];
        d.push(x / 16);
        d.push(x % 16);
        i = i + 1;
    }
    assert(d@ =~= unpack_spec(b@.subrange(at as int, at + 5)));
    d
}

/// Appends `digit_text(ds[from..to])`.
fn push_digit_text(s: &mut String, ds: &Vec<u8>, from: usize, to: usize)
    requires
        from <= to <= ds@.len(),
    ensures
        final(s)@ == old(s)@ + digit_text(ds@.subrange(from as int, to as int)),
{
    let mut i = from;
    while i < to
        invariant
            from <= i <= to <= ds@.len(),
            s@ == old(s)@ + digit_text(ds@.subrange(from as int, i as int)),
        decreases to - i,
    {
        push_decimal(s, ds[i] as u64);
        i = i + 1;
        assert(ds@.subrange(from as int, i as int).drop_last() =~= ds@.subrange(
            from as int,
            i - 1,
        ));
    }
}

fn push_zeros(s: &mut String, n: u64)
    ensures
        final(s)@ == old(s)@ + zero_run(n as nat),
{
    let mut k: u64 = 0;
    while k < n
        invariant
            k <= n,
            s@ == old(s)@ + zero_run(k as nat),
        decreases n - k,
    {
        push_char(s, '0');
        k = k + 1;
        assert(zero_run(k as nat) =~= zero_run((k - 1) as nat).push('0'));
    }
}

/// Index of the last non-zero digit of ten.
fn last_nonzero_of(digits: &Vec<u8>) -> (r: usize)
    requires
        digits@.len() == 10,
    ensures
        r as int == last_nonzero(digits@),
        r <= 9,
{
    let mut last: usize = 0;
    let mut i: usize = 0;
    while i < 10
        invariant
            i <= 10,
            digits@.len() == 10,
            last <= 9,
            last_nonzero(digits@.take(i as int)) == last as int,
        decreases 10 - i,
    {
        assert(digits@.take(i + 1).drop_last() =~= digits@.take(i as int));
        if digits[i] != 0 {
            last = i;
        }
        i = i + 1;
    }
    assert(digits@.take(10) =~= digits@);
    last
}

fn push_plain(s: &mut String, digits: &Vec<u8>, n: usize, p: i32, negative: bool)
    requires
        digits@.len() == 10,
        1 <= n <= 10,
        -3 <= p <= 10,
        old(s)@ == sign_text(negative),
    ensures
        final(s)@ == plain_decimal_spec(digits@.take(n as int), p as int, negative),
{
    let ghost sig = digits@.take(n as int);
    if p <= 0 {
        push_char(s, '0');
        push_char(s, '.');
        push_zeros(s, (-p) as u64);
        push_digit_text(s, digits, 0, n);
        assert(digits@.subrange(0, n as int) =~= sig);
    } else if p as usize >= n {
        push_digit_text(s, digits, 0, n);
        assert(digits@.subrange(0, n as int) =~= sig);
        push_zeros(s, (p as usize - n) as u64);
    } else {
        let pu = p as usize;
        push_digit_text(s, digits, 0, pu);
        push_char(s, '.');
        push_digit_text(s, digits, pu, n);
        assert(digits@.subrange(0, pu as int) =~= sig.take(pu as int));
        assert(digits@.subrange(pu as int, n as int) =~= sig.skip(pu as int));
    }
    assert(s@ =~= plain_decimal_spec(sig, p as int, negative));
}

pub open spec fn scientific_spec(sig: Seq<u8>, exponent: int, negative: bool) -> Seq<char> {
    let mantissa = if sig.len() == 1 {
        decimal(sig[0] as nat)
    } else {
        decimal(sig[0] as nat) + seq!['.'] + digit_text(sig.skip(1))
    };
    let exp_text = if exponent >= 0 {
        seq!['+'] + decimal(exponent as nat)
    } else {
        seq!['-'] + decimal((-exponent) as nat)
    };
    sign_text(negative) + mantissa + seq!['E'] + exp_text
}

fn push_scientific(s: &mut String, digits: &Vec<u8>, n: usize, exponent: i32, negative: bool)
    requires
        digits@.len() == 10,
        1 <= n <= 10,
        -128 <= exponent <= 127,
        old(s)@ == sign_text(negative),
    ensures
        final(s)@ == scientific_spec(digits@.take(n as int), exponent as int, negative),
{
    let ghost sig = digits@.take(n as int);
    push_decimal(s, digits[0] as u64);
    if n > 1 {
        push_char(s, '.');
        push_digit_text(s, digits, 1, n);
        assert(digits@.subrange(1, n as int) =~= sig.skip(1));
    }
    push_char(s, 'E');
    if exponent >= 0 {
        push_char(s, '+');
        push_decimal(s, exponent as u64);
    } else {
        push_char(s, '-');
        push_decimal(s, (-exponent) as u64);
    }
    assert(s@ =~= scientific_spec(sig, exponent as int, negative));
}

/// Render ten mantissa digits (at least one non-zero) with a base-10 exponent.
fn format_value(digits: &Vec<u8>, exponent: i32, negative: bool) -> (s: String)
    requires
        digits@.len() == 10,
        exponent >= -128 && exponent <= 127,
    ensures
        s@ == format_value_spec(digits@, exponent as int, negative),
{
    let last = last_nonzero_of(digits);
    let n = last + 1;
    let mut s = String::new();
    if negative {
        push_char(&mut s, '-');
    }
    assert(s@ =~= sign_text(negative));
    if -4 <= exponent && exponent <= 9 {
        push_plain(&mut s, digits, n, exponent + 1, negative);
    } else {
        push_scientific(&mut s, digits, n, exponent, negative);
    }
    s
}

// ── encode ──────────────────────────────────────────────────────────────

/// Unicode `White_Space`, what `str::trim` removes.
pub open spec fn is_ws(c: char) -> bool {
    ||| ('\t' <= c && c <= '\r')
    ||| c == ' '
    ||| c == '\u{85}'
    ||| c == '\u{A0}'
    ||| c == '\u{1680}'
    ||| ('\u{2000}' <= c && c <= '\u{200A}')
    ||| c == '\u{2028}'
    ||| c == '\u{2029}'
    ||| c == '\u{202F}'
    ||| c == '\u{205F}'
    ||| c == '\u{3000}'
}

pub fn is_whitespace(c: char) -> (r: bool)
    ensures
        r == is_ws(c),
{
    ('\t' <= c && c <= '\r') || c == ' ' || c == '\u{85}' || c == '\u{A0}' || c == '\u{1680}' || (
    '\u{2000}' <= c && c <= '\u{200A}') || c == '\u{2028}' || c == '\u{2029}' || c == '\u{202F}'
        || c == '\u{205F}' || c == '\u{3000}'
}

pub open spec fn trim_start_ws(s: Seq<char>) -> Seq<char>
    decreases s.len(),
{
    if s.len() > 0 && is_ws(s[0]) {
        trim_start_ws(s.drop_first())
    } else {
        s
    }
}

pub open spec fn trim_end_ws(s: Seq<char>) -> Seq<char>
    decreases s.len(),
{
    if s.len() > 0 && is_ws(s.last()) {
        trim_end_ws(s.drop_last())
    } else {
        s
    }
}

/// `s` without leading and trailing white space (`str::trim`).
pub open spec fn trim_ws(s: Seq<char>) -> Seq<char> {
    trim_end_ws(trim_start_ws(s))
}

/// Bounds `(start, end)` of `s.trim()` within `s`.
pub fn trim_bounds(s: &Vec<char>) -> (r: (usize, usize))
    ensures
        r.0 <= r.1 <= s@.len(),
        s@.subrange(r.0 as int, r.1 as int) == trim_ws(s@),
{
    let mut a: usize = 0;
    assert(s@.skip(0) =~= s@);
    while a < s.len() && is_whitespace(s[a])
        invariant
            a <= s@.len(),
            trim_start_ws(s@) == trim_start_ws(s@.skip(a as int)),
        decreases s.len() - a,
    {
        assert(s@.skip(a as int).drop_first() =~= s@.skip(a + 1));
        a = a + 1;
    }
    assert(trim_start_ws(s@.skip(a as int)) == s@.skip(a as int));
    let mut b: usize = s.len();
    assert(s@.subrange(a as int, b as int) =~= s@.skip(a as int));
    while b > a && is_whitespace(s[b - 1])
        invariant
            a <= b <= s@.len(),
            trim_ws(s@) == trim_end_ws(s@.subrange(a as int, b as int)),
        decreases b,
    {
        assert(s@.subrange(a as int, b as int).drop_last() =~= s@.subrange(a as int, b - 1));
        b = b - 1;
    }
    (a, b)
}

pub open spec fn is_digit_char(c: char) -> bool {
    '0' <= c && c <= '9'
}

pub open spec fn all_digits(s: Seq<char>) -> bool {
    forall|i: int| 0 <= i < s.len() ==> is_digit_char(#[trigger] s[i])
}

pub open spec fn digit_value(c: char) -> u8 {
    ((c as u32) - ('0' as u32)) as u8
}

/// Value of a string of decimal digits.
pub open spec fn digits_value(s: Seq<char>) -> nat
    decreases s.len(),
{
    if s.len() == 0 {
        0
    } else {
        digits_value(s.drop_last()) * 10 + digit_value(s.last()) as nat
    }
}

/// `i32::from_str`: optional sign, at least one digit, value in range.
pub open spec fn parse_i32_spec(s: Seq<char>) -> Option<int> {
    let neg = s.len() > 0 && s[0] == '-';
    let body = if s.len() > 0 && (s[0] == '-' || s[0] == '+') {
        s.skip(1)
    } else {
        s
    };
    if body.len() == 0 || !all_digits(body) {
        None
    } else {
        let v: int = if neg {
            -digits_value(body)
        } else {
            digits_value(body) as int
        };
        if -0x8000_0000 <= v && v < 0x8000_0000 {
            Some(v)
        } else {
            None
        }
    }
}

/// Index of the first element equal to `a` or `b`.
pub open spec fn first_of(s: Seq<char>, a: char, b: char) -> Option<int>
    decreases s.len(),
{
    if s.len() == 0 {
        None
    } else if s[0] == a || s[0] == b {
        Some(0)
    } else {
        match first_of(s.drop_first(), a, b) {
            Some(i) => Some(i + 1),
            None => None,
        }
    }
}

proof fn lemma_first_of(s: Seq<char>, a: char, b: char, i: int)
    requires
        0 <= i <= s.len(),
        forall|j: int| 0 <= j < i ==> s[j] != a && s[j] != b,
    ensures
        i < s.len() && (s[i] == a || s[i] == b) ==> first_of(s, a, b) == Some(i),
        i == s.len() ==> first_of(s, a, b) is None,
    decreases i,
{
    if i > 0 {
        assert forall|j: int| 0 <= j < i - 1 implies s.drop_first()[j] != a && s.drop_first()[j]
            != b by {
            assert(s.drop_first()[j] == s[j + 1]);
        }
        lemma_first_of(s.drop_first(), a, b, i - 1);
    }
}

/// Position of the first `a` or `b` in `s`.
fn find_first(s: &Vec<char>, from: usize, to: usize, a: char, b: char) -> (r: Option<usize>)
    requires
        from <= to <= s@.len(),
    ensures
        match r {
            Some(i) => from <= i < to && first_of(s@.subrange(from as int, to as int), a, b) == Some(
                i - from,
            ),
            None => first_of(s@.subrange(from as int, to as int), a, b) is None,
        },
{
    let ghost sub = s@.subrange(from as int, to as int);
    let mut i = from;
    while i < to
        invariant
            from <= i <= to <= s@.len(),
            sub == s@.subrange(from as int, to as int),
            forall|j: int| 0 <= j < i - from ==> sub[j] != a && sub[j] != b,
        decreases to - i,
    {
        if s[i] == a || s[i] == b {
            proof {
                lemma_first_of(sub, a, b, i - from);
            }
            return Some(i);
        }
        i = i + 1;
    }
    proof {
        lemma_first_of(sub, a, b, i - from);
    }
    None
}

/// Sign of a trimmed number and the text after it.
pub open spec fn split_sign(s: Seq<char>) -> (bool, Seq<char>) {
    (
        s.len() > 0 && s[0] == '-',
        if s.len() > 0 && (s[0] == '-' || s[0] == '+') {
            s.skip(1)
        } else {
            s
        },
    )
}

/// Mantissa text and exponent text (after the first `e`/`E`).
pub open spec fn split_exp(rest: Seq<char>) -> (Seq<char>, Option<Seq<char>>) {
    match first_of(rest, 'e', 'E') {
        Some(i) => (rest.take(i), Some(rest.skip(i + 1))),
        None => (rest, None),
    }
}

/// Integer and fraction digits around the first `.`.
pub open spec fn split_point(mant: Seq<char>) -> (Seq<char>, Seq<char>) {
    match first_of(mant, '.', '.') {
        Some(i) => (mant.take(i), mant.skip(i + 1)),
        None => (mant, Seq::empty()),
    }
}

pub open spec fn exp_value(exp: Option<Seq<char>>) -> Option<int> {
    match exp {
        Some(e) => parse_i32_spec(e),
        None => Some(0),
    }
}

/// `(negative, digits, point_pos)` of the unsigned part `rest` of a number.
pub open spec fn parse_number_spec(negative: bool, rest: Seq<char>) -> Option<(bool, Seq<u8>, int)> {
    let (mant, exp) = split_exp(rest);
    let sci = exp_value(exp);
    let (int_part, frac_part) = split_point(mant);
    if sci is None {
        None
    } else if int_part.len() == 0 && frac_part.len() == 0 {
        None
    } else if !all_digits(int_part) || !all_digits(frac_part) {
        None
    } else {
        Some(
            (
                negative,
                (int_part + frac_part).map_values(|c: char| digit_value(c)),
                int_part.len() + sci->0,
            ),
        )
    }
}

/// `(negative, digits, point_pos)` of a decimal text: `digits` are the integer and
/// fraction digits as written, `point_pos` how many of them stand before the decimal
/// point once any `e`/`E` exponent is applied.
pub open spec fn parse_decimal_spec(input: Seq<char>) -> Option<(bool, Seq<u8>, int)> {
    let (negative, rest) = split_sign(trim_ws(input));
    parse_number_spec(negative, rest)
}

fn all_digits_in(s: &Vec<char>, from: usize, to: usize) -> (r: bool)
    requires
        from <= to <= s@.len(),
    ensures
        r == all_digits(s@.subrange(from as int, to as int)),
{
    let mut i = from;
    while i < to
        invariant
            from <= i <= to <= s@.len(),
            forall|j: int| from <= j < i ==> is_digit_char(s@[j]),
        decreases to - i,
    {
        if !(s[i] >= '0' && s[i] <= '9') {
            assert(!is_digit_char(s@.subrange(from as int, to as int)[i - from]));
            return false;
        }
        i = i + 1;
    }
    assert forall|j: int| 0 <= j < to - from implies is_digit_char(
        #[trigger] s@.subrange(from as int, to as int)[j],
    ) by {
        assert(s@.subrange(from as int, to as int)[j] == s@[from + j]);
    }
    true
}

/// `i32::from_str` on `s[from..to]`.
fn parse_i32(s: &Vec<char>, from: usize, to: usize) -> (r: Option<i64>)
    requires
        from <= to <= s@.len(),
    ensures
        match r {
            Some(v) => parse_i32_spec(s@.subrange(from as int, to as int)) == Some(v as int),
            None => parse_i32_spec(s@.subrange(from as int, to as int)) is None,
        },
{
    let ghost sub = s@.subrange(from as int, to as int);
    let neg = from < to && s[from] == '-';
    let start = if from < to && (s[from] == '-' || s[from] == '+') {
        from + 1
    } else {
        from
    };
    let ghost body = s@.subrange(start as int, to as int);
    assert(body =~= if sub.len() > 0 && (sub[0] == '-' || sub[0] == '+') {
        sub.skip(1)
    } else {
        sub
    });
    if start == to || !all_digits_in(s, start, to) {
        return None;
    }
    let mut acc: u64 = 0;
    let mut big = false;
    let mut i = start;
    while i < to
        invariant
            start <= i <= to <= s@.len(),
            body == s@.subrange(start as int, to as int),
            all_digits(body),
            !big ==> acc == digits_value(s@.subrange(start as int, i as int)) && acc <= 0x8000_0000,
            big ==> digits_value(s@.subrange(start as int, i as int)) > 0x8000_0000,
        decreases to - i,
    {
        assert(s@.subrange(start as int, i + 1).drop_last() =~= s@.subrange(start as int, i as int));
        assert(is_digit_char(body[i - start]));
        let d = (s[i] as u32 - '0' as u32) as u64;
        if !big {
            let next = acc * 10 + d;
            if next > 0x8000_0000 {
                big = true;
            } else {
                acc = next;
            }
        }
        i = i + 1;
    }
    assert(s@.subrange(start as int, to as int) == body);
    if big {
        return None;
    }
    if neg {
        Some(-(acc as i64))
    } else if acc == 0x8000_0000 {
        None
    } else {
        Some(acc as i64)
    }
}

/// Sign and where the unsigned number starts.
fn sign_bounds(chars: &Vec<char>, a: usize, b: usize) -> (r: (bool, usize))
    requires
        a <= b <= chars@.len(),
    ensures
        a <= r.1 <= b,
        split_sign(chars@.subrange(a as int, b as int)) == (r.0, chars@.subrange(
            r.1 as int,
            b as int,
        )),
{
    let ghost s = chars@.subrange(a as int, b as int);
    let negative = a < b && chars[a] == '-';
    let rs = if a < b && (chars[a] == '-' || chars[a] == '+') {
        a + 1
    } else {
        a
    };
    assert(chars@.subrange(rs as int, b as int) =~= split_sign(s).1);
    (negative, rs)
}

/// Where the mantissa ends, and the exponent's value (`None` for a bad exponent).
fn exp_bounds(chars: &Vec<char>, rs: usize, b: usize) -> (r: Option<(usize, i64)>)
    requires
        rs <= b <= chars@.len(),
    ensures
        match r {
            Some((mend, v)) => rs <= mend <= b && split_exp(chars@.subrange(rs as int, b as int)).0
                == chars@.subrange(rs as int, mend as int) && exp_value(
                split_exp(chars@.subrange(rs as int, b as int)).1,
            ) == Some(v as int),
            None => exp_value(split_exp(chars@.subrange(rs as int, b as int)).1) is None,
        },
{
    let ghost rest = chars@.subrange(rs as int, b as int);
    match find_first(chars, rs, b, 'e', 'E') {
        Some(i) => {
            assert(rest.take(i - rs) =~= chars@.subrange(rs as int, i as int));
            assert(rest.skip(i - rs + 1) =~= chars@.subrange(i + 1, b as int));
            match parse_i32(chars, i + 1, b) {
                Some(v) => Some((i, v)),
                None => None,
            }
        },
        None => Some((b, 0i64)),
    }
}

/// Bounds of the integer digits `[rs, r.0)` and the fraction digits `[r.1, mend)`.
fn point_bounds(chars: &Vec<char>, rs: usize, mend: usize) -> (r: (usize, usize))
    requires
        rs <= mend <= chars@.len(),
    ensures
        rs <= r.0 <= r.1 <= mend,
        split_point(chars@.subrange(rs as int, mend as int)) == (chars@.subrange(
            rs as int,
            r.0 as int,
        ), chars@.subrange(r.1 as int, mend as int)),
{
    let ghost mant = chars@.subrange(rs as int, mend as int);
    match find_first(chars, rs, mend, '.', '.') {
        Some(i) => {
            assert(mant.take(i - rs) =~= chars@.subrange(rs as int, i as int));
            assert(mant.skip(i - rs + 1) =~= chars@.subrange(i + 1, mend as int));
            (i, i + 1)
        },
        None => {
            assert(chars@.subrange(mend as int, mend as int) =~= Seq::<char>::empty());
            (mend, mend)
        },
    }
}

/// Appends the digit values of `chars[from..to]` (all decimal digits).
fn push_digit_values(digits: &mut Vec<u8>, chars: &Vec<char>, from: usize, to: usize)
    requires
        from <= to <= chars@.len(),
        all_digits(chars@.subrange(from as int, to as int)),
    ensures
        final(digits)@ == old(digits)@ + chars@.subrange(from as int, to as int).map_values(
            |c: char| digit_value(c),
        ),
{
    let mut i = from;
    while i < to
        invariant
            from <= i <= to <= chars@.len(),
            all_digits(chars@.subrange(from as int, to as int)),
            digits@ == old(digits)@ + chars@.subrange(from as int, i as int).map_values(
                |c: char| digit_value(c),
            ),
        decreases to - i,
    {
        assert(is_digit_char(chars@.subrange(from as int, to as int)[i - from]));
        digits.push((chars[i] as u32 - '0' as u32) as u8);
        i = i + 1;
        assert(digits@ =~= old(digits)@ + chars@.subrange(from as int, i as int).map_values(
            |c: char| digit_value(c),
        ));
    }
}

/// Parse decimal text into `(negative, digits, point_pos)`.
fn parse_decimal(input: &str) -> (r: Option<(bool, Vec<u8>, i128)>)
    ensures
        match r {
            Some((neg, ds, p)) => parse_decimal_spec(input@) == Some((neg, ds@, p as int)) && (
            forall|i: int| 0 <= i < ds@.len() ==> ds@[i] <= 9),
            None => parse_decimal_spec(input@) is None,
        },
{
    let chars = textbuf::chars_of(input);
    let (a, b) = trim_bounds(&chars);
    let (negative, rs) = sign_bounds(&chars, a, b);
    let (mend, sci) = match exp_bounds(&chars, rs, b) {
        Some(t) => t,
        None => {
            return None;
        },
    };
    let (ie, fs) = point_bounds(&chars, rs, mend);
    if ie == rs && fs == mend {
        return None;
    }
    if !all_digits_in(&chars, rs, ie) || !all_digits_in(&chars, fs, mend) {
        return None;
    }
    let mut digits: Vec<u8> = Vec::new();
    push_digit_values(&mut digits, &chars, rs, ie);
    push_digit_values(&mut digits, &chars, fs, mend);
    let ghost ip = chars@.subrange(rs as int, ie as int);
    let ghost fp = chars@.subrange(fs as int, mend as int);
    assert(digits@ =~= (ip + fp).map_values(|c: char| digit_value(c)));
    assert forall|i: int| 0 <= i < digits@.len() implies digits@[i] <= 9 by {
        if i < ip.len() {
            assert(is_digit_char(ip[i]));
        } else {
            assert(is_digit_char(fp[i - ip.len()]));
        }
    }
    let point_pos: i128 = (ie - rs) as i128 + (sci as i128);
    Some((negative, digits, point_pos))
}

/// Add one to a decimal digit string: the digits, and whether it carried out of the top.
pub open spec fn inc_spec(ds: Seq<u8>) -> (Seq<u8>, bool)
    decreases ds.len(),
{
    if ds.len() == 0 {
        (Seq::empty(), true)
    } else if ds.last() == 9 {
        let (p, c) = inc_spec(ds.drop_last());
        (p.push(0u8), c)
    } else {
        (ds.drop_last().push((ds.last() + 1) as u8), false)
    }
}

/// Index of the first non-zero element.
pub open spec fn first_nonzero(ds: Seq<u8>) -> int
    decreases ds.len(),
{
    if ds.len() == 0 || ds[0] != 0 {
        0
    } else {
        first_nonzero(ds.drop_first()) + 1
    }
}

/// The ten mantissa digits and exponent adjustment for significant digits `sig`:
/// the first ten (zero-padded), rounded half-up on the eleventh.
pub open spec fn mantissa_spec(sig: Seq<u8>) -> (Seq<u8>, int) {
    if sig.len() <= 10 {
        (sig + Seq::new((10 - sig.len()) as nat, |i: int| 0u8), 0)
    } else if sig[10] >= 5 {
        let (m, carry) = inc_spec(sig.take(10));
        if carry {
            (seq![1u8].add(Seq::new(9, |i: int| 0u8)), 1)
        } else {
            (m, 0)
        }
    } else {
        (sig.take(10), 0)
    }
}

pub open spec fn pack_spec(d: Seq<u8>) -> Seq<u8> {
    Seq::new(5, |i: int| (d[2 * i] * 16 + d[2 * i + 1]) as u8)
}

/// What [`encode`] produces: `Err(InvalidDecimal)` for text that is no decimal number,
/// all zero bytes for a zero value, `Err(ExponentOutOfRange)` when the normalized
/// exponent leaves `-99..=99`, else exponent, sign and the rounded packed mantissa.
pub open spec fn encode_spec(text: Seq<char>) -> Result<Seq<u8>, BcdError> {
    match parse_decimal_spec(text) {
        None => Err(BcdError::InvalidDecimal),
        Some((negative, digits, point_pos)) => {
            if all_zero(digits) {
                Ok(Seq::new(8, |i: int| 0u8))
            } else {
                let f = first_nonzero(digits);
                let (m, adj) = mantissa_spec(digits.skip(f));
                let exponent = point_pos - f - 1 + adj;
                if exponent < -99 || exponent > 99 {
                    Err(BcdError::ExponentOutOfRange)
                } else {
                    Ok(
                        seq![
                            (if exponent < 0 {
                                exponent + 256
                            } else {
                                exponent
                            }) as u8,
                            if negative {
                                0x80u8
                            } else {
                                0x00u8
                            },
                        ] + pack_spec(m) + seq![0u8],
                    )
                }
            }
        },
    }
}

/// Encode decimal text (plain or scientific, e.g. `"3.14"`, `"-5"`, `"1.5e-10"`) to the
/// 8-byte PC-1500 form, rounding to 10 significant digits, half-up.
pub fn encode(value: &str) -> (r: Result<[u8; 8], BcdError>)
    ensures
        match r {
            Ok(b) => encode_spec(value@) == Ok::<Seq<u8>, BcdError>(b@),
            Err(e) => encode_spec(value@) == Err::<Seq<u8>, BcdError>(e),
        },
{
    let (negative, digits, point_pos) = match parse_decimal(value) {
        Some(t) => t,
        None => {
            return Err(BcdError::InvalidDecimal);
        },
    };
    let mut f: usize = 0;
    assert(digits@.skip(0) =~= digits@);
    while f < digits.len() && digits[f] == 0
        invariant
            f <= digits@.len(),
            forall|j: int| 0 <= j < f ==> digits@[j] == 0,
            first_nonzero(digits@) == first_nonzero(digits@.skip(f as int)) + f,
        decreases digits.len() - f,
    {
        assert(digits@.skip(f as int).drop_first() =~= digits@.skip(f + 1));
        f = f + 1;
    }
    if f == digits.len() {
        assert(all_zero(digits@));
        let out = [0u8; 8];
        assert(out@ =~= Seq::new(8, |i: int| 0u8));
        return Ok(out);
    }
    assert(!all_zero(digits@));
    let ghost sig = digits@.skip(f as int);
    assert(first_nonzero(digits@) == f);
    let n = digits.len() - f;
    let mut m: Vec<u8> = Vec::new();
    let mut k: usize = 0;
    while k < 10
        invariant
            k <= 10,
            n == sig.len(),
            f + n == digits.len(),
            forall|t: int| 0 <= t < digits@.len() ==> digits@[t] <= 9,
            forall|t: int| 0 <= t < m@.len() ==> m@[t] <= 9,
            sig == digits@.skip(f as int),
            m@ == (if n <= 10 {
                sig + Seq::new((10 - n) as nat, |i: int| 0u8)
            } else {
                sig.take(10)
            }).take(k as int),
        decreases 10 - k,
    {
        let d = if k < n {
            digits[f + k]
        } else {
            0u8
        };
        m.push(d);
        k = k + 1;
        assert(m@ =~= (if n <= 10 {
            sig + Seq::new((10 - n) as nat, |i: int| 0u8)
        } else {
            sig.take(10)
        }).take(k as int));
    }
    let mut adj: i128 = 0;
    if n > 10 && digits[f + 10] >= 5 {
        assert(m@ =~= sig.take(10));
        let ghost orig = m@;
        let mut i: usize = 10;
        let mut carry = true;
        while carry && i > 0
            invariant
                i <= 10,
                m@.len() == 10,
                orig.len() == 10,
                forall|t: int| 0 <= t < m@.len() ==> m@[t] <= 9,
                carry ==> m@.take(i as int) == orig.take(i as int) && inc_spec(orig) == (
                inc_spec(orig.take(i as int)).0 + m@.skip(i as int),
                inc_spec(orig.take(i as int)).1,
                ),
                !carry ==> inc_spec(orig) == (m@, false),
            decreases i,
        {
            assert(orig.take(i as int).drop_last() =~= orig.take(i - 1));
            if m[i - 1] == 9 {
                m.set(i - 1, 0);
                assert(m@.skip(i - 1) =~= seq![0u8] + m@.skip(i as int));
                assert(inc_spec(orig.take(i as int)).0 =~= inc_spec(orig.take(i - 1)).0.push(0u8));
                assert(m@.take(i - 1) =~= orig.take(i - 1));
            } else {
                let v = m[i - 1] + 1;
                m.set(i - 1, v);
                carry = false;
                assert(m@ =~= orig.take(i - 1).push(v) + m@.skip(i as int));
            }
            i = i - 1;
        }
        if carry {
            assert(orig.take(0) =~= Seq::<u8>::empty());
            m = Vec::new();
            m.push(1u8);
            let mut z: usize = 0;
            while z < 9
                invariant
                    z <= 9,
                    m@ == seq![1u8].add(Seq::new(z as nat, |i: int| 0u8)),
                decreases 9 - z,
            {
                m.push(0u8);
                z = z + 1;
                assert(m@ =~= seq![1u8].add(Seq::new(z as nat, |i: int| 0u8)));
            }
            adj = 1;
        }
    } else {
        if n > 10 {
            assert(m@ =~= sig.take(10));
        }
    }
    assert(m@.len() == 10);
    assert(forall|t: int| 0 <= t < m@.len() ==> m@[t] <= 9);
    assert((m@, adj as int) == mantissa_spec(sig));
    let exponent: i128 = point_pos - (f as i128) - 1 + adj;
    if exponent < -99 || exponent > 99 {
        return Err(BcdError::ExponentOutOfRange);
    }
    let mut out = [0u8; 8];
    out[0] = if exponent < 0 {
        (exponent + 256) as u8
    } else {
        exponent as u8
    };
    out[1] = if negative {
        0x80u8
    } else {
        0x00u8
    };
    let mut q: usize = 0;
    while q < 5
        invariant
            q <= 5,
            m@.len() == 10,
            forall|t: int| 0 <= t < 10 ==> m@[t] <= 15,
            out@.len() == 8,
            out@[0] == (if exponent < 0 {
                exponent + 256
            } else {
                exponent as int
            }) as u8,
            out@[1] == if negative {
                0x80u8
            } else {
                0x00u8
            },
            out@[7] == 0,
            forall|t: int| 0 <= t < q ==> out@[2 + t] == pack_spec(m@)[t],
        decreases 5 - q,
    {
        out[2 + q] = m[2 * q] * 16 + m[2 * q + 1];
        q = q + 1;
    }
    assert(out@ =~= seq![
        (if exponent < 0 {
            exponent + 256
        } else {
            exponent as int
        }) as u8,
        if negative {
            0x80u8
        } else {
            0x00u8
        },
    ] + pack_spec(m@) + seq![0u8]);
    Ok(out)
}


// ── round trip ──────────────────────────────────────────────────────────

/// A stored value as `encode` writes it: digits 0-9, a non-zero leading digit (or all
/// zero bytes), exponent `-99..=99`, sign byte `00`/`80`, last byte `00`.
pub open spec fn normalized(b: Seq<u8>) -> bool {
    &&& b.len() == 8
    &&& (forall|i: int| 0 <= i < 8 ==> b[i] == 0) || ({
        &&& -99 <= as_i8(b[0]) <= 99
        &&& (b[1] == 0x00 || b[1] == 0x80)
        &&& b[7] == 0
        &&& forall|i: int| 2 <= i < 7 ==> #[trigger] (b[i] / 16) <= 9 && b[i] % 16 <= 9
        &&& b[2] / 16 != 0
    })
}

pub open spec fn dchars(ds: Seq<u8>) -> Seq<char> {
    ds.map_values(|d: u8| digit_char(d as nat))
}

pub open spec fn small_digits(ds: Seq<u8>) -> bool {
    forall|i: int| 0 <= i < ds.len() ==> ds[i] <= 9
}

proof fn lemma_digit_char(k: nat)
    requires
        k < 10,
    ensures
        is_digit_char(digit_char(k)),
        digit_value(digit_char(k)) == k,
        !is_ws(digit_char(k)),
{
    vstd::utf8::char_u32_cast(digit_char(k), (('0' as u32) + k) as u32);
}

proof fn lemma_dchars(ds: Seq<u8>)
    requires
        small_digits(ds),
    ensures
        all_digits(dchars(ds)),
        dchars(ds).map_values(|c: char| digit_value(c)) == ds,
        forall|j: int| 0 <= j < ds.len() ==> dchars(ds)[j] != 'e' && dchars(ds)[j] != 'E'
            && dchars(ds)[j] != '.' && !is_ws(#[trigger] dchars(ds)[j]) && dchars(ds)[j] != '-'
            && dchars(ds)[j] != '+',
{
    assert forall|j: int| 0 <= j < ds.len() implies is_digit_char(#[trigger] dchars(ds)[j])
        && digit_value(dchars(ds)[j]) == ds[j] && !is_ws(dchars(ds)[j]) by {
        lemma_digit_char(ds[j] as nat);
    }
    assert(dchars(ds).map_values(|c: char| digit_value(c)) =~= ds);
}

proof fn lemma_dchars_concat(a: Seq<u8>, b: Seq<u8>)
    ensures
        dchars(a + b) == dchars(a) + dchars(b),
{
    assert(dchars(a + b) =~= dchars(a) + dchars(b));
}

proof fn lemma_digit_text(ds: Seq<u8>)
    requires
        small_digits(ds),
    ensures
        digit_text(ds) == dchars(ds),
    decreases ds.len(),
{
    if ds.len() > 0 {
        lemma_digit_text(ds.drop_last());
        assert(decimal(ds.last() as nat) =~= seq![digit_char(ds.last() as nat)]);
        assert(dchars(ds) =~= dchars(ds.drop_last()) + seq![digit_char(ds.last() as nat)]);
    } else {
        assert(dchars(ds) =~= Seq::<char>::empty());
    }
}

proof fn lemma_decimal_digits(n: nat)
    ensures
        all_digits(decimal(n)),
        digits_value(decimal(n)) == n,
        decimal(n).len() > 0,
    decreases n,
{
    lemma_digit_char(n % 10);
    let s = decimal(n);
    assert(digits_value(s) == digits_value(s.drop_last()) * 10 + digit_value(s.last()) as nat);
    if n >= 10 {
        lemma_decimal_digits(n / 10);
        let d = decimal(n / 10);
        assert(s.drop_last() =~= d);
        assert(s.last() == digit_char(n % 10));
        assert(digits_value(s) == (n / 10) * 10 + n % 10);
    } else {
        assert(s =~= seq![digit_char(n)]);
        assert(s.drop_last() =~= Seq::<char>::empty());
        assert(digits_value(s.drop_last()) == 0);
    }
}

proof fn lemma_last_nonzero(ds: Seq<u8>)
    requires
        exists|i: int| 0 <= i < ds.len() && ds[i] != 0,
    ensures
        0 <= last_nonzero(ds) < ds.len(),
        ds[last_nonzero(ds)] != 0,
        forall|j: int| last_nonzero(ds) < j < ds.len() ==> ds[j] == 0,
    decreases ds.len(),
{
    if ds.last() == 0 {
        let i = choose|i: int| 0 <= i < ds.len() && ds[i] != 0;
        assert(ds.drop_last()[i] != 0);
        lemma_last_nonzero(ds.drop_last());
        assert forall|j: int| last_nonzero(ds) < j < ds.len() implies ds[j] == 0 by {
            if j < ds.len() - 1 {
                assert(ds.drop_last()[j] == ds[j]);
            }
        }
    }
}

proof fn lemma_first_nonzero_skip(z: Seq<u8>, x: Seq<u8>)
    requires
        forall|i: int| 0 <= i < z.len() ==> z[i] == 0,
        x.len() > 0,
        x[0] != 0,
    ensures
        first_nonzero(z + x) == z.len(),
    decreases z.len(),
{
    if z.len() > 0 {
        assert((z + x).drop_first() =~= z.drop_first() + x);
        lemma_first_nonzero_skip(z.drop_first(), x);
    } else {
        assert(z + x =~= x);
    }
}

proof fn lemma_first_at(s: Seq<char>, a: char, b: char, i: int)
    requires
        0 <= i < s.len(),
        s[i] == a || s[i] == b,
        forall|j: int| 0 <= j < i ==> s[j] != a && s[j] != b,
    ensures
        first_of(s, a, b) == Some(i),
{
    lemma_first_of(s, a, b, i);
}

proof fn lemma_first_none(s: Seq<char>, a: char, b: char)
    requires
        forall|j: int| 0 <= j < s.len() ==> s[j] != a && s[j] != b,
    ensures
        first_of(s, a, b) is None,
{
    lemma_first_of(s, a, b, s.len() as int);
}

proof fn lemma_sign_split(neg: bool, body: Seq<char>)
    requires
        body.len() > 0,
        !is_ws(body[0]),
        body[0] != '-',
        body[0] != '+',
        !is_ws(body.last()),
    ensures
        split_sign(trim_ws(sign_text(neg) + body)) == (neg, body),
{
    let t = sign_text(neg) + body;
    assert(t.last() == body.last());
    assert(!is_ws(t[0]));
    assert(trim_start_ws(t) == t);
    assert(trim_end_ws(t) == t);
    if neg {
        assert(t.skip(1) =~= body);
    } else {
        assert(t =~= body);
    }
}

/// A run of digits parses to those digits, all before the point.
proof fn lemma_parse_digits(neg: bool, ds: Seq<u8>)
    requires
        ds.len() > 0,
        small_digits(ds),
    ensures
        parse_number_spec(neg, dchars(ds)) == Some((neg, ds, ds.len() as int)),
{
    let body = dchars(ds);
    lemma_dchars(ds);
    lemma_first_none(body, 'e', 'E');
    lemma_first_none(body, '.', '.');
    assert(all_digits(Seq::<char>::empty()));
    assert(body + Seq::<char>::empty() =~= body);
}

/// `ip.fp` parses to the digits of both, `ip.len()` before the point.
proof fn lemma_parse_point(neg: bool, ip: Seq<u8>, fp: Seq<u8>)
    requires
        ip.len() > 0,
        small_digits(ip),
        small_digits(fp),
    ensures
        parse_number_spec(neg, dchars(ip) + seq!['.'] + dchars(fp)) == Some(
            (neg, ip + fp, ip.len() as int),
        ),
{
    let body = dchars(ip) + seq!['.'] + dchars(fp);
    lemma_dchars(ip);
    lemma_dchars(fp);
    assert forall|j: int| 0 <= j < body.len() implies body[j] != 'e' && body[j] != 'E' by {
        if j < ip.len() {
            assert(body[j] == dchars(ip)[j]);
        } else if j > ip.len() {
            assert(body[j] == dchars(fp)[j - ip.len() - 1]);
        }
    }
    lemma_first_none(body, 'e', 'E');
    let k = ip.len() as int;
    assert forall|j: int| 0 <= j < k implies body[j] != '.' && body[j] != '.' by {
        assert(body[j] == dchars(ip)[j]);
    }
    lemma_first_at(body, '.', '.', k);
    assert(body.take(k) =~= dchars(ip));
    assert(body.skip(k + 1) =~= dchars(fp));
    lemma_dchars_concat(ip, fp);
    lemma_dchars(ip + fp);
}

/// Appending `E<sign><digits>` shifts the point by that exponent.
#[verifier::spinoff_prover]
#[verifier::rlimit(80)]
proof fn lemma_parse_exp(neg: bool, mant: Seq<char>, e: int)
    requires
        forall|j: int| 0 <= j < mant.len() ==> mant[j] != 'e' && mant[j] != 'E',
        -128 <= e <= 127,
    ensures
        ({
            let et = if e >= 0 {
                seq!['+'] + decimal(e as nat)
            } else {
                seq!['-'] + decimal((-e) as nat)
            };
            match parse_number_spec(neg, mant) {
                Some((n, ds, pp)) => parse_number_spec(neg, mant + seq!['E'] + et) == Some(
                    (n, ds, pp + e),
                ),
                None => true,
            }
        }),
{
    let a: nat = if e >= 0 {
        e as nat
    } else {
        (-e) as nat
    };
    let et = if e >= 0 {
        seq!['+'] + decimal(a)
    } else {
        seq!['-'] + decimal(a)
    };
    let body = mant + seq!['E'] + et;
    lemma_decimal_digits(a);
    let k = mant.len() as int;
    assert forall|j: int| 0 <= j < k implies body[j] != 'e' && body[j] != 'E' by {
        assert(body[j] == mant[j]);
    }
    lemma_first_at(body, 'e', 'E', k);
    assert(body.take(k) =~= mant);
    assert(body.skip(k + 1) =~= et);
    assert(et.skip(1) =~= decimal(a));
    assert(parse_i32_spec(et) == Some(e));
    lemma_first_none(mant, 'e', 'E');
}

/// The digits, point position and first-non-zero index produced by the text of a
/// normalized value: parsing gives the mantissa back with the value's exponent.
pub open spec fn parses_back(t: Seq<char>, digits: Seq<u8>, e: int, neg: bool) -> bool {
    match parse_decimal_spec(t) {
        Some((n2, ds, pp)) => {
            &&& n2 == neg
            &&& !all_zero(ds)
            &&& pp - first_nonzero(ds) - 1 == e
            &&& mantissa_spec(ds.skip(first_nonzero(ds))) == (digits, 0int)
        },
        None => false,
    }
}

proof fn lemma_mantissa_pad(sig: Seq<u8>, digits: Seq<u8>, z: Seq<u8>)
    requires
        sig.len() + z.len() <= 10,
        digits.len() == 10,
        forall|i: int| 0 <= i < z.len() ==> z[i] == 0,
        digits.take(sig.len() as int) == sig,
        forall|j: int| sig.len() <= j < 10 ==> digits[j] == 0,
    ensures
        mantissa_spec(sig + z) == (digits, 0int),
{
    assert((sig + z) + Seq::new((10 - (sig + z).len()) as nat, |i: int| 0u8) =~= digits);
}

proof fn lemma_nonzero_digits(ds: Seq<u8>, i: int)
    requires
        0 <= i < ds.len(),
        ds[i] != 0,
    ensures
        !all_zero(ds),
{
}

#[verifier::spinoff_prover]
#[verifier::rlimit(80)]
proof fn lemma_plain_back(digits: Seq<u8>, e: int, neg: bool)
    requires
        digits.len() == 10,
        small_digits(digits),
        digits[0] != 0,
        -4 <= e <= 9,
    ensures
        parses_back(plain_decimal_spec(digits.take(last_nonzero(digits) + 1), e + 1, neg), digits, e, neg),
{
    lemma_last_nonzero(digits);
    let L = last_nonzero(digits);
    let sig = digits.take(L + 1);
    let n = sig.len() as int;
    let p = e + 1;
    assert(small_digits(sig));
    lemma_digit_text(sig);
    let t = plain_decimal_spec(sig, p, neg);
    if p <= 0 {
        let zd = Seq::new((-p) as nat, |i: int| 0u8);
        assert(small_digits(zd));
        assert(small_digits(zd + sig));
        assert(dchars(zd) =~= zero_run((-p) as nat));
        lemma_dchars_concat(zd, sig);
        assert(dchars(seq![0u8]) =~= seq!['0']);
        let body = dchars(seq![0u8]) + seq!['.'] + dchars(zd + sig);
        assert(t =~= sign_text(neg) + body);
        lemma_dchars(zd + sig);
        lemma_digit_char(0);
        lemma_sign_split(neg, body);
        lemma_parse_point(neg, seq![0u8], zd + sig);
        let ds = seq![0u8] + (zd + sig);
        let zz = seq![0u8] + zd;
        assert(ds =~= zz + sig);
        lemma_first_nonzero_skip(zz, sig);
        assert(ds.skip(zz.len() as int) =~= sig);
        lemma_mantissa_pad(sig, digits, Seq::empty());
        assert(sig + Seq::<u8>::empty() =~= sig);
        lemma_nonzero_digits(ds, zz.len() as int);
    } else if p >= n {
        let zd = Seq::new((p - n) as nat, |i: int| 0u8);
        assert(small_digits(sig + zd));
        assert(dchars(zd) =~= zero_run((p - n) as nat));
        lemma_dchars_concat(sig, zd);
        let body = dchars(sig + zd);
        assert(t =~= sign_text(neg) + body);
        lemma_dchars(sig + zd);
        assert(sig.last() == digits[L]);
        assert(body.last() == dchars(sig + zd)[(sig + zd).len() - 1]);
        lemma_sign_split(neg, body);
        lemma_parse_digits(neg, sig + zd);
        lemma_first_nonzero_skip(Seq::<u8>::empty(), sig + zd);
        assert(Seq::<u8>::empty() + (sig + zd) =~= sig + zd);
        assert((sig + zd).skip(0) =~= sig + zd);
        lemma_mantissa_pad(sig, digits, zd);
        lemma_nonzero_digits(sig + zd, 0);
    } else {
        let a = sig.take(p);
        let b = sig.skip(p);
        assert(small_digits(a));
        assert(small_digits(b));
        lemma_digit_text(a);
        lemma_digit_text(b);
        let body = dchars(a) + seq!['.'] + dchars(b);
        assert(t =~= sign_text(neg) + body);
        lemma_dchars(a);
        lemma_dchars(b);
        assert(body.last() == dchars(b)[b.len() - 1]);
        lemma_sign_split(neg, body);
        lemma_parse_point(neg, a, b);
        assert(a + b =~= sig);
        lemma_first_nonzero_skip(Seq::<u8>::empty(), sig);
        assert(Seq::<u8>::empty() + sig =~= sig);
        assert(sig.skip(0) =~= sig);
        lemma_mantissa_pad(sig, digits, Seq::empty());
        assert(sig + Seq::<u8>::empty() =~= sig);
        lemma_nonzero_digits(sig, 0);
    }
}

#[verifier::spinoff_prover]
#[verifier::rlimit(80)]
proof fn lemma_scientific_back(digits: Seq<u8>, e: int, neg: bool)
    requires
        digits.len() == 10,
        small_digits(digits),
        digits[0] != 0,
        -128 <= e <= 127,
    ensures
        parses_back(scientific_spec(digits.take(last_nonzero(digits) + 1), e, neg), digits, e, neg),
{
    lemma_last_nonzero(digits);
    let L = last_nonzero(digits);
    let sig = digits.take(L + 1);
    let n = sig.len() as int;
    let first = seq![sig[0]];
    let rest = sig.skip(1);
    assert(small_digits(first));
    assert(small_digits(rest));
    lemma_digit_text(rest);
    assert(decimal(sig[0] as nat) =~= dchars(first));
    let mant = if n == 1 {
        dchars(first)
    } else {
        dchars(first) + seq!['.'] + dchars(rest)
    };
    let a: nat = if e >= 0 {
        e as nat
    } else {
        (-e) as nat
    };
    let et = if e >= 0 {
        seq!['+'] + decimal(a)
    } else {
        seq!['-'] + decimal(a)
    };
    let body = mant + seq!['E'] + et;
    let t = scientific_spec(sig, e, neg);
    assert(t =~= sign_text(neg) + body);
    lemma_dchars(first);
    lemma_dchars(rest);
    lemma_decimal_digits(a);
    assert(is_digit_char(decimal(a).last()));
    assert(body.last() == decimal(a).last());
    assert(!is_ws(body.last()));
    assert(body[0] == dchars(first)[0]);
    lemma_sign_split(neg, body);
    if n == 1 {
        lemma_parse_digits(neg, first);
        assert(first =~= sig);
    } else {
        assert forall|j: int| 0 <= j < mant.len() implies mant[j] != 'e' && mant[j] != 'E' by {
            if j > 1 {
                assert(mant[j] == dchars(rest)[j - 2]);
            }
        }
        lemma_parse_point(neg, first, rest);
        assert(first + rest =~= sig);
    }
    lemma_parse_exp(neg, mant, e);
    lemma_first_nonzero_skip(Seq::<u8>::empty(), sig);
    assert(Seq::<u8>::empty() + sig =~= sig);
    assert(sig.skip(0) =~= sig);
    lemma_mantissa_pad(sig, digits, Seq::empty());
    assert(sig + Seq::<u8>::empty() =~= sig);
    lemma_nonzero_digits(sig, 0);
}

proof fn lemma_pack_unpack(b: Seq<u8>)
    requires
        b.len() == 5,
        forall|i: int| 0 <= i < 5 ==> #[trigger] (b[i] / 16) <= 9 && b[i] % 16 <= 9,
    ensures
        pack_spec(unpack_spec(b)) == b,
        forall|i: int| 0 <= i < 10 ==> unpack_spec(b)[i] <= 9,
{
    assert forall|i: int| 0 <= i < 5 implies pack_spec(unpack_spec(b))[i] == b[i] by {
        assert(b[i] / 16 <= 9);
        assert(unpack_spec(b)[2 * i] == b[i] / 16);
        assert(unpack_spec(b)[2 * i + 1] == b[i] % 16);
    }
    assert forall|i: int| 0 <= i < 10 implies unpack_spec(b)[i] <= 9 by {
        assert(b[i / 2] / 16 <= 9);
    }
    assert(pack_spec(unpack_spec(b)) =~= b);
}

/// Encoding the text that [`decode`] gives for a normalized value reproduces the value's
/// bytes exactly: decode and encode are inverse on everything `encode` can produce.
#[verifier::spinoff_prover]
#[verifier::rlimit(80)]
pub proof fn lemma_decode_encode_roundtrip(b: Seq<u8>)
    requires
        normalized(b),
    ensures
        decode_spec(b) matches Some(t) && encode_spec(t) == Ok::<Seq<u8>, BcdError>(b),
{
    if forall|i: int| 0 <= i < 8 ==> b[i] == 0 {
        assert(unpack_spec(b.subrange(2, 7)) =~= Seq::new(10, |i: int| 0u8));
        assert(all_zero(unpack_spec(b.subrange(2, 7))));
        let t = seq!['0'];
        lemma_digit_char(0);
        assert(t =~= sign_text(false) + dchars(seq![0u8]));
        lemma_dchars(seq![0u8]);
        lemma_sign_split(false, dchars(seq![0u8]));
        lemma_parse_digits(false, seq![0u8]);
        assert(all_zero(seq![0u8]));
        assert(Seq::new(8, |i: int| 0u8) =~= b);
    } else {
        let m = b.subrange(2, 7);
        lemma_pack_unpack(m);
        let digits = unpack_spec(m);
        assert(b[2] / 16 != 0);
        assert(digits[0] == b[2] / 16);
        lemma_nonzero_digits(digits, 0);
        let e = as_i8(b[0]);
        let neg = b[1] == 0x80;
        if -4 <= e && e <= 9 {
            lemma_plain_back(digits, e, neg);
        } else {
            lemma_scientific_back(digits, e, neg);
        }
        let t = format_value_spec(digits, e, neg);
        assert(parses_back(t, digits, e, neg));
        assert(seq![b[0], b[1]] + pack_spec(digits) + seq![0u8] =~= b);
    }
}

// ── what encode produces ────────────────────────────────────────────────

proof fn lemma_parsed_small(text: Seq<char>)
    ensures
        parse_decimal_spec(text) matches Some((n, ds, p)) ==> small_digits(ds),
{
    let (negative, rest) = split_sign(trim_ws(text));
    let (mant, exp) = split_exp(rest);
    let (ip, fp) = split_point(mant);
    if parse_decimal_spec(text) is Some {
        let cs = ip + fp;
        assert forall|i: int| 0 <= i < cs.len() implies is_digit_char(#[trigger] cs[i]) by {
            if i < ip.len() {
                assert(cs[i] == ip[i]);
            } else {
                assert(cs[i] == fp[i - ip.len()]);
            }
        }
        let ds = cs.map_values(|c: char| digit_value(c));
        assert forall|i: int| 0 <= i < ds.len() implies ds[i] <= 9 by {
            assert(is_digit_char(cs[i]));
        }
    }
}

proof fn lemma_first_nz(ds: Seq<u8>)
    requires
        !all_zero(ds),
    ensures
        0 <= first_nonzero(ds) < ds.len(),
        ds[first_nonzero(ds)] != 0,
    decreases ds.len(),
{
    if ds[0] == 0 {
        assert(!all_zero(ds.drop_first())) by {
            let i = choose|i: int| 0 <= i < ds.len() && ds[i] != 0;
            assert(ds.drop_first()[i - 1] == ds[i]);
        }
        lemma_first_nz(ds.drop_first());
    }
}

proof fn lemma_inc_small(ds: Seq<u8>)
    requires
        small_digits(ds),
    ensures
        inc_spec(ds).0.len() == ds.len(),
        small_digits(inc_spec(ds).0),
        !inc_spec(ds).1 && ds.len() > 0 && ds[0] != 0 ==> inc_spec(ds).0[0] != 0,
    decreases ds.len(),
{
    if ds.len() > 0 {
        let p = ds.drop_last();
        assert(small_digits(p)) by {
            assert forall|i: int| 0 <= i < p.len() implies p[i] <= 9 by {
                assert(p[i] == ds[i]);
            }
        }
        lemma_inc_small(p);
        let r = inc_spec(ds).0;
        if ds.last() == 9 {
            assert forall|i: int| 0 <= i < r.len() implies r[i] <= 9 by {
                if i < p.len() {
                    assert(r[i] == inc_spec(p).0[i]);
                }
            }
            if ds.len() == 1 {
                assert(inc_spec(p).1);
            } else {
                assert(p[0] == ds[0]);
                assert(r[0] == inc_spec(p).0[0]);
            }
        } else {
            assert(ds[ds.len() - 1] <= 9);
            assert forall|i: int| 0 <= i < r.len() implies r[i] <= 9 by {
                if i < p.len() {
                    assert(r[i] == ds[i]);
                }
            }
        }
    }
}

proof fn lemma_mantissa_small(sig: Seq<u8>)
    requires
        small_digits(sig),
        sig.len() > 0,
        sig[0] != 0,
    ensures
        mantissa_spec(sig).0.len() == 10,
        small_digits(mantissa_spec(sig).0),
        mantissa_spec(sig).0[0] != 0,
{
    let m = mantissa_spec(sig).0;
    if sig.len() <= 10 {
        let z = Seq::new((10 - sig.len()) as nat, |i: int| 0u8);
        assert forall|i: int| 0 <= i < m.len() implies m[i] <= 9 by {
            if i < sig.len() {
                assert(m[i] == sig[i]);
            }
        }
    } else {
        let t = sig.take(10);
        assert(small_digits(t)) by {
            assert forall|i: int| 0 <= i < t.len() implies t[i] <= 9 by {
                assert(t[i] == sig[i]);
            }
        }
        lemma_inc_small(t);
        if sig[10] >= 5 && inc_spec(t).1 {
            let one = seq![1u8].add(Seq::new(9, |i: int| 0u8));
            assert forall|i: int| 0 <= i < one.len() implies one[i] <= 9 by {}
        } else if sig[10] < 5 {
            assert(m == t);
        }
    }
}

proof fn lemma_nibbles(a: u8, c: u8)
    requires
        a <= 9,
        c <= 9,
    ensures
        ((a * 16 + c) as u8) / 16 == a,
        ((a * 16 + c) as u8) % 16 == c,
{
    assert(((a * 16 + c) as u8) / 16 == a && ((a * 16 + c) as u8) % 16 == c) by (bit_vector)
        requires
            a <= 9,
            c <= 9,
    ;
}

/// What `encode` produces is a normalized value: digits 0-9, a non-zero leading digit
/// (or all zero bytes), an exponent in `-99..=99`, sign byte `00`/`80` and last byte `00`.
pub proof fn lemma_encode_normalized(text: Seq<char>)
    ensures
        encode_spec(text) matches Ok(b) ==> normalized(b),
{
    if let Some((negative, digits, point_pos)) = parse_decimal_spec(text) {
        lemma_parsed_small(text);
        if all_zero(digits) {
            let b = Seq::new(8, |i: int| 0u8);
            assert(forall|i: int| 0 <= i < 8 ==> b[i] == 0);
        } else {
            let f = first_nonzero(digits);
            lemma_first_nz(digits);
            let sig = digits.skip(f);
            assert(small_digits(sig)) by {
                assert forall|i: int| 0 <= i < sig.len() implies sig[i] <= 9 by {
                    assert(sig[i] == digits[i + f]);
                }
            }
            assert(sig[0] == digits[f]);
            lemma_mantissa_small(sig);
            let (m, adj) = mantissa_spec(sig);
            let exponent = point_pos - f - 1 + adj;
            if -99 <= exponent <= 99 {
                let eb: u8 = (if exponent < 0 {
                    exponent + 256
                } else {
                    exponent
                }) as u8;
                let b = seq![eb, if negative { 0x80u8 } else { 0x00u8 }] + pack_spec(m) + seq![0u8];
                assert(as_i8(eb) == exponent);
                assert forall|i: int| 2 <= i < 7 implies #[trigger] (b[i] / 16) <= 9 && b[i] % 16 <= 9 by {
                    assert(b[i] == pack_spec(m)[i - 2]);
                    lemma_nibbles(m[2 * (i - 2)], m[2 * (i - 2) + 1]);
                }
                lemma_nibbles(m[0], m[1]);
                assert(b[2] == pack_spec(m)[0]);
                assert(b[7] == 0);
                assert(b.len() == 8);
            }
        }
    }
}

/// How `t` (a decimal text without sign or exponent) parses: its digits with the point
/// after the digits before the `.`.
proof fn lemma_parse_plain(t: Seq<char>, k: int)
    requires
        0 <= k < t.len(),
        t[k] == '.',
        forall|j: int| 0 <= j < t.len() && j != k ==> is_digit_char(#[trigger] t[j]),
        t.len() >= 2,
    ensures
        parse_decimal_spec(t) == Some(
            (
                false,
                (t.take(k) + t.skip(k + 1)).map_values(|c: char| digit_value(c)),
                k,
            ),
        ),
{
    assert(!is_ws(t[0])) by {
        if k != 0 {
            assert(is_digit_char(t[0]));
        }
    }
    assert(!is_ws(t.last())) by {
        if k != t.len() - 1 {
            assert(is_digit_char(t[t.len() - 1]));
        }
    }
    assert(trim_start_ws(t) == t);
    assert(trim_end_ws(t) == t);
    assert(t[0] != '-' && t[0] != '+') by {
        if k != 0 {
            assert(is_digit_char(t[0]));
        }
    }
    assert forall|j: int| 0 <= j < t.len() implies t[j] != 'e' && t[j] != 'E' by {
        if j != k {
            assert(is_digit_char(t[j]));
        }
    }
    lemma_first_none(t, 'e', 'E');
    assert forall|j: int| 0 <= j < k implies t[j] != '.' && t[j] != '.' by {
        assert(is_digit_char(t[j]));
    }
    lemma_first_at(t, '.', '.', k);
    assert(all_digits(t.take(k))) by {
        assert forall|j: int| 0 <= j < t.take(k).len() implies is_digit_char(#[trigger] t.take(k)[j]) by {
            assert(t.take(k)[j] == t[j]);
        }
    }
    assert(all_digits(t.skip(k + 1))) by {
        assert forall|j: int| 0 <= j < t.skip(k + 1).len() implies is_digit_char(#[trigger] t.skip(k + 1)[j]) by {
            assert(t.skip(k + 1)[j] == t[j + k + 1]);
        }
    }
}

/// A fraction written without its leading zero is the same number: `.d…` encodes as
/// `0.d…` does (the point stands before the first digit, not after the last).
pub proof fn lemma_encode_leading_point(ds: Seq<char>)
    requires
        ds.len() > 0,
        all_digits(ds),
    ensures
        encode_spec(seq!['.'] + ds) == encode_spec(seq!['0', '.'] + ds),
{
    let t1 = seq!['.'] + ds;
    let t2 = seq!['0', '.'] + ds;
    assert forall|j: int| 0 <= j < t1.len() && j != 0 implies is_digit_char(#[trigger] t1[j]) by {
        assert(t1[j] == ds[j - 1]);
    }
    assert forall|j: int| 0 <= j < t2.len() && j != 1 implies is_digit_char(#[trigger] t2[j]) by {
        if j > 1 {
            assert(t2[j] == ds[j - 2]);
        }
    }
    lemma_parse_plain(t1, 0);
    lemma_parse_plain(t2, 1);
    let d1 = (t1.take(0) + t1.skip(1)).map_values(|c: char| digit_value(c));
    let d2 = (t2.take(1) + t2.skip(2)).map_values(|c: char| digit_value(c));
    assert(t1.take(0) + t1.skip(1) =~= ds);
    assert(t2.take(1) + t2.skip(2) =~= seq!['0'] + ds);
    assert(d2 =~= seq![0u8] + d1);
    assert(d2[0] == 0);
    assert(d2.drop_first() =~= d1);
    if all_zero(d1) {
        assert(all_zero(d2));
    } else {
        assert(!all_zero(d2)) by {
            let i = choose|i: int| 0 <= i < d1.len() && d1[i] != 0;
            assert(d2[i + 1] == d1[i]);
        }
        assert(first_nonzero(d2) == first_nonzero(d1) + 1);
        lemma_first_nz(d1);
        assert(d2.skip(first_nonzero(d2)) =~= d1.skip(first_nonzero(d1)));
    }
}

/// No character of `s` is an exponent mark.
pub open spec fn no_exponent_mark(s: Seq<char>) -> bool {
    forall|i: int| 0 <= i < s.len() ==> #[trigger] s[i] != 'E'
}

proof fn lemma_digit_text_digits(ds: Seq<u8>)
    ensures
        all_digits(digit_text(ds)),
    decreases ds.len(),
{
    if ds.len() > 0 {
        lemma_digit_text_digits(ds.drop_last());
        lemma_decimal_digits(ds.last() as nat);
        let a = digit_text(ds.drop_last());
        let d = decimal(ds.last() as nat);
        assert forall|i: int| 0 <= i < digit_text(ds).len() implies is_digit_char(#[trigger] digit_text(ds)[i]) by {
            if i < a.len() {
                assert(digit_text(ds)[i] == a[i]);
            } else {
                assert(digit_text(ds)[i] == d[i - a.len()]);
            }
        }
    }
}

proof fn lemma_plain_no_mark(sig: Seq<u8>, point_pos: int, negative: bool)
    ensures
        no_exponent_mark(plain_decimal_spec(sig, point_pos, negative)),
{
    let n = sig.len() as int;
    lemma_digit_text_digits(sig);
    let t = plain_decimal_spec(sig, point_pos, negative);
    let sg = sign_text(negative);
    if point_pos <= 0 {
        let z = zero_run((-point_pos) as nat);
        let d = digit_text(sig);
        assert forall|i: int| 0 <= i < t.len() implies #[trigger] t[i] != 'E' by {
            if i < sg.len() {
                assert(t[i] == '-');
            } else if i < sg.len() + 2 {
            } else if i < sg.len() + 2 + z.len() {
                assert(t[i] == z[i - sg.len() - 2]);
            } else {
                assert(t[i] == d[i - sg.len() - 2 - z.len()]);
                assert(is_digit_char(d[i - sg.len() - 2 - z.len()]));
            }
        }
    } else if point_pos >= n {
        let z = zero_run((point_pos - n) as nat);
        let d = digit_text(sig);
        assert forall|i: int| 0 <= i < t.len() implies #[trigger] t[i] != 'E' by {
            if i < sg.len() {
                assert(t[i] == '-');
            } else if i < sg.len() + d.len() {
                assert(t[i] == d[i - sg.len()]);
                assert(is_digit_char(d[i - sg.len()]));
            } else {
                assert(t[i] == z[i - sg.len() - d.len()]);
            }
        }
    } else {
        lemma_digit_text_digits(sig.take(point_pos));
        lemma_digit_text_digits(sig.skip(point_pos));
        let a = digit_text(sig.take(point_pos));
        let c = digit_text(sig.skip(point_pos));
        assert forall|i: int| 0 <= i < t.len() implies #[trigger] t[i] != 'E' by {
            if i < sg.len() {
                assert(t[i] == '-');
            } else if i < sg.len() + a.len() {
                assert(t[i] == a[i - sg.len()]);
                assert(is_digit_char(a[i - sg.len()]));
            } else if i == sg.len() + a.len() {
                assert(t[i] == '.');
            } else {
                assert(t[i] == c[i - sg.len() - a.len() - 1]);
                assert(is_digit_char(c[i - sg.len() - a.len() - 1]));
            }
        }
    }
}

/// `decode` writes a value in plain fixed-point exactly when its exponent is within
/// `-4..=9`, and with an `E` exponent otherwise.
pub proof fn lemma_decode_notation(b: Seq<u8>)
    requires
        b.len() == 8,
        b[4] != 0xB2,
        !all_zero(unpack_spec(b.subrange(2, 7))),
    ensures
        decode_spec(b) matches Some(t) && (no_exponent_mark(t) <==> -4 <= as_i8(b[0]) <= 9),
{
    let digits = unpack_spec(b.subrange(2, 7));
    let e = as_i8(b[0]);
    let neg = b[1] == 0x80;
    let sig = digits.take(last_nonzero(digits) + 1);
    let t = format_value_spec(digits, e, neg);
    if -4 <= e <= 9 {
        lemma_plain_no_mark(sig, e + 1, neg);
    } else {
        let mantissa = if sig.len() == 1 {
            decimal(sig[0] as nat)
        } else {
            decimal(sig[0] as nat) + seq!['.'] + digit_text(sig.skip(1))
        };
        let k: int = sign_text(neg).len() as int + mantissa.len() as int;
        assert(t[k] == 'E');
    }
}

/// A leading minus only sets the sign byte: `-t` encodes as `t` does, with byte 1 `80`
/// in place of `00`, except for a zero value, which stays all zero bytes; and `-t`
/// fails exactly as `t` does.
pub proof fn lemma_encode_negative(t: Seq<char>)
    requires
        t.len() > 0,
        !is_ws(t[0]),
        !is_ws(t.last()),
        t[0] != '-' && t[0] != '+',
    ensures
        encode_spec(t) is Err ==> encode_spec(seq!['-'] + t) == encode_spec(t),
        encode_spec(t) matches Ok(b) ==> b[1] == 0x00 && encode_spec(seq!['-'] + t) == Ok::<Seq<u8>, BcdError>(
            if b[2] == 0 {
                b
            } else {
                b.update(1, 0x80u8)
            },
        ),
{
    let n = seq!['-'] + t;
    assert(trim_start_ws(t) == t);
    assert(trim_end_ws(t) == t);
    assert(trim_start_ws(n) == n);
    assert(n.last() == t.last());
    assert(trim_end_ws(n) == n);
    assert(n.skip(1) =~= t);
    assert(parse_decimal_spec(n) == parse_number_spec(true, t));
    assert(parse_decimal_spec(t) == parse_number_spec(false, t));
    lemma_parsed_small(t);
    if let Some((neg, digits, pp)) = parse_decimal_spec(t) {
        if !all_zero(digits) {
            let f = first_nonzero(digits);
            lemma_first_nz(digits);
            let sig = digits.skip(f);
            assert(small_digits(sig)) by {
                assert forall|i: int| 0 <= i < sig.len() implies sig[i] <= 9 by {
                    assert(sig[i] == digits[i + f]);
                }
            }
            assert(sig[0] == digits[f]);
            lemma_mantissa_small(sig);
            let m = mantissa_spec(sig).0;
            lemma_nibbles(m[0], m[1]);
            if let Ok(b) = encode_spec(t) {
                assert(b[2] == pack_spec(m)[0]);
                assert(b[2] != 0);
                let c = encode_spec(n)->Ok_0;
                assert(c =~= b.update(1, 0x80u8));
            }
        }
    }
}

proof fn lemma_first_nonzero_at(ds: Seq<u8>, f: int)
    requires
        0 <= f < ds.len(),
        forall|j: int| 0 <= j < f ==> ds[j] == 0,
        ds[f] != 0,
    ensures
        first_nonzero(ds) == f,
    decreases f,
{
    if f > 0 {
        assert(ds[0] == 0);
        let r = ds.drop_first();
        assert forall|j: int| 0 <= j < f - 1 implies r[j] == 0 by {
            assert(r[j] == ds[j + 1]);
        }
        lemma_first_nonzero_at(r, f - 1);
    }
}

/// Where the point stands sets the exponent: for digits `a`, a point, digits `b`, whose
/// first non-zero digit is at `f` (counting the digits of `a` then `b`) and which have at
/// most ten significant digits, the exponent is `a.len() - f - 1`, the sign byte is `00`,
/// and the mantissa holds the significant digits, zero-padded to ten.
pub proof fn lemma_encode_point_exponent(a: Seq<char>, b: Seq<char>, f: int)
    requires
        all_digits(a),
        all_digits(b),
        0 <= f < a.len() + b.len(),
        forall|j: int| 0 <= j < f ==> #[trigger] (a + b)[j] == '0',
        (a + b)[f] != '0',
        a.len() + b.len() - f <= 10,
        a.len() - f - 1 >= -99,
    ensures
        encode_spec(a + seq!['.'] + b) matches Ok(p) && as_i8(p[0]) == a.len() - f - 1 && p[1] == 0x00
            && forall|i: int| 0 <= i < 10 ==> #[trigger] unpack_spec(p.subrange(2, 7))[i] == if f + i < a.len()
            + b.len() {
            digit_value((a + b)[f + i])
        } else {
            0u8
        },
{
    let t = a + seq!['.'] + b;
    let k = a.len() as int;
    let ab = a + b;
    assert forall|j: int| 0 <= j < t.len() && j != k implies is_digit_char(#[trigger] t[j]) by {
        if j < k {
            assert(t[j] == a[j]);
        } else {
            assert(t[j] == b[j - k - 1]);
        }
    }
    lemma_parse_plain(t, k);
    assert(t.take(k) + t.skip(k + 1) =~= ab);
    let ds = ab.map_values(|c: char| digit_value(c));
    lemma_parsed_small(t);
    assert(small_digits(ds));
    assert forall|j: int| 0 <= j < f implies ds[j] == 0 by {
        assert(ab[j] == '0');
    }
    assert(ds[f] != 0) by {
        assert(is_digit_char(ab[f])) by {
            if f < k {
                assert(ab[f] == a[f]);
            } else {
                assert(ab[f] == b[f - k]);
            }
        }
    }
    lemma_first_nonzero_at(ds, f);
    assert(!all_zero(ds));
    let sig = ds.skip(f);
    assert(sig.len() <= 10);
    let m = sig + Seq::new((10 - sig.len()) as nat, |i: int| 0u8);
    assert(mantissa_spec(sig) == (m, 0int));
    assert(small_digits(m)) by {
        assert forall|i: int| 0 <= i < m.len() implies m[i] <= 9 by {
            if i < sig.len() {
                assert(m[i] == ds[i + f]);
            }
        }
    }
    let exponent = k - f - 1;
    let eb: u8 = (if exponent < 0 {
        exponent + 256
    } else {
        exponent
    }) as u8;
    let p = encode_spec(t)->Ok_0;
    assert(p == seq![eb, 0x00u8] + pack_spec(m) + seq![0u8]);
    assert(as_i8(eb) == exponent);
    assert forall|i: int| 0 <= i < 10 implies #[trigger] unpack_spec(p.subrange(2, 7))[i] == if f + i < a.len()
        + b.len() {
        digit_value((a + b)[f + i])
    } else {
        0u8
    } by {
        let q = i / 2;
        lemma_nibbles(m[2 * q], m[2 * q + 1]);
        assert(p.subrange(2, 7)[q] == pack_spec(m)[q]);
        if i % 2 == 0 {
            assert(i == 2 * q);
        } else {
            assert(i == 2 * q + 1);
        }
        assert(unpack_spec(p.subrange(2, 7))[i] == m[i]);
        if f + i < a.len() + b.len() {
            assert(m[i] == sig[i]);
            assert(sig[i] == ds[f + i]);
        }
    }
}

} // verus!
