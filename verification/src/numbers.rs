//! Decimal integer parsing with the same acceptance rules and error kinds
//! as Rust's `str::parse` for `u32` and `i64`.

use vstd::prelude::*;
use crate::text::{
    all_digits, digits_value, int_text, lemma_digits_value_bound, lemma_digits_value_ext, lemma_digits_value_front,
    lemma_nat_digits, nat_digits, pow10,
};

verus! {

/// Why a text is not a number (the kinds of `std::num::IntErrorKind` that
/// decimal parsing can report).
#[derive(PartialEq, Eq, Structural, Clone, Copy, Debug)]
pub enum NumberError {
    Empty,
    InvalidDigit,
    PosOverflow,
    NegOverflow,
}

pub open spec fn number_error_text(e: NumberError) -> Seq<char> {
    match e {
        NumberError::Empty => "cannot parse integer from empty string"@,
        NumberError::InvalidDigit => "invalid digit found in string"@,
        NumberError::PosOverflow => "number too large to fit in target type"@,
        NumberError::NegOverflow => "number too small to fit in target type"@,
    }
}

impl NumberError {
    /// The message `ParseIntError` displays for this kind.
    pub fn message(&self) -> (s: &'static str)
        ensures
            s@ == number_error_text(*self),
    {
        match self {
            NumberError::Empty => "cannot parse integer from empty string",
            NumberError::InvalidDigit => "invalid digit found in string",
            NumberError::PosOverflow => "number too large to fit in target type",
            NumberError::NegOverflow => "number too small to fit in target type",
        }
    }
}

pub open spec fn is_digit(c: char) -> bool {
    '0' <= c <= '9'
}

pub open spec fn digit_value(c: char) -> int {
    c as int - '0' as int
}

/// Reads the digits of `d` from position `i` on, onto `acc`, failing on
/// the first non-digit or as soon as the value exceeds `max`.
pub open spec fn scan_up(d: Seq<char>, i: int, acc: int, max: int) -> Result<int, NumberError>
    decreases d.len() - i,
{
    if i >= d.len() {
        Ok(acc)
    } else if !is_digit(d[i]) {
        Err(NumberError::InvalidDigit)
    } else if acc * 10 + digit_value(d[i]) > max {
        Err(NumberError::PosOverflow)
    } else {
        scan_up(d, i + 1, acc * 10 + digit_value(d[i]), max)
    }
}

/// Reads the digits of `d` from position `i` on as a negative number,
/// failing on the first non-digit or as soon as the value drops below `min`.
pub open spec fn scan_down(d: Seq<char>, i: int, acc: int, min: int) -> Result<int, NumberError>
    decreases d.len() - i,
{
    if i >= d.len() {
        Ok(acc)
    } else if !is_digit(d[i]) {
        Err(NumberError::InvalidDigit)
    } else if acc * 10 - digit_value(d[i]) < min {
        Err(NumberError::NegOverflow)
    } else {
        scan_down(d, i + 1, acc * 10 - digit_value(d[i]), min)
    }
}

/// `s.parse::<u32>()`: an optional `+` then decimal digits.
pub open spec fn parse_u32_spec(s: Seq<char>) -> Result<int, NumberError> {
    if s.len() == 0 {
        Err(NumberError::Empty)
    } else if s.len() == 1 && (s[0] == '+' || s[0] == '-') {
        Err(NumberError::InvalidDigit)
    } else if s[0] == '+' {
        scan_up(s, 1, 0, u32::MAX as int)
    } else {
        scan_up(s, 0, 0, u32::MAX as int)
    }
}

/// `s.parse::<i64>()`: an optional `+` or `-` then decimal digits.
pub open spec fn parse_i64_spec(s: Seq<char>) -> Result<int, NumberError> {
    if s.len() == 0 {
        Err(NumberError::Empty)
    } else if s.len() == 1 && (s[0] == '+' || s[0] == '-') {
        Err(NumberError::InvalidDigit)
    } else if s[0] == '+' {
        scan_up(s, 1, 0, i64::MAX as int)
    } else if s[0] == '-' {
        scan_down(s, 1, 0, i64::MIN as int)
    } else {
        scan_up(s, 0, 0, i64::MAX as int)
    }
}

proof fn lemma_pow10_positive(k: nat)
    ensures
        pow10(k) >= 1,
    decreases k,
{
    if k > 0 {
        lemma_pow10_positive((k - 1) as nat);
    }
}

/// Scanning digits that stay within the limit reads their value onto the
/// accumulator.
proof fn lemma_scan_up_digits(d: Seq<char>, i: int, acc: int, max: int)
    requires
        0 <= i <= d.len(),
        acc >= 0,
        all_digits(d, i, d.len() as int),
        acc * pow10((d.len() - i) as nat) + digits_value(d, i, d.len() as int) <= max,
    ensures
        scan_up(d, i, acc, max) == Ok::<int, NumberError>(acc * pow10((d.len() - i) as nat) + digits_value(
            d,
            i,
            d.len() as int,
        )),
    decreases d.len() - i,
{
    let n = d.len() as int;
    if i < n {
        let c = d[i] as int - '0' as int;
        assert('0' <= d[i] <= '9');
        lemma_digits_value_front(d, i, n);
        lemma_digits_value_bound(d, i + 1, n);
        let p = pow10((n - i - 1) as nat);
        let r = digits_value(d, i + 1, n);
        lemma_pow10_positive((n - i - 1) as nat);
        assert(pow10((n - i) as nat) == 10 * p);
        let q = pow10((n - i) as nat);
        assert(acc * q + (c * p + r) == (acc * 10 + c) * p + r) by (nonlinear_arith)
            requires q == 10 * p;
        assert(acc * 10 + c <= (acc * 10 + c) * p) by (nonlinear_arith)
            requires p >= 1, acc * 10 + c >= 0;
        assert(all_digits(d, i + 1, n));
        lemma_scan_up_digits(d, i + 1, acc * 10 + c, max);
    } else {
        assert(acc * pow10(0) == acc) by (nonlinear_arith)
            requires pow10(0) == 1;
    }
}

/// Scanning digits as a negative number that stays within the limit reads
/// the negated value onto the accumulator.
proof fn lemma_scan_down_digits(d: Seq<char>, i: int, acc: int, min: int)
    requires
        0 <= i <= d.len(),
        acc <= 0,
        all_digits(d, i, d.len() as int),
        acc * pow10((d.len() - i) as nat) - digits_value(d, i, d.len() as int) >= min,
    ensures
        scan_down(d, i, acc, min) == Ok::<int, NumberError>(acc * pow10((d.len() - i) as nat) - digits_value(
            d,
            i,
            d.len() as int,
        )),
    decreases d.len() - i,
{
    let n = d.len() as int;
    if i < n {
        let c = d[i] as int - '0' as int;
        assert('0' <= d[i] <= '9');
        lemma_digits_value_front(d, i, n);
        lemma_digits_value_bound(d, i + 1, n);
        let p = pow10((n - i - 1) as nat);
        let r = digits_value(d, i + 1, n);
        lemma_pow10_positive((n - i - 1) as nat);
        assert(pow10((n - i) as nat) == 10 * p);
        let q = pow10((n - i) as nat);
        assert(acc * q - (c * p + r) == (acc * 10 - c) * p - r) by (nonlinear_arith)
            requires q == 10 * p;
        assert(acc * 10 - c >= (acc * 10 - c) * p) by (nonlinear_arith)
            requires p >= 1, acc * 10 - c <= 0;
        assert(all_digits(d, i + 1, n));
        lemma_scan_down_digits(d, i + 1, acc * 10 - c, min);
    } else {
        assert(acc * pow10(0) == acc) by (nonlinear_arith)
            requires pow10(0) == 1;
    }
}

/// An `i64` written in decimal reads back as itself.
pub proof fn lemma_parse_i64_int_text(v: i64)
    ensures
        parse_i64_spec(int_text(v as int)) == Ok::<int, NumberError>(v as int),
{
    let m: nat = if v < 0 { (-(v as int)) as nat } else { v as nat };
    lemma_nat_digits(m);
    let t = nat_digits(m);
    lemma_pow10_positive(t.len());
    assert(0 * pow10(t.len()) == 0) by (nonlinear_arith);
    if v >= 0 {
        assert('0' <= t[0] <= '9');
        lemma_scan_up_digits(t, 0, 0, i64::MAX as int);
    } else {
        let s = seq!['-'] + t;
        assert(int_text(v as int) == s);
        assert(s[0] == '-');
        assert(all_digits(s, 1, s.len() as int)) by {
            assert forall|i: int| 1 <= i < s.len() implies '0' <= #[trigger] s[i] <= '9' by {
                assert(s[i] == t[i - 1]);
            }
        }
        assert forall|i: int| 0 <= i < t.len() implies s[i + 1] == t[i] by {}
        lemma_digits_value_ext(s, t, 1, 0, t.len() as int);
        assert(0 * pow10((s.len() - 1) as nat) == 0) by (nonlinear_arith);
        lemma_scan_down_digits(s, 1, 0, i64::MIN as int);
    }
}

fn scan_up_exec(s: &str, from: usize, max: u64) -> (r: Result<u64, NumberError>)
    requires
        from <= s@.len(),
        max >= 9,
    ensures
        match r {
            Ok(v) => scan_up(s@, from as int, 0, max as int) == Ok::<int, NumberError>(v as int),
            Err(e) => scan_up(s@, from as int, 0, max as int) == Err::<int, NumberError>(e),
        },
{
    let n = s.unicode_len();
    let mut i = from;
    let mut acc: u64 = 0;
    while i < n
        invariant
            n == s@.len(),
            from <= i <= n,
            acc <= max,
            max >= 9,
            scan_up(s@, from as int, 0, max as int) == scan_up(s@, i as int, acc as int, max as int),
        decreases n - i,
    {
        let c = s.get_char(i);
        if !('0' <= c && c <= '9') {
            return Err(NumberError::InvalidDigit);
        }
        let x = (c as u32 - '0' as u32) as u64;
        assert(x as int == digit_value(c));
        if acc > (max - x) / 10 {
            assert(acc * 10 + x > max) by (nonlinear_arith)
                requires acc > (max - x) / 10, x <= 9, max >= 9;
            return Err(NumberError::PosOverflow);
        }
        assert(acc * 10 + x <= max) by (nonlinear_arith)
            requires acc <= (max - x) / 10, x <= max;
        acc = acc * 10 + x;
        i = i + 1;
    }
    Ok(acc)
}

fn scan_down_exec(s: &str, from: usize) -> (r: Result<i64, NumberError>)
    requires
        from <= s@.len(),
    ensures
        match r {
            Ok(v) => scan_down(s@, from as int, 0, i64::MIN as int) == Ok::<int, NumberError>(v as int),
            Err(e) => scan_down(s@, from as int, 0, i64::MIN as int) == Err::<int, NumberError>(e),
        },
{
    let n = s.unicode_len();
    let limit: u64 = 0x8000_0000_0000_0000;
    let mut i = from;
    let mut mag: u64 = 0;
    while i < n
        invariant
            n == s@.len(),
            from <= i <= n,
            mag <= limit,
            limit == 0x8000_0000_0000_0000,
            scan_down(s@, from as int, 0, i64::MIN as int) == scan_down(s@, i as int, -(mag as int), i64::MIN as int),
        decreases n - i,
    {
        let c = s.get_char(i);
        if !('0' <= c && c <= '9') {
            return Err(NumberError::InvalidDigit);
        }
        let x = (c as u32 - '0' as u32) as u64;
        assert(x as int == digit_value(c));
        if mag > (limit - x) / 10 {
            assert(mag * 10 + x > limit) by (nonlinear_arith)
                requires mag > (limit - x) / 10, x <= 9, limit >= 9;
            return Err(NumberError::NegOverflow);
        }
        assert(mag * 10 + x <= limit) by (nonlinear_arith)
            requires mag <= (limit - x) / 10, x <= limit;
        mag = mag * 10 + x;
        i = i + 1;
    }
    if mag == limit {
        Ok(i64::MIN)
    } else {
        Ok(-(mag as i64))
    }
}

/// Parses a `u32` as `str::parse::<u32>` does.
pub fn parse_u32(s: &str) -> (r: Result<u32, NumberError>)
    ensures
        match r {
            Ok(v) => parse_u32_spec(s@) == Ok::<int, NumberError>(v as int),
            Err(e) => parse_u32_spec(s@) == Err::<int, NumberError>(e),
        },
{
    let n = s.unicode_len();
    if n == 0 {
        return Err(NumberError::Empty);
    }
    let first = s.get_char(0);
    if n == 1 && (first == '+' || first == '-') {
        return Err(NumberError::InvalidDigit);
    }
    let from: usize = if first == '+' { 1 } else { 0 };
    match scan_up_exec(s, from, u32::MAX as u64) {
        Ok(v) => {
            proof {
                lemma_scan_up_bounded(s@, from as int, 0, u32::MAX as int);
            }
            Ok(v as u32)
        },
        Err(e) => Err(e),
    }
}

/// Parses an `i64` as `str::parse::<i64>` does.
pub fn parse_i64(s: &str) -> (r: Result<i64, NumberError>)
    ensures
        match r {
            Ok(v) => parse_i64_spec(s@) == Ok::<int, NumberError>(v as int),
            Err(e) => parse_i64_spec(s@) == Err::<int, NumberError>(e),
        },
{
    let n = s.unicode_len();
    if n == 0 {
        return Err(NumberError::Empty);
    }
    let first = s.get_char(0);
    if n == 1 && (first == '+' || first == '-') {
        return Err(NumberError::InvalidDigit);
    }
    if first == '-' {
        return scan_down_exec(s, 1);
    }
    let from: usize = if first == '+' { 1 } else { 0 };
    match scan_up_exec(s, from, i64::MAX as u64) {
        Ok(v) => {
            proof {
                lemma_scan_up_bounded(s@, from as int, 0, i64::MAX as int);
            }
            Ok(v as i64)
        },
        Err(e) => Err(e),
    }
}

proof fn lemma_scan_up_bounded(d: Seq<char>, i: int, acc: int, max: int)
    requires
        0 <= acc <= max,
    ensures
        scan_up(d, i, acc, max) matches Ok(v) ==> 0 <= v <= max,
    decreases d.len() - i,
{
    if i < d.len() && is_digit(d[i]) && acc * 10 + digit_value(d[i]) <= max {
        lemma_scan_up_bounded(d, i + 1, acc * 10 + digit_value(d[i]), max);
    }
}

} // verus!
