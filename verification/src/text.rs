//! Character-level text helpers shared by the rest of the crate: decimal
//! rendering of integers, comparisons and whitespace trimming, each with a
//! specification over `Seq<char>`.

use vstd::prelude::*;

verus! {

/// The ASCII character of a decimal digit.
pub open spec fn digit_char(d: int) -> char {
    if d == 0 { '0' }
    else if d == 1 { '1' }
    else if d == 2 { '2' }
    else if d == 3 { '3' }
    else if d == 4 { '4' }
    else if d == 5 { '5' }
    else if d == 6 { '6' }
    else if d == 7 { '7' }
    else if d == 8 { '8' }
    else { '9' }
}

/// Decimal digits of a natural number, most significant first, no padding.
pub open spec fn nat_digits(n: nat) -> Seq<char>
    decreases n,
{
    if n < 10 {
        seq![digit_char(n as int)]
    } else {
        nat_digits((n / 10) as nat).push(digit_char((n % 10) as int))
    }
}

/// Decimal rendering of an integer, as Rust's `Display` writes it.
pub open spec fn int_text(n: int) -> Seq<char> {
    if n < 0 {
        seq!['-'] + nat_digits((-n) as nat)
    } else {
        nat_digits(n as nat)
    }
}

/// A string slice holding exactly the digit `d`.
pub fn digit_str(d: u128) -> (s: &'static str)
    requires
        d < 10,
    ensures
        s@ == seq![digit_char(d as int)],
{
    proof {
        reveal_strlit("0");
        reveal_strlit("1");
        reveal_strlit("2");
        reveal_strlit("3");
        reveal_strlit("4");
        reveal_strlit("5");
        reveal_strlit("6");
        reveal_strlit("7");
        reveal_strlit("8");
        reveal_strlit("9");
    }
    if d == 0 { "0" }
    else if d == 1 { "1" }
    else if d == 2 { "2" }
    else if d == 3 { "3" }
    else if d == 4 { "4" }
    else if d == 5 { "5" }
    else if d == 6 { "6" }
    else if d == 7 { "7" }
    else if d == 8 { "8" }
    else { "9" }
}

/// Appends the decimal digits of `n`.
pub fn push_nat(out: &mut String, n: u128)
    ensures
        final(out)@ == old(out)@ + nat_digits(n as nat),
    decreases n,
{
    if n >= 10 {
        push_nat(out, n / 10);
    }
    out.append(digit_str(n % 10));
    proof {
        assert(old(out)@ + nat_digits(n as nat) =~= old(out)@ + (if n >= 10 { nat_digits((n / 10) as nat) } else { seq![] }) + seq![digit_char((n % 10) as int)]);
    }
}

/// Appends the decimal rendering of `n`.
pub fn push_int(out: &mut String, n: i128)
    requires
        n > i128::MIN,
    ensures
        final(out)@ == old(out)@ + int_text(n as int),
{
    if n < 0 {
        proof { reveal_strlit("-"); }
        out.append("-");
        push_nat(out, (-n) as u128);
        assert(final(out)@ =~= old(out)@ + int_text(n as int));
    } else {
        push_nat(out, n as u128);
    }
}

/// `a / b` rounded to the nearest integer, ties to the even one.
pub open spec fn round_half_even(a: int, b: int) -> int {
    let q = a / b;
    let r = a % b;
    if 2 * r > b {
        q + 1
    } else if 2 * r < b {
        q
    } else if q % 2 == 0 {
        q
    } else {
        q + 1
    }
}

/// The number `num / den` written with one decimal place, the way
/// `format!("{:.1}", ..)` writes it: rounded to the nearest tenth (ties to
/// even), with a leading `-` for a negative number.
pub closed spec fn decimal1(num: int, den: int) -> Seq<char> {
    let a = if num < 0 { -num } else { num };
    let tenths = round_half_even(a * 10, den);
    (if num < 0 { "-"@ } else { seq![] }) + nat_digits((tenths / 10) as nat) + "."@ + seq![
        digit_char(tenths % 10),
    ]
}

/// What `decimal1` writes, for readers outside this module: the sign, the
/// whole part and one digit of the quotient rounded to tenths, ties to
/// even.
pub proof fn lemma_decimal1(num: int, den: int)
    ensures
        decimal1(num, den) == ({
            let a = if num < 0 { -num } else { num };
            let tenths = round_half_even(a * 10, den);
            (if num < 0 { "-"@ } else { seq![] }) + nat_digits((tenths / 10) as nat) + "."@ + seq![
                digit_char(tenths % 10),
            ]
        }),
{
}

/// Appends `num / den` with one decimal place.
pub fn push_decimal1(out: &mut String, num: i128, den: i128)
    requires
        0 < den <= 0x1_0000_0000_0000_0000_0000,
        -0x1_0000_0000_0000_0000_0000 <= num <= 0x1_0000_0000_0000_0000_0000,
    ensures
        final(out)@ == old(out)@ + decimal1(num as int, den as int),
{
    let a: u128 = if num < 0 { (-num) as u128 } else { num as u128 };
    let scaled: u128 = a * 10;
    let q: u128 = scaled / (den as u128);
    let r: u128 = scaled % (den as u128);
    let tenths: u128 = if 2 * r > den as u128 {
        q + 1
    } else if 2 * r < den as u128 {
        q
    } else if q % 2 == 0 {
        q
    } else {
        q + 1
    };
    assert(tenths == round_half_even(a * 10, den as int));
    if num < 0 {
        out.append("-");
    }
    push_nat(out, tenths / 10);
    out.append(".");
    out.append(digit_str(tenths % 10));
    assert(final(out)@ =~= old(out)@ + decimal1(num as int, den as int));
}

/// `n` decimal digits, left-padded with zeros to at least `width` digits.
pub open spec fn zero_padded(n: nat, width: int) -> Seq<char> {
    let digits = nat_digits(n);
    if digits.len() < width {
        Seq::new((width - digits.len()) as nat, |i: int| '0') + digits
    } else {
        digits
    }
}

/// Appends `n` left-padded with zeros to at least `width` digits.
pub fn push_zero_padded(out: &mut String, n: u128, width: usize)
    ensures
        final(out)@ == old(out)@ + zero_padded(n as nat, width as int),
{
    let mut digits = String::new();
    push_nat(&mut digits, n);
    let len = digits.as_str().unicode_len();
    let ghost before = out@;
    if len < width {
        let mut k: usize = 0;
        let pad = width - len;
        proof { reveal_strlit("0"); }
        while k < pad
            invariant
                0 <= k <= pad,
                pad == width - len,
                out@ == before + Seq::new(k as nat, |i: int| '0'),
            decreases pad - k,
        {
            proof { reveal_strlit("0"); }
            out.append("0");
            k = k + 1;
            assert(out@ =~= before + Seq::new(k as nat, |i: int| '0'));
        }
    }
    out.append(digits.as_str());
    assert(final(out)@ =~= old(out)@ + zero_padded(n as nat, width as int));
}

/// `v` zero-padded to `width` characters counting its sign, as
/// `format!("{:0width$}", v)` writes it.
pub open spec fn signed_zero_padded(v: int, width: int) -> Seq<char> {
    if v < 0 {
        "-"@ + zero_padded((-v) as nat, width - 1)
    } else {
        zero_padded(v as nat, width)
    }
}

pub fn push_signed_zero_padded(out: &mut String, v: i64, width: usize)
    requires
        width >= 1,
    ensures
        final(out)@ == old(out)@ + signed_zero_padded(v as int, width as int),
{
    if v < 0 {
        out.append("-");
        push_zero_padded(out, (-(v as i128)) as u128, width - 1);
    } else {
        push_zero_padded(out, v as u128, width);
    }
    assert(final(out)@ =~= old(out)@ + signed_zero_padded(v as int, width as int));
}

/// Whether two texts hold the same characters.
pub fn str_eq(a: &str, b: &str) -> (r: bool)
    ensures
        r == (a@ == b@),
{
    let n = a.unicode_len();
    if n != b.unicode_len() {
        return false;
    }
    let mut i: usize = 0;
    while i < n
        invariant
            n == a@.len(),
            n == b@.len(),
            0 <= i <= n,
            forall|q: int| 0 <= q < i ==> a@[q] == b@[q],
        decreases n - i,
    {
        if a.get_char(i) != b.get_char(i) {
            return false;
        }
        i = i + 1;
    }
    assert(a@ =~= b@);
    true
}

/// Whether `s` begins with `prefix`.
pub fn starts_with(s: &str, prefix: &str) -> (r: bool)
    ensures
        r == (prefix@.len() <= s@.len() && s@.take(prefix@.len() as int) == prefix@),
{
    let n = prefix.unicode_len();
    if n > s.unicode_len() {
        return false;
    }
    let mut i: usize = 0;
    while i < n
        invariant
            n == prefix@.len(),
            n <= s@.len(),
            0 <= i <= n,
            forall|q: int| 0 <= q < i ==> s@[q] == prefix@[q],
        decreases n - i,
    {
        if s.get_char(i) != prefix.get_char(i) {
            assert(s@.take(n as int)[i as int] != prefix@[i as int]);
            return false;
        }
        i = i + 1;
    }
    assert(s@.take(n as int) =~= prefix@);
    true
}

/// Unicode `White_Space` characters, which `char::is_whitespace` and
/// `str::trim` treat as blanks.
pub open spec fn is_white_space(c: char) -> bool {
    ('\u{9}' <= c <= '\u{d}') || c == ' ' || c == '\u{85}' || c == '\u{a0}' || c == '\u{1680}'
        || ('\u{2000}' <= c <= '\u{200a}') || c == '\u{2028}' || c == '\u{2029}' || c == '\u{202f}'
        || c == '\u{205f}' || c == '\u{3000}'
}

pub fn is_white_space_char(c: char) -> (r: bool)
    ensures
        r == is_white_space(c),
{
    ('\u{9}' <= c && c <= '\u{d}') || c == ' ' || c == '\u{85}' || c == '\u{a0}' || c == '\u{1680}'
        || ('\u{2000}' <= c && c <= '\u{200a}') || c == '\u{2028}' || c == '\u{2029}' || c
        == '\u{202f}' || c == '\u{205f}' || c == '\u{3000}'
}

/// Number of leading white-space characters of `s`.
pub open spec fn leading_blanks(s: Seq<char>) -> int
    decreases s.len(),
{
    if s.len() == 0 {
        0
    } else if is_white_space(s[0]) {
        1 + leading_blanks(s.drop_first())
    } else {
        0
    }
}

/// Number of trailing white-space characters of `s`.
pub open spec fn trailing_blanks(s: Seq<char>) -> int
    decreases s.len(),
{
    if s.len() == 0 {
        0
    } else if is_white_space(s.last()) {
        1 + trailing_blanks(s.drop_last())
    } else {
        0
    }
}

/// `s` without its leading and trailing white space.
pub open spec fn trim_spec(s: Seq<char>) -> Seq<char> {
    let front = leading_blanks(s);
    if front == s.len() {
        seq![]
    } else {
        s.subrange(front, s.len() - trailing_blanks(s))
    }
}

pub proof fn lemma_leading_blanks(s: Seq<char>, k: int)
    requires
        0 <= k <= s.len(),
        forall|i: int| 0 <= i < k ==> is_white_space(#[trigger] s[i]),
        k == s.len() || !is_white_space(s[k]),
    ensures
        leading_blanks(s) == k,
    decreases k,
{
    if k > 0 {
        assert forall|i: int| 0 <= i < k - 1 implies is_white_space(#[trigger] s.drop_first()[i]) by {
            assert(s.drop_first()[i] == s[i + 1]);
        }
        if k < s.len() {
            assert(s.drop_first()[k - 1] == s[k]);
        }
        lemma_leading_blanks(s.drop_first(), k - 1);
    }
}

pub proof fn lemma_trailing_blanks(s: Seq<char>, k: int)
    requires
        0 <= k <= s.len(),
        forall|i: int| s.len() - k <= i < s.len() ==> is_white_space(#[trigger] s[i]),
        k == s.len() || !is_white_space(s[s.len() - k - 1]),
    ensures
        trailing_blanks(s) == k,
    decreases k,
{
    if k > 0 {
        assert forall|i: int| s.drop_last().len() - (k - 1) <= i < s.drop_last().len() implies is_white_space(
            #[trigger] s.drop_last()[i],
        ) by {
            assert(s.drop_last()[i] == s[i]);
        }
        if k < s.len() {
            assert(s.drop_last()[s.drop_last().len() - (k - 1) - 1] == s[s.len() - k - 1]);
        }
        lemma_trailing_blanks(s.drop_last(), k - 1);
    }
}

/// `s` with leading and trailing white space removed, like `str::trim`.
pub fn trim(s: &str) -> (r: &str)
    ensures
        r@ == trim_spec(s@),
{
    let n = s.unicode_len();
    let mut front: usize = 0;
    while front < n && is_white_space_char(s.get_char(front))
        invariant
            n == s@.len(),
            0 <= front <= n,
            forall|i: int| 0 <= i < front ==> is_white_space(#[trigger] s@[i]),
        decreases n - front,
    {
        front = front + 1;
    }
    proof {
        lemma_leading_blanks(s@, front as int);
    }
    if front == n {
        return s.substring_char(0, 0);
    }
    let mut back: usize = n;
    while back > front && is_white_space_char(s.get_char(back - 1))
        invariant
            n == s@.len(),
            front < n,
            !is_white_space(s@[front as int]),
            front <= back <= n,
            forall|i: int| back <= i < n ==> is_white_space(#[trigger] s@[i]),
        decreases back,
    {
        back = back - 1;
    }
    proof {
        lemma_trailing_blanks(s@, (n - back) as int);
    }
    s.substring_char(front, back)
}

/// Whether `s` holds nothing but white space.
pub fn is_blank(s: &str) -> (r: bool)
    ensures
        r == (trim_spec(s@).len() == 0),
{
    let t = trim(s);
    proof {
        let front = leading_blanks(s@);
        leading_blanks_bound(s@);
        if front != s@.len() {
            assert(trim_spec(s@).len() > 0) by {
                trailing_blank_bound(s@);
            }
        }
    }
    t.unicode_len() == 0
}

proof fn leading_blanks_bound(s: Seq<char>)
    ensures
        0 <= leading_blanks(s) <= s.len(),
    decreases s.len(),
{
    if s.len() > 0 {
        leading_blanks_bound(s.drop_first());
    }
}

proof fn trailing_blank_bound(s: Seq<char>)
    requires
        leading_blanks(s) < s.len(),
    ensures
        leading_blanks(s) + trailing_blanks(s) < s.len(),
        0 <= trailing_blanks(s),
        0 <= leading_blanks(s),
{
    leading_not_blank(s);
    trailing_stops(s, leading_blanks(s));
}

proof fn leading_not_blank(s: Seq<char>)
    requires
        leading_blanks(s) < s.len(),
    ensures
        0 <= leading_blanks(s),
        !is_white_space(s[leading_blanks(s)]),
    decreases s.len(),
{
    if s.len() > 0 && is_white_space(s[0]) {
        leading_not_blank(s.drop_first());
        assert(s.drop_first()[leading_blanks(s.drop_first())] == s[leading_blanks(s)]);
    }
}

proof fn trailing_stops(s: Seq<char>, p: int)
    requires
        0 <= p < s.len(),
        !is_white_space(s[p]),
    ensures
        trailing_blanks(s) < s.len() - p,
        0 <= trailing_blanks(s),
    decreases s.len(),
{
    if s.len() > 0 && is_white_space(s.last()) {
        assert(p < s.len() - 1);
        assert(s.drop_last()[p] == s[p]);
        trailing_stops(s.drop_last(), p);
    }
}

/// The ASCII digits of `s` from `from` up to `to`, read as a number, when
/// every one of them is a digit.
pub open spec fn digits_value(s: Seq<char>, from: int, to: int) -> int
    decreases to - from,
{
    if to <= from {
        0
    } else {
        digits_value(s, from, to - 1) * 10 + (s[to - 1] as int - '0' as int)
    }
}

pub open spec fn all_digits(s: Seq<char>, from: int, to: int) -> bool {
    forall|i: int| from <= i < to ==> '0' <= #[trigger] s[i] <= '9'
}

/// Four ASCII digits read as a number lie between 0 and 9999.
pub proof fn lemma_four_digits(s: Seq<char>, from: int)
    requires
        0 <= from,
        from + 4 <= s.len(),
        all_digits(s, from, from + 4),
    ensures
        0 <= digits_value(s, from, from + 4) <= 9999,
{
    reveal_with_fuel(digits_value, 5);
    assert('0' <= s[from] <= '9' && '0' <= s[from + 1] <= '9');
    assert('0' <= s[from + 2] <= '9' && '0' <= s[from + 3] <= '9');
}

pub proof fn lemma_digits_value_ext(s: Seq<char>, t: Seq<char>, off: int, from: int, to: int)
    requires
        0 <= from <= to,
        forall|i: int| from <= i < to ==> s[i + off] == t[i],
    ensures
        digits_value(s, from + off, to + off) == digits_value(t, from, to),
    decreases to - from,
{
    if from < to {
        lemma_digits_value_ext(s, t, off, from, to - 1);
        assert(s[to - 1 + off] == t[to - 1]);
    }
}

pub proof fn lemma_leading_zero(s: Seq<char>, from: int, to: int)
    requires
        0 <= from < to,
        s[from] == '0',
    ensures
        digits_value(s, from, to) == digits_value(s, from + 1, to),
    decreases to - from,
{
    if to > from + 1 {
        lemma_leading_zero(s, from, to - 1);
        assert(digits_value(s, from, to) == digits_value(s, from, to - 1) * 10 + (s[to - 1] as int
            - '0' as int));
        assert(digits_value(s, from + 1, to) == digits_value(s, from + 1, to - 1) * 10 + (s[to - 1] as int
            - '0' as int));
    } else {
        reveal_with_fuel(digits_value, 2);
    }
}

pub proof fn lemma_leading_zeros(s: Seq<char>, from: int, mid: int, to: int)
    requires
        0 <= from <= mid <= to,
        forall|i: int| from <= i < mid ==> s[i] == '0',
    ensures
        digits_value(s, from, to) == digits_value(s, mid, to),
    decreases mid - from,
{
    if from < mid {
        lemma_leading_zero(s, from, to);
        lemma_leading_zeros(s, from + 1, mid, to);
    }
}

pub proof fn lemma_digit_char(d: int)
    requires
        0 <= d < 10,
    ensures
        '0' <= digit_char(d) <= '9',
        digit_char(d) as int - '0' as int == d,
{
}

pub proof fn lemma_nat_digits(n: nat)
    ensures
        nat_digits(n).len() >= 1,
        all_digits(nat_digits(n), 0, nat_digits(n).len() as int),
        digits_value(nat_digits(n), 0, nat_digits(n).len() as int) == n,
        n < 10 ==> nat_digits(n).len() == 1,
        n < 100 ==> nat_digits(n).len() <= 2,
        n < 1000 ==> nat_digits(n).len() <= 3,
        n < 10000 ==> nat_digits(n).len() <= 4,
    decreases n,
{
    lemma_digit_char((n % 10) as int);
    if n >= 10 {
        let q = (n / 10) as nat;
        lemma_nat_digits(q);
        let t = nat_digits(q);
        let s = nat_digits(n);
        assert(s == t.push(digit_char((n % 10) as int)));
        lemma_digits_value_ext(s, t, 0, 0, t.len() as int);
        assert forall|i: int| 0 <= i < s.len() implies '0' <= #[trigger] s[i] <= '9' by {
            if i < t.len() {
                assert(s[i] == t[i]);
            }
        }
    } else {
        reveal_with_fuel(digits_value, 2);
    }
}

pub proof fn lemma_zero_padded(n: nat, width: int)
    requires
        1 <= width <= 4,
        width == 1 ==> n < 10,
        width == 2 ==> n < 100,
        width == 4 ==> n < 10000,
        width != 3,
    ensures
        zero_padded(n, width).len() == width,
        all_digits(zero_padded(n, width), 0, width),
        digits_value(zero_padded(n, width), 0, width) == n,
{
    lemma_nat_digits(n);
    let t = nat_digits(n);
    let z = zero_padded(n, width);
    if t.len() < width {
        let p = width - t.len();
        assert(forall|i: int| 0 <= i < p ==> z[i] == '0');
        lemma_leading_zeros(z, 0, p, width);
        lemma_digits_value_ext(z, t, p, 0, t.len() as int);
        assert forall|i: int| 0 <= i < width implies '0' <= #[trigger] z[i] <= '9' by {
            if i >= p {
                assert(z[i] == t[i - p]);
            }
        }
    }
}

/// `10` to the power `k`.
pub open spec fn pow10(k: nat) -> nat
    decreases k,
{
    if k == 0 { 1 } else { 10 * pow10((k - 1) as nat) }
}

pub proof fn lemma_digits_value_front(s: Seq<char>, from: int, to: int)
    requires
        0 <= from < to,
    ensures
        digits_value(s, from, to) == (s[from] as int - '0' as int) * pow10((to - from - 1) as nat)
            + digits_value(s, from + 1, to),
    decreases to - from,
{
    let c = s[from] as int - '0' as int;
    if to == from + 1 {
        assert(digits_value(s, from, from) == 0);
        assert(digits_value(s, from + 1, to) == 0);
        assert(digits_value(s, from, to) == digits_value(s, from, from) * 10 + c);
        assert(pow10(0) == 1);
        assert(c * pow10(0) == c) by (nonlinear_arith)
            requires pow10(0) == 1;
    } else {
        lemma_digits_value_front(s, from, to - 1);
        let p = pow10((to - from - 2) as nat);
        let r = digits_value(s, from + 1, to - 1);
        let last = s[to - 1] as int - '0' as int;
        assert(pow10((to - from - 1) as nat) == 10 * p);
        assert(digits_value(s, from, to - 1) == c * p + r);
        assert(digits_value(s, from, to) == digits_value(s, from, to - 1) * 10 + last);
        assert(digits_value(s, from + 1, to) == r * 10 + last);
        assert((c * p + r) * 10 + last == c * (10 * p) + (r * 10 + last)) by (nonlinear_arith);
        let q = pow10((to - from - 1) as nat);
        assert(c * q == c * (10 * p)) by (nonlinear_arith)
            requires q == 10 * p;
    }
}

pub proof fn lemma_digits_value_bound(s: Seq<char>, from: int, to: int)
    requires
        0 <= from <= to <= s.len(),
        all_digits(s, from, to),
    ensures
        0 <= digits_value(s, from, to) < pow10((to - from) as nat),
    decreases to - from,
{
    if from < to {
        lemma_digits_value_bound(s, from, to - 1);
        assert('0' <= s[to - 1] <= '9');
        let p = pow10((to - 1 - from) as nat);
        assert(pow10((to - from) as nat) == 10 * p);
        assert(digits_value(s, from, to) == digits_value(s, from, to - 1) * 10 + (s[to - 1] as int - '0' as int));
        assert(digits_value(s, from, to - 1) * 10 + 9 < 10 * p) by (nonlinear_arith)
            requires digits_value(s, from, to - 1) < p;
    }
}

} // verus!
