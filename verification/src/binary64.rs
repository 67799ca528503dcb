//! The `f64` arithmetic of the season timeline, carried out exactly in
//! integers. A binary64 value is a pair `(n, p)` standing for `n / 2^p`;
//! each operation rounds its exact result to the nearest number with a
//! 53-bit significand, ties to an even significand, which is how IEEE 754
//! defines `f64` division, multiplication, addition and subtraction. Every
//! value here lies far inside the normal range (no overflow, no
//! subnormals), where that definition is all there is to it.

use vstd::prelude::*;
use vstd::arithmetic::power2::{lemma2_to64, lemma_pow2_adds, lemma_pow2_pos, lemma_pow2_strictly_increases, lemma_pow2_unfold, pow2};
use vstd::arithmetic::div_mod::lemma_fundamental_div_mod;
use crate::text::{decimal1, lemma_decimal1, push_decimal1, round_half_even};

verus! {

/// The number of binary digits of `a` (none for 0).
pub open spec fn bit_len(a: nat) -> nat
    decreases a,
{
    if a == 0 {
        0
    } else {
        1 + bit_len(a / 2)
    }
}

/// `|a|`.
pub open spec fn magnitude(a: int) -> int {
    if a < 0 {
        -a
    } else {
        a
    }
}

/// `r` with the sign that `neg` asks for.
pub open spec fn signed(neg: bool, r: int) -> int {
    if neg {
        -r
    } else {
        r
    }
}

/// The exact binary fraction `a / 2^p` rounded to 53 significant bits,
/// ties to even: the `f64` nearest to it.
pub open spec fn round_binary(a: int, p: nat) -> (int, nat) {
    let m = if a < 0 { -a } else { a };
    let l = bit_len(m as nat);
    if l <= 53 {
        (a, p)
    } else {
        let drop = (l - 53) as nat;
        (signed(a < 0, round_half_even(m, pow2(drop) as int)), (p - drop) as nat)
    }
}

/// `p` scales the quotient `m / s` into `[2^52, 2^53)`.
pub open spec fn quotient_binade(m: nat, s: nat, p: nat) -> bool {
    pow2(52) * s <= m * pow2(p) < pow2(53) * s
}

/// The `f64` quotient of the integers `a / s` (`s > 0`): the exact quotient
/// scaled into `[2^52, 2^53)` by a power of two and rounded there to an
/// integer, ties to even.
pub open spec fn round_quotient(a: int, s: int) -> (int, nat) {
    if a == 0 {
        (0, 0)
    } else {
        let m = if a < 0 { -a } else { a };
        let p = choose|p: nat| #[trigger] quotient_binade(m as nat, s as nat, p);
        (signed(a < 0, round_half_even(m * pow2(p), s)), p)
    }
}

/// Two values written over the common denominator `2^max(p, q)`.
pub open spec fn common_exponent(x: (int, nat), y: (int, nat)) -> nat {
    if x.1 >= y.1 {
        x.1
    } else {
        y.1
    }
}

pub open spec fn over(x: (int, nat), e: nat) -> int {
    x.0 * pow2((e - x.1) as nat)
}

/// Whether the value `x` is at least the value `y`.
pub open spec fn binary_ge(x: (int, nat), y: (int, nat)) -> bool {
    over(x, common_exponent(x, y)) >= over(y, common_exponent(x, y))
}

/// The `f64` difference `x - y`.
pub open spec fn binary_sub(x: (int, nat), y: (int, nat)) -> (int, nat) {
    let e = common_exponent(x, y);
    round_binary(over(x, e) - over(y, e), e)
}

/// How `format!("{:.1}", ..)` writes the value `x`.
pub open spec fn binary_text(x: (int, nat)) -> Seq<char> {
    decimal1(x.0, pow2(x.1) as int)
}

proof fn lemma_pow2_values()
    ensures
        pow2(52) == 0x10_0000_0000_0000,
        pow2(53) == 0x20_0000_0000_0000,
        pow2(64) == 0x1_0000_0000_0000_0000,
        pow2(128) == 0x1_0000_0000_0000_0000_0000_0000_0000_0000,
        pow2(41) == 0x200_0000_0000,
        pow2(80) == 0x1_0000_0000_0000_0000_0000,
        pow2(84) == 0x10_0000_0000_0000_0000_0000,
        pow2(125) == 0x2000_0000_0000_0000_0000_0000_0000_0000,
{
    lemma2_to64();
    lemma_pow2_adds(32, 20);
    lemma_pow2_adds(32, 21);
    lemma_pow2_adds(64, 64);
    lemma_pow2_adds(32, 9);
    lemma_pow2_adds(64, 16);
    lemma_pow2_adds(64, 20);
    lemma_pow2_adds(32, 29);
    lemma_pow2_adds(64, 61);
}

proof fn lemma_bit_len(a: nat)
    ensures
        a < pow2(bit_len(a)),
        a > 0 ==> pow2((bit_len(a) - 1) as nat) <= a,
    decreases a,
{
    lemma2_to64();
    if a > 0 {
        lemma_bit_len(a / 2);
        let l = bit_len(a / 2);
        lemma_pow2_unfold(l + 1);
        assert(bit_len(a) == l + 1);
        if a / 2 > 0 {
            lemma_pow2_unfold(l);
        }
    }
}

proof fn lemma_pow2_le(e1: nat, e2: nat)
    requires
        e1 <= e2,
    ensures
        pow2(e1) <= pow2(e2),
{
    if e1 < e2 {
        lemma_pow2_strictly_increases(e1, e2);
    }
}

/// Rounding to the nearest integer does not pass a bound that the exact
/// quotient keeps to.
proof fn lemma_round_le(m: int, d: int, b: int)
    requires
        0 <= m <= b * d,
        d > 0,
        b >= 0,
    ensures
        0 <= round_half_even(m, d) <= b,
{
    lemma_fundamental_div_mod(m, d);
    let q = m / d;
    let r = m % d;
    assert(0 <= r < d);
    assert(0 <= q <= b) by (nonlinear_arith)
        requires
            m == d * q + r,
            0 <= r < d,
            0 <= m <= b * d,
            d > 0,
    ;
    if q == b {
        assert(r == 0) by (nonlinear_arith)
            requires
                m == d * q + r,
                q == b,
                0 <= r,
                m <= b * d,
        ;
    }
}

/// Rounding keeps a magnitude bound `b` on the value.
proof fn lemma_round_binary_bound(a: int, p: nat, b: int)
    requires
        magnitude(a) <= b * pow2(p),
        b >= 0,
        bit_len(magnitude(a) as nat) <= p + 53,
    ensures
        ({
            let r = round_binary(a, p);
            &&& r.1 <= p
            &&& magnitude(r.0) <= b * pow2(r.1)
            &&& magnitude(r.0) <= pow2(53)
        }),
{
    let m = if a < 0 { -a } else { a };
    let l = bit_len(m as nat);
    lemma_bit_len(m as nat);
    if l <= 53 {
        lemma_pow2_le(l, 53);
    } else {
        let drop = (l - 53) as nat;
        let e = (p - drop) as nat;
        lemma_pow2_adds(e, drop);
        assert(pow2(p) == pow2(e) * pow2(drop));
        lemma_pow2_pos(drop);
        assert(m <= (b * pow2(e)) * pow2(drop)) by (nonlinear_arith)
            requires
                m <= b * pow2(p),
                pow2(p) == pow2(e) * pow2(drop),
        ;
        lemma_pow2_pos(e);
        assert(b * pow2(e) >= 0) by (nonlinear_arith)
            requires
                b >= 0,
                pow2(e) > 0,
        ;
        lemma_round_le(m, pow2(drop) as int, b * pow2(e));
        lemma_pow2_adds(53, drop);
        assert(pow2(l) == pow2(53) * pow2(drop));
        assert(m <= pow2(53) * pow2(drop));
        lemma_round_le(m, pow2(drop) as int, pow2(53) as int);
    }
}

proof fn lemma_quotient_binade_unique(m: nat, s: nat, p1: nat, p2: nat)
    requires
        quotient_binade(m, s, p1),
        quotient_binade(m, s, p2),
    ensures
        p1 == p2,
{
    lemma_pow2_unfold(53);
    assert(2 * (pow2(52) * s) == pow2(53) * s) by (nonlinear_arith)
        requires
            pow2(53) == 2 * pow2(52),
    ;
    if p1 < p2 {
        lemma_pow2_adds(p1, (p2 - p1) as nat);
        lemma_pow2_le(1, (p2 - p1) as nat);
        lemma2_to64();
        lemma_pow2_unfold(53);
        assert(m * pow2(p2) >= 2 * (m * pow2(p1))) by (nonlinear_arith)
            requires
                pow2(p2) == pow2(p1) * pow2((p2 - p1) as nat),
                pow2((p2 - p1) as nat) >= 2,
                m >= 0,
                pow2(p1) >= 0,
        ;
    } else if p2 < p1 {
        lemma_pow2_adds(p2, (p1 - p2) as nat);
        lemma_pow2_le(1, (p1 - p2) as nat);
        lemma2_to64();
        lemma_pow2_unfold(53);
        assert(m * pow2(p1) >= 2 * (m * pow2(p2))) by (nonlinear_arith)
            requires
                pow2(p1) == pow2(p2) * pow2((p1 - p2) as nat),
                pow2((p1 - p2) as nat) >= 2,
                m >= 0,
                pow2(p2) >= 0,
        ;
    }
}

/// `2^n`.
fn pow2_u128(n: u32) -> (r: u128)
    requires
        n < 128,
    ensures
        r == pow2(n as nat),
{
    proof {
        lemma2_to64();
        lemma_pow2_values();
    }
    let mut r: u128 = 1;
    let mut i: u32 = 0;
    while i < n
        invariant
            i <= n < 128,
            r == pow2(i as nat),
            pow2(128) == 0x1_0000_0000_0000_0000_0000_0000_0000_0000,
        decreases n - i,
    {
        proof {
            lemma_pow2_unfold((i + 1) as nat);
            lemma_pow2_le((i + 1) as nat, 127);
            lemma_pow2_strictly_increases(127, 128);
        }
        r = r * 2;
        i = i + 1;
    }
    r
}

fn bit_length(a: u128) -> (l: u32)
    ensures
        l == bit_len(a as nat),
        l <= 128,
{
    let mut v: u128 = a;
    let mut l: u32 = 0;
    proof {
        lemma_bit_len_le_128(a as nat);
        lemma2_to64();
    }
    while v > 0
        invariant
            bit_len(a as nat) == l + bit_len(v as nat),
            l + bit_len(v as nat) <= 128,
            v as int * pow2(l as nat) <= a,
        decreases v,
    {
        proof {
            lemma_bit_len(v as nat);
            lemma_bit_len(a as nat);
            lemma_pow2_unfold((l + 1) as nat);
            lemma_pow2_values();
            lemma_pow2_pos(l as nat);
            assert((v / 2) as int * pow2((l + 1) as nat) <= v as int * pow2(l as nat)) by (nonlinear_arith)
                requires
                    pow2((l + 1) as nat) == 2 * pow2(l as nat),
                    pow2(l as nat) > 0,
            ;
        }
        v = v / 2;
        l = l + 1;
    }
    l
}

proof fn lemma_bit_len_le_128(a: nat)
    requires
        a < 0x1_0000_0000_0000_0000_0000_0000_0000_0000,
    ensures
        bit_len(a) <= 128,
{
    lemma_bit_len(a);
    lemma_pow2_values();
    if bit_len(a) > 128 {
        lemma_pow2_le(128, (bit_len(a) - 1) as nat);
    }
}

/// Rounds `a / 2^p` to an `f64` value, given that its magnitude stays
/// below `2^53`.
pub fn round_binary_exec(a: i128, p: u32) -> (r: (i128, u32))
    requires
        a > i128::MIN,
        magnitude(a as int) < pow2(p as nat + 53),
        p <= 200,
    ensures
        r.0 as int == round_binary(a as int, p as nat).0,
        r.1 as nat == round_binary(a as int, p as nat).1,
{
    let m: u128 = if a < 0 { (-a) as u128 } else { a as u128 };
    proof {
        lemma_bit_len_le_128(m as nat);
    }
    let l = bit_length(m);
    if l <= 53 {
        return (a, p);
    }
    proof {
        lemma_bit_len(m as nat);
        if (l - 1) as nat >= p as nat + 53 {
            lemma_pow2_le(p as nat + 53, (l - 1) as nat);
        }
    }
    let drop: u32 = l - 53;
    let d = pow2_u128(drop);
    proof {
        lemma_pow2_pos(drop as nat);
        lemma2_to64();
        lemma_pow2_values();
        lemma_pow2_le(drop as nat, 75);
        lemma_pow2_adds(64, 11);
        lemma_pow2_adds(53, drop as nat);
        assert(m < pow2(53) * d);
        lemma_round_le(m as int, d as int, pow2(53) as int);
    }
    let q: u128 = m / d;
    let rem: u128 = m % d;
    let rounded: u128 = if 2 * rem > d {
        q + 1
    } else if 2 * rem < d {
        q
    } else if q % 2 == 0 {
        q
    } else {
        q + 1
    };
    assert(rounded == round_half_even(m as int, d as int));
    let n: i128 = if a < 0 { -(rounded as i128) } else { rounded as i128 };
    (n, p - drop)
}

/// Divides two integers as `f64` does, `a / s`, for `|a| < 2^32` and
/// `0 < s < 2^32`.
pub fn round_quotient_exec(a: i128, s: i128) -> (r: (i128, u32))
    requires
        -0x1_0000_0000 < a < 0x1_0000_0000,
        0 < s < 0x1_0000_0000,
    ensures
        r.0 as int == round_quotient(a as int, s as int).0,
        r.1 as nat == round_quotient(a as int, s as int).1,
        r.1 <= 84,
        magnitude(r.0 as int) <= pow2(53),
        magnitude(r.0 as int) <= magnitude(a as int) * pow2(r.1 as nat),
{
    if a == 0 {
        return (0, 0);
    }
    proof {
        lemma_pow2_values();
    }
    let m: u128 = if a < 0 { (-a) as u128 } else { a as u128 };
    let lowest: u128 = 0x10_0000_0000_0000 * (s as u128);
    let mut t: u128 = m;
    let mut p: u32 = 0;
    proof {
        lemma2_to64();
    }
    while t < lowest
        invariant
            lowest == pow2(52) * s,
            t == m * pow2(p as nat),
            t < pow2(53) * s,
            m >= 1,
            s < 0x1_0000_0000,
            pow2(52) == 0x10_0000_0000_0000,
            pow2(53) == 0x20_0000_0000_0000,
            pow2(p as nat) <= t,
        decreases pow2(53) * s - t,
    {
        proof {
            lemma_pow2_unfold((p + 1) as nat);
            lemma_pow2_pos(p as nat);
            assert(m * pow2((p + 1) as nat) == 2 * (m * pow2(p as nat))) by (nonlinear_arith)
                requires
                    pow2((p + 1) as nat) == 2 * pow2(p as nat),
            ;
            if p >= 85 {
                lemma_pow2_le(85, p as nat);
                lemma_pow2_adds(64, 21);
                lemma2_to64();
            }
        }
        t = t * 2;
        p = p + 1;
    }
    proof {
        assert(quotient_binade(m as nat, s as nat, p as nat));
        let c = choose|q: nat| #[trigger] quotient_binade(m as nat, s as nat, q);
        lemma_quotient_binade_unique(m as nat, s as nat, p as nat, c);
        if p > 84 {
            lemma_pow2_le(85, p as nat);
            lemma_pow2_adds(64, 21);
            assert(pow2(85) == 0x20_0000_0000_0000_0000_0000) by {
                lemma2_to64();
            }
        }
    }
    let q: u128 = t / (s as u128);
    let rem: u128 = t % (s as u128);
    let rounded: u128 = if 2 * rem > s as u128 {
        q + 1
    } else if 2 * rem < s as u128 {
        q
    } else if q % 2 == 0 {
        q
    } else {
        q + 1
    };
    assert(rounded == round_half_even(t as int, s as int));
    proof {
        lemma_round_le(t as int, s as int, pow2(53) as int);
        assert(t <= t * s) by (nonlinear_arith)
            requires
                s >= 1,
        ;
        lemma_round_le(t as int, s as int, t as int);
    }
    let n: i128 = if a < 0 { -(rounded as i128) } else { rounded as i128 };
    (n, p)
}

proof fn lemma_bit_len_below(a: nat, e: nat)
    requires
        a < pow2(e),
    ensures
        bit_len(a) <= e,
{
    lemma_bit_len(a);
    if bit_len(a) > e {
        lemma_pow2_le(e, (bit_len(a) - 1) as nat);
    }
}

/// Where the season timeline puts a day, as `f64` computes it:
/// `90 + (day - lo) / span * 530`, each operation rounded.
pub open spec fn timeline_x(day: int, lo: int, span: int) -> (int, nat) {
    let q = round_quotient(day - lo, span);
    let m = round_binary(530 * q.0, q.1);
    round_binary(90 * pow2(m.1) + m.0, m.1)
}

/// A value the timeline can hold: a denominator of at most `2^84` and a
/// magnitude of at most `2^41`.
pub open spec fn timeline_value(x: (int, nat)) -> bool {
    &&& x.1 <= 84
    &&& magnitude(x.0) <= pow2(41) * pow2(x.1)
}

/// Computes `timeline_x` for a day less than `2^31` days from the axis
/// start and a span below `2^32` days.
pub fn timeline_x_exec(day: i64, lo: i64, span: i64) -> (r: (i128, u32))
    requires
        -0x8000_0000 < (day as int) - (lo as int) < 0x8000_0000,
        0 < span < 0x1_0000_0000,
    ensures
        r.0 as int == timeline_x(day as int, lo as int, span as int).0,
        r.1 as nat == timeline_x(day as int, lo as int, span as int).1,
        timeline_value((r.0 as int, r.1 as nat)),
        magnitude(r.0 as int) <= pow2(53),
{
    let k: i128 = (day as i128) - (lo as i128);
    let q = round_quotient_exec(k, span as i128);
    proof {
        lemma2_to64();
        lemma_pow2_values();
        lemma_pow2_adds(32, 9);
        lemma_pow2_adds(41, 12);
        lemma_pow2_adds(q.1 as nat, 53);
        lemma_pow2_adds(41, q.1 as nat);
        lemma_pow2_pos(q.1 as nat);
        assert(magnitude(530 * q.0 as int) <= (530 * 0x8000_0000) * pow2(q.1 as nat)) by (nonlinear_arith)
            requires
                magnitude(q.0 as int) <= magnitude(k as int) * pow2(q.1 as nat),
                magnitude(k as int) < 0x8000_0000,
                pow2(q.1 as nat) > 0,
        ;
        assert((530 * 0x8000_0000) * pow2(q.1 as nat) < pow2(q.1 as nat + 53)) by (nonlinear_arith)
            requires
                pow2(q.1 as nat + 53) == pow2(q.1 as nat) * pow2(53),
                pow2(53) == 0x20_0000_0000_0000,
                pow2(q.1 as nat) > 0,
        ;
    }
    let a1: i128 = 530 * q.0;
    let m = round_binary_exec(a1, q.1);
    proof {
        lemma_bit_len_below(magnitude(a1 as int) as nat, q.1 as nat + 53);
        lemma_round_binary_bound(a1 as int, q.1 as nat, 530 * 0x8000_0000int);
        lemma_pow2_le(m.1 as nat, 84);
        lemma_pow2_adds(64, 20);
        lemma_pow2_pos(m.1 as nat);
    }
    let scale = pow2_u128(m.1) as i128;
    let a2: i128 = 90 * scale + m.0;
    proof {
        lemma_pow2_adds(m.1 as nat, 53);
        assert(magnitude(a2 as int) <= pow2(41) * pow2(m.1 as nat)) by (nonlinear_arith)
            requires
                a2 == 90 * scale + m.0,
                scale == pow2(m.1 as nat),
                magnitude(m.0 as int) <= (530 * 0x8000_0000) * pow2(m.1 as nat),
                pow2(41) == 0x200_0000_0000,
                scale > 0,
        ;
        assert(pow2(41) * pow2(m.1 as nat) < pow2(m.1 as nat + 53)) by (nonlinear_arith)
            requires
                pow2(m.1 as nat + 53) == pow2(m.1 as nat) * pow2(53),
                pow2(41) == 0x200_0000_0000,
                pow2(53) == 0x20_0000_0000_0000,
                pow2(m.1 as nat) > 0,
        ;
        lemma_bit_len_below(magnitude(a2 as int) as nat, m.1 as nat + 53);
        lemma_round_binary_bound(a2 as int, m.1 as nat, pow2(41) as int);
    }
    round_binary_exec(a2, m.1)
}

/// The two values over their common denominator.
fn over_common(x: (i128, u32), y: (i128, u32)) -> (r: (i128, i128, u32))
    requires
        timeline_value((x.0 as int, x.1 as nat)),
        timeline_value((y.0 as int, y.1 as nat)),
    ensures
        r.2 as nat == common_exponent((x.0 as int, x.1 as nat), (y.0 as int, y.1 as nat)),
        r.0 as int == over((x.0 as int, x.1 as nat), r.2 as nat),
        r.1 as int == over((y.0 as int, y.1 as nat), r.2 as nat),
        magnitude(r.0 as int) <= pow2(41) * pow2(r.2 as nat),
        magnitude(r.1 as int) <= pow2(41) * pow2(r.2 as nat),
        magnitude(r.0 as int) <= pow2(125),
        magnitude(r.1 as int) <= pow2(125),
        r.2 <= 84,
{
    let e: u32 = if x.1 >= y.1 { x.1 } else { y.1 };
    proof {
        lemma_pow2_values();
        lemma_pow2_le((e - x.1) as nat, 84);
        lemma_pow2_le((e - y.1) as nat, 84);
    }
    let sx = pow2_u128(e - x.1) as i128;
    let sy = pow2_u128(e - y.1) as i128;
    proof {
        lemma2_to64();
        lemma_pow2_values();
        lemma_pow2_adds(x.1 as nat, (e - x.1) as nat);
        lemma_pow2_adds(y.1 as nat, (e - y.1) as nat);
        lemma_pow2_le(e as nat, 84);
        lemma_pow2_adds(41, 84);
        lemma_pow2_adds(64, 20);
        lemma_pow2_adds(64, 61);
        lemma_pow2_pos((e - x.1) as nat);
        lemma_pow2_pos((e - y.1) as nat);
        assert(magnitude(x.0 * sx) <= pow2(41) * pow2(e as nat)) by (nonlinear_arith)
            requires
                magnitude(x.0 as int) <= pow2(41) * pow2(x.1 as nat),
                pow2(e as nat) == pow2(x.1 as nat) * pow2((e - x.1) as nat),
                sx == pow2((e - x.1) as nat),
                sx > 0,
        ;
        assert(magnitude(y.0 * sy) <= pow2(41) * pow2(e as nat)) by (nonlinear_arith)
            requires
                magnitude(y.0 as int) <= pow2(41) * pow2(y.1 as nat),
                pow2(e as nat) == pow2(y.1 as nat) * pow2((e - y.1) as nat),
                sy == pow2((e - y.1) as nat),
                sy > 0,
        ;
        assert(pow2(41) * pow2(e as nat) <= pow2(125)) by (nonlinear_arith)
            requires
                pow2(e as nat) <= pow2(84),
                pow2(125) == pow2(41) * pow2(84),
        ;
    }
    (x.0 * sx, y.0 * sy, e)
}

/// Whether `x >= y`, as `f64` compares them.
pub fn binary_ge_exec(x: (i128, u32), y: (i128, u32)) -> (r: bool)
    requires
        timeline_value((x.0 as int, x.1 as nat)),
        timeline_value((y.0 as int, y.1 as nat)),
    ensures
        r == binary_ge((x.0 as int, x.1 as nat), (y.0 as int, y.1 as nat)),
{
    let (ox, oy, _) = over_common(x, y);
    ox >= oy
}

/// `x - y` as `f64` computes it.
pub fn binary_sub_exec(x: (i128, u32), y: (i128, u32)) -> (r: (i128, u32))
    requires
        timeline_value((x.0 as int, x.1 as nat)),
        timeline_value((y.0 as int, y.1 as nat)),
    ensures
        r.0 as int == binary_sub((x.0 as int, x.1 as nat), (y.0 as int, y.1 as nat)).0,
        r.1 as nat == binary_sub((x.0 as int, x.1 as nat), (y.0 as int, y.1 as nat)).1,
        r.1 <= 84,
        magnitude(r.0 as int) <= pow2(53),
{
    let (ox, oy, e) = over_common(x, y);
    proof {
        lemma_pow2_values();
        lemma2_to64();
        lemma_pow2_adds(e as nat, 53);
        lemma_pow2_adds(41, 12);
        lemma_pow2_pos(e as nat);
        assert(magnitude(ox - oy) <= 2 * pow2(41) * pow2(e as nat)) by (nonlinear_arith)
            requires
                magnitude(ox as int) <= pow2(41) * pow2(e as nat),
                magnitude(oy as int) <= pow2(41) * pow2(e as nat),
        ;
        assert(2 * pow2(41) * pow2(e as nat) < pow2(e as nat + 53)) by (nonlinear_arith)
            requires
                pow2(e as nat + 53) == pow2(e as nat) * pow2(53),
                pow2(41) == 0x200_0000_0000,
                pow2(53) == 0x20_0000_0000_0000,
                pow2(e as nat) > 0,
        ;
        lemma_bit_len_below(magnitude(ox - oy) as nat, e as nat + 53);
        lemma_round_binary_bound(ox - oy, e as nat, (2 * pow2(41)) as int);
    }
    round_binary_exec(ox - oy, e)
}

/// Appends `x` as `format!("{:.1}", x)` writes it.
pub fn push_binary(out: &mut String, x: (i128, u32))
    requires
        x.1 <= 84,
        magnitude(x.0 as int) <= pow2(53),
    ensures
        final(out)@ == old(out)@ + binary_text((x.0 as int, x.1 as nat)),
{
    proof {
        lemma2_to64();
        lemma_pow2_values();
        lemma_pow2_adds(64, 16);
    }
    if x.1 <= 80 {
        proof {
            lemma_pow2_le(x.1 as nat, 80);
            lemma_pow2_pos(x.1 as nat);
        }
        let d = pow2_u128(x.1);
        assert(d <= 0x1_0000_0000_0000_0000_0000);
        push_decimal1(out, x.0, d as i128);
    } else {
        let d: i128 = 0x1_0000_0000_0000_0000_0000;
        let sign: i128 = if x.0 < 0 { -1 } else if x.0 == 0 { 0 } else { 1 };
        proof {
            lemma_pow2_le(81, x.1 as nat);
            lemma_pow2_adds(64, 17);
            lemma_decimal1(x.0 as int, pow2(x.1 as nat) as int);
            lemma_decimal1(sign as int, d as int);
            lemma_round_to_zero(magnitude(x.0 as int) * 10, pow2(x.1 as nat) as int);
            lemma_round_to_zero(magnitude(sign as int) * 10, d as int);
        }
        push_decimal1(out, sign, d);
    }
}

proof fn lemma_round_to_zero(a: int, b: int)
    requires
        0 <= a,
        2 * a < b,
    ensures
        round_half_even(a, b) == 0,
{
    lemma_fundamental_div_mod(a, b);
    let q = a / b;
    let r = a % b;
    assert(0 <= r < b);
    assert(q == 0) by (nonlinear_arith)
        requires
            a == b * q + r,
            0 <= r < b,
            0 <= a,
            2 * a < b,
    ;
}

} // verus!
