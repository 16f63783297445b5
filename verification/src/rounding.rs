//! Rounding to the nearest integer, ties to even, and rounding of a dyadic
//! number to a given count of significant bits.

use vstd::prelude::*;
use vstd::arithmetic::power2::*;
use vstd::arithmetic::div_mod::*;
use vstd::arithmetic::mul::*;
use crate::bits::{
    bit_at,
    bit_length,
    lemma_bit_length_bounds,
    lemma_bit_length_positive,
    lemma_bit_length_shl,
    lemma_bit_length_shr,
    lemma_bit_length_unique,
    lemma_div_between,
};

verus! {

/// The rational `n / d` rounded to the nearest integer; where it lies half
/// way between two integers, the even one is taken.
pub open spec fn round_div(n: nat, d: nat) -> nat
    recommends
        d > 0,
{
    let q = n / d;
    let r = n % d;
    if 2 * r < d || (2 * r == d && q % 2 == 0) {
        q
    } else {
        q + 1
    }
}

/// Whether `n / 2^s` is rounded upwards, read off the binary digits of `n`:
/// the digit below the cut is set, and either the digit above it is set too
/// or some digit further down is.
pub open spec fn rounds_up(n: nat, s: nat) -> bool
    recommends
        s >= 1,
{
    bit_at(n, (s - 1) as nat) && (bit_at(n, s) || n % pow2((s - 1) as nat) != 0)
}

/// A significand and the exponent of its leading bit.
pub struct Rounded {
    pub signif: nat,
    pub exp: int,
}

/// The positive number `n * 2^e` rounded to `p` significant bits, to nearest
/// with ties to even. The result's significand has exactly `p` bits, and the
/// exponent is that of its leading bit; it is not yet held to any range.
pub open spec fn round_dyadic(n: nat, e: int, p: nat) -> Rounded
    recommends
        n > 0,
        p > 0,
{
    let b = bit_length(n);
    if b <= p {
        Rounded { signif: n * pow2((p - b) as nat), exp: e + b - 1 }
    } else {
        let s = round_div(n, pow2((b - p) as nat));
        if s >= pow2(p) {
            Rounded { signif: pow2((p - 1) as nat), exp: e + b }
        } else {
            Rounded { signif: s, exp: e + b - 1 }
        }
    }
}

/// Whether `f` is the square root of `x` rounded down.
pub open spec fn is_floor_sqrt(x: nat, f: nat) -> bool {
    f * f <= x < (f + 1) * (f + 1)
}

/// The square root of `x` rounded down: the `f` with `f^2 <= x < (f+1)^2`.
pub open spec fn floor_sqrt(x: nat) -> nat {
    choose|f: nat| is_floor_sqrt(x, f)
}

/// The integer nearest to the real square root of `x`. The root of an
/// integer never lies half way between two integers, so no tie arises: the
/// root is nearer to `f + 1` than to `f` exactly when `x > f^2 + f`.
pub open spec fn round_sqrt(x: nat) -> nat {
    let f = floor_sqrt(x);
    if x - f * f > f {
        f + 1
    } else {
        f
    }
}

/// The quotient and remainder of a sum of a multiple and a small rest.
pub proof fn lemma_div_mod_of(n: int, d: int, q: int, r: int)
    requires
        d > 0,
        0 <= r < d,
        n == q * d + r,
    ensures
        n / d == q,
        n % d == r,
{
    lemma_mul_is_commutative(q, d);
    lemma_fundamental_div_mod_converse(n, d, q, r);
}

/// Rounding cannot lift a fraction above an integer that it does not exceed.
pub proof fn lemma_round_div_at_most(n: nat, d: nat, c: nat)
    requires
        d > 0,
        n <= c * d,
    ensures
        round_div(n, d) <= c,
{
    lemma_fundamental_div_mod(n as int, d as int);
    lemma_mod_bound(n as int, d as int);
    let q = n / d;
    let r = n % d;
    assert(q < c || (q == c && r == 0)) by (nonlinear_arith)
        requires
            n == d * q + r,
            0 <= r < d,
            n <= c * d,
    ;
}

/// Rounding cannot bring a fraction below an integer that it reaches.
pub proof fn lemma_round_div_at_least(n: nat, d: nat, c: nat)
    requires
        d > 0,
        n >= c * d,
    ensures
        round_div(n, d) >= c,
{
    assert(n < (n + 1) * d) by (nonlinear_arith)
        requires
            d > 0,
    ;
    lemma_div_between(n as int, d as int, c as int, (n + 1) as int);
}

/// A fraction more than half a step above `c - 1` rounds to `c` or more.
pub proof fn lemma_round_div_above_half(n: nat, d: nat, c: nat)
    requires
        d > 0,
        2 * n > (2 * c - 1) * d,
    ensures
        round_div(n, d) >= c,
{
    lemma_fundamental_div_mod(n as int, d as int);
    lemma_mod_bound(n as int, d as int);
    let q = n / d;
    let r = n % d;
    assert(q >= c || (q == c - 1 && 2 * r > d)) by (nonlinear_arith)
        requires
            n == d * q + r,
            0 <= r < d,
            2 * n > (2 * c - 1) * d,
    ;
}

/// A fraction less than half a step above `c` rounds to `c` or less.
pub proof fn lemma_round_div_below_half(n: nat, d: nat, c: nat)
    requires
        d > 0,
        2 * n < (2 * c + 1) * d,
    ensures
        round_div(n, d) <= c,
{
    lemma_fundamental_div_mod(n as int, d as int);
    lemma_mod_bound(n as int, d as int);
    let q = n / d;
    let r = n % d;
    assert(q < c || (q == c && 2 * r < d)) by (nonlinear_arith)
        requires
            n == d * q + r,
            0 <= r < d,
            2 * n < (2 * c + 1) * d,
    ;
}

/// A rounded fraction lies within a half of the fraction, and where it lies
/// exactly a half away, it is even.
pub proof fn lemma_round_div_error(n: nat, d: nat)
    requires
        d > 0,
    ensures
        2 * (round_div(n, d) * d - n) <= d,
        2 * (n - round_div(n, d) * d) <= d,
        2 * (round_div(n, d) * d - n) == d || 2 * (n - round_div(n, d) * d) == d ==> round_div(
            n,
            d,
        ) % 2 == 0,
{
    lemma_fundamental_div_mod(n as int, d as int);
    lemma_mod_bound(n as int, d as int);
    let q = n / d;
    assert(q * d == d * q && (q + 1) * d == d * q + d) by (nonlinear_arith);
}

/// Rounding is unchanged when numerator and denominator are scaled alike.
pub proof fn lemma_round_div_scaled(a: nat, b: nat, c: nat)
    requires
        b > 0,
        c > 0,
    ensures
        round_div(a * c, b * c) == round_div(a, b),
{
    let q = a / b;
    let r = a % b;
    lemma_fundamental_div_mod(a as int, b as int);
    lemma_mod_bound(a as int, b as int);
    assert(a * c == q * (b * c) + r * c && 0 <= r * c < b * c) by (nonlinear_arith)
        requires
            a == b * q + r,
            0 <= r < b,
            c > 0,
    ;
    lemma_div_mod_of((a * c) as int, (b * c) as int, q as int, (r * c) as int);
    assert((2 * (r * c) < b * c) == (2 * r < b) && (2 * (r * c) == b * c) == (2 * r == b))
        by (nonlinear_arith)
        requires
            c > 0,
    ;
}

/// Rounding `n / 2^s` decided by three binary digits' worth of knowledge.
pub proof fn lemma_round_div_bits(n: nat, s: nat)
    requires
        s >= 1,
    ensures
        round_div(n, pow2(s)) == n / pow2(s) + (if rounds_up(n, s) { 1nat } else { 0nat }),
{
    let h = pow2((s - 1) as nat);
    let d = pow2(s);
    lemma_pow2_unfold(s);
    lemma_pow2_pos((s - 1) as nat);
    let q = n / d;
    let r = n % d;
    lemma_fundamental_div_mod(n as int, d as int);
    lemma_mod_bound(n as int, d as int);
    if r < h {
        assert(n == (2 * q) * h + r) by (nonlinear_arith)
            requires
                n == d * q + r,
                d == 2 * h,
        ;
        lemma_div_mod_of(n as int, h as int, (2 * q) as int, r as int);
    } else {
        assert(n == (2 * q + 1) * h + (r - h)) by (nonlinear_arith)
            requires
                n == d * q + r,
                d == 2 * h,
        ;
        lemma_div_mod_of(n as int, h as int, (2 * q + 1) as int, r - h);
    }
}

/// A quotient with a flag for a nonzero remainder rounds as the exact
/// fraction does, once at least one digit of the quotient is cut off.
pub proof fn lemma_round_div_sticky(n: nat, d: nat, u: nat)
    requires
        d > 0,
        u >= 1,
    ensures
        round_div(2 * (n / d) + (if n % d != 0 { 1nat } else { 0nat }), pow2(u + 1)) == round_div(
            n,
            d * pow2(u),
        ),
{
    let p = pow2(u);
    lemma_pow2_unfold(u);
    lemma_pow2_unfold(u + 1);
    lemma_pow2_pos((u - 1) as nat);
    let q = n / d;
    let r = n % d;
    lemma_fundamental_div_mod(n as int, d as int);
    lemma_mod_bound(n as int, d as int);
    let qq = q / p;
    let rr = q % p;
    lemma_fundamental_div_mod(q as int, p as int);
    lemma_mod_bound(q as int, p as int);
    let st: nat = if r != 0 { 1 } else { 0 };
    assert(n == qq * (d * p) + (rr * d + r) && 0 <= rr * d + r < d * p) by (nonlinear_arith)
        requires
            n == d * q + r,
            q == p * qq + rr,
            0 <= r < d,
            0 <= rr < p,
    ;
    lemma_div_mod_of(n as int, (d * p) as int, qq as int, (rr * d + r) as int);
    assert(2 * q + st == qq * (2 * p) + (2 * rr + st)) by (nonlinear_arith)
        requires
            q == p * qq + rr,
    ;
    lemma_div_mod_of((2 * q + st) as int, (2 * p) as int, qq as int, (2 * rr + st) as int);
    let half = pow2((u - 1) as nat);
    assert(p == 2 * half);
    if r == 0 {
        assert((2 * (rr * d) < d * p) == (2 * rr < p) && (2 * (rr * d) == d * p) == (2 * rr == p))
            by (nonlinear_arith)
            requires
                d > 0,
        ;
    } else {
        if rr < half {
            assert(2 * (rr * d + r) < d * p) by (nonlinear_arith)
                requires
                    rr + 1 <= half,
                    p == 2 * half,
                    0 < r < d,
            ;
        } else {
            assert(2 * (rr * d + r) > d * p) by (nonlinear_arith)
                requires
                    rr >= half,
                    p == 2 * half,
                    0 < r < d,
            ;
        }
    }
}

/// Rounding to `p` bits yields a significand of exactly `p` bits.
pub proof fn lemma_round_dyadic_bits(n: nat, e: int, p: nat)
    requires
        n > 0,
        p > 0,
    ensures
        bit_length(round_dyadic(n, e, p).signif) == p,
{
    let b = bit_length(n);
    lemma_bit_length_bounds(n);
    if b <= p {
        lemma_bit_length_shl(n, (p - b) as nat);
    } else {
        let k = (b - p) as nat;
        let q = n / pow2(k);
        lemma_pow2_pos(k);
        lemma_bit_length_shr(n, k);
        assert(q > 0) by {
            if q == 0 {
                assert(bit_length(q) == 0);
            }
        }
        lemma_bit_length_bounds(q);
        let s = round_div(n, pow2(k));
        assert(s == q || s == q + 1);
        if s >= pow2(p) {
            lemma_pow2_strictly_increases((p - 1) as nat, p);
            lemma_bit_length_unique(pow2((p - 1) as nat), p);
        } else {
            lemma_bit_length_unique(s, p);
        }
    }
}

/// Rounding a dyadic number does not depend on how its value is split
/// between the integer and the power of two.
pub proof fn lemma_round_dyadic_scaled(n: nat, e: int, j: nat, p: nat)
    requires
        n > 0,
        p > 0,
    ensures
        round_dyadic(n * pow2(j), e - j, p) == round_dyadic(n, e, p),
{
    let b = bit_length(n);
    let m = n * pow2(j);
    lemma_pow2_pos(j);
    lemma_bit_length_shl(n, j);
    lemma_bit_length_bounds(n);
    if b + j <= p {
        lemma_pow2_adds(j, (p - b - j) as nat);
        assert(m * pow2((p - b - j) as nat) == n * pow2((p - b) as nat)) by (nonlinear_arith)
            requires
                m == n * pow2(j),
                pow2((p - b) as nat) == pow2(j) * pow2((p - b - j) as nat),
        ;
    } else if b <= p {
        let cut = pow2((b + j - p) as nat);
        let kept = n * pow2((p - b) as nat);
        lemma_pow2_pos((b + j - p) as nat);
        lemma_pow2_adds((p - b) as nat, (b + j - p) as nat);
        assert(m == kept * cut + 0) by (nonlinear_arith)
            requires
                m == n * pow2(j),
                kept == n * pow2((p - b) as nat),
                pow2(j) == pow2((p - b) as nat) * cut,
        ;
        lemma_div_mod_of(m as int, cut as int, kept as int, 0);
        lemma_bit_length_shl(n, (p - b) as nat);
        lemma_bit_length_bounds(kept);
    } else {
        lemma_pow2_adds((b - p) as nat, j);
        lemma_pow2_pos((b - p) as nat);
        lemma_round_div_scaled(n, pow2((b - p) as nat), pow2(j));
    }
}

/// Rounding to `p` bits gives the nearest number of `p` bits. A number of
/// at most `p` bits is kept exactly. One of more bits is replaced by a
/// number that differs from it by at most half a unit in the last place of
/// the result, and where the two differ by exactly a half, the result's
/// significand is even.
pub proof fn law_rounding_is_nearest(n: nat, e: int, p: nat)
    requires
        n > 0,
        p > 0,
    ensures
        ({
            let r = round_dyadic(n, e, p);
            let b = bit_length(n);
            let ulp = pow2((r.exp - (p - 1) - e) as nat);
            &&& bit_length(r.signif) == p
            &&& b <= p ==> r.exp == e + b - 1 && r.signif == n * pow2((p - b) as nat)
            &&& b > p ==> r.exp - (p - 1) - e >= 1
            &&& b > p ==> 2 * (r.signif * ulp - n) <= ulp && 2 * (n - r.signif * ulp) <= ulp
            &&& b > p && (2 * (r.signif * ulp - n) == ulp || 2 * (n - r.signif * ulp) == ulp)
                ==> r.signif % 2 == 0
        }),
{
    let b = bit_length(n);
    lemma_round_dyadic_bits(n, e, p);
    if b > p {
        let d = pow2((b - p) as nat);
        let s = round_div(n, d);
        lemma_pow2_pos((b - p) as nat);
        lemma_pow2_unfold((b - p + 1) as nat);
        lemma_pow2_unfold(p);
        lemma_pow2_pos((p - 1) as nat);
        lemma_round_div_error(n, d);
        lemma_bit_length_shr(n, (b - p) as nat);
        lemma_bit_length_positive(n / d);
        lemma_bit_length_bounds(n / d);
        if s >= pow2(p) {
            let low = pow2((p - 1) as nat);
            assert(low * (2 * d) == s * d) by (nonlinear_arith)
                requires
                    s == 2 * low,
            ;
        }
    }
}

/// Every natural number has a square root rounded down.
pub proof fn lemma_floor_sqrt_exists(x: nat)
    ensures
        is_floor_sqrt(x, floor_sqrt(x)),
    decreases x,
{
    if x == 0 {
        assert(is_floor_sqrt(0, 0)) by (nonlinear_arith);
    } else {
        lemma_floor_sqrt_exists((x - 1) as nat);
        let r = floor_sqrt((x - 1) as nat);
        if (r + 1) * (r + 1) <= x {
            assert((r + 1) * (r + 1) <= x < (r + 1 + 1) * (r + 1 + 1)) by (nonlinear_arith)
                requires
                    (r + 1) * (r + 1) <= x,
                    x - 1 < (r + 1) * (r + 1),
            ;
            assert(is_floor_sqrt(x, r + 1));
        } else {
            assert(is_floor_sqrt(x, r));
        }
    }
}

/// The square root rounded down is the only `f` with `f^2 <= x < (f+1)^2`.
pub proof fn lemma_floor_sqrt_unique(x: nat, f: nat)
    requires
        is_floor_sqrt(x, f),
    ensures
        floor_sqrt(x) == f,
{
    lemma_floor_sqrt_exists(x);
    let g = floor_sqrt(x);
    assert(g == f) by (nonlinear_arith)
        requires
            f * f <= x < (f + 1) * (f + 1),
            g * g <= x < (g + 1) * (g + 1),
    ;
}

/// The square root of `4x` rounded down is twice that of `x`, plus one where
/// the root of `x` is nearer to the next integer; and in that case `4x` is
/// no perfect square.
pub proof fn lemma_floor_sqrt_times_four(x: nat)
    ensures
        floor_sqrt(4 * x) == 2 * floor_sqrt(x) + (round_sqrt(x) - floor_sqrt(x)),
        round_sqrt(x) > floor_sqrt(x) ==> 4 * x > floor_sqrt(4 * x) * floor_sqrt(4 * x),
{
    lemma_floor_sqrt_exists(x);
    let f = floor_sqrt(x);
    if x - f * f > f {
        let g = 2 * f + 1;
        assert(g * g < 4 * x && 4 * x < (g + 1) * (g + 1)) by (nonlinear_arith)
            requires
                g == 2 * f + 1,
                x - f * f >= f + 1,
                x < (f + 1) * (f + 1),
        ;
        assert(is_floor_sqrt(4 * x, g));
        lemma_floor_sqrt_unique(4 * x, g);
    } else {
        let g = 2 * f;
        assert(g * g <= 4 * x && 4 * x < (g + 1) * (g + 1)) by (nonlinear_arith)
            requires
                g == 2 * f,
                f * f <= x,
                x - f * f <= f,
        ;
        assert(is_floor_sqrt(4 * x, g));
        lemma_floor_sqrt_unique(4 * x, g);
    }
}

/// The rounded square root of a number between `2^(2p-2)` and `2^(2p) - 2^p`
/// has exactly `p` bits.
pub proof fn lemma_round_sqrt_bits(x: nat, p: nat)
    requires
        p > 0,
        pow2((p - 1) as nat) * pow2((p - 1) as nat) <= x <= (pow2(p) - 1) * pow2(p),
    ensures
        pow2((p - 1) as nat) <= floor_sqrt(x) <= round_sqrt(x) < pow2(p),
        bit_length(round_sqrt(x)) == p,
{
    lemma_floor_sqrt_exists(x);
    let f = floor_sqrt(x);
    let low = pow2((p - 1) as nat);
    let top = pow2(p);
    lemma_pow2_pos((p - 1) as nat);
    lemma_pow2_unfold(p);
    assert(low <= f) by (nonlinear_arith)
        requires
            low * low <= x,
            x < (f + 1) * (f + 1),
    ;
    assert(f <= top - 1 && (f == top - 1 ==> x - f * f <= f)) by (nonlinear_arith)
        requires
            f * f <= x,
            x <= (top - 1) * top,
            top >= 1,
    ;
    lemma_bit_length_unique(round_sqrt(x), p);
}

/// The integer nearest to a square root lies within a half of the root:
/// its square differs from the radicand by less than itself.
pub proof fn lemma_round_sqrt_error(x: nat)
    requires
        x >= 1,
    ensures
        round_sqrt(x) >= 1,
        round_sqrt(x) * round_sqrt(x) - round_sqrt(x) < x <= round_sqrt(x) * round_sqrt(x)
            + round_sqrt(x),
{
    lemma_floor_sqrt_exists(x);
    let f = floor_sqrt(x);
    let g = round_sqrt(x);
    assert(f >= 1) by (nonlinear_arith)
        requires
            x >= 1,
            x < (f + 1) * (f + 1),
    ;
    if x - f * f > f {
        assert(g * g - g < x <= g * g + g) by (nonlinear_arith)
            requires
                g == f + 1,
                x - f * f > f,
                x < (f + 1) * (f + 1),
        ;
    } else {
        assert(g * g - g < x <= g * g + g) by (nonlinear_arith)
            requires
                g == f,
                f >= 1,
                f * f <= x,
                x - f * f <= f,
        ;
    }
}

/// The integer nearest to a square root, told by the radicand: it is `g`
/// where the radicand lies above `g^2 - g` and at most at `g^2 + g`.
pub proof fn lemma_round_sqrt_is(x: nat, g: nat)
    requires
        g >= 1,
        g * g - g < x <= g * g + g,
    ensures
        round_sqrt(x) == g,
{
    if x >= g * g {
        assert(is_floor_sqrt(x, g)) by (nonlinear_arith)
            requires
                g * g <= x <= g * g + g,
        ;
        lemma_floor_sqrt_unique(x, g);
    } else {
        let f = (g - 1) as nat;
        assert(is_floor_sqrt(x, f) && x - f * f > f) by (nonlinear_arith)
            requires
                f == g - 1,
                g >= 1,
                g * g - g < x < g * g,
        ;
        lemma_floor_sqrt_unique(x, f);
    }
}

} // verus!
