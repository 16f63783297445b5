//! Rounding in two steps: first to more digits than are wanted, then to the
//! number wanted. The result is that of rounding at once, or the number next
//! to it; it is that of rounding at once unless the first step ends exactly
//! half way between two numbers of the second.

use vstd::prelude::*;
use vstd::arithmetic::power2::{pow2, lemma_pow2_pos, lemma_pow2_adds, lemma_pow2_unfold};
use vstd::arithmetic::div_mod::{lemma_fundamental_div_mod, lemma_mod_bound};
use crate::bits::{
    bit_length,
    lemma_bit_length_bounds,
    lemma_bit_length_positive,
    lemma_bit_length_shr,
    lemma_bit_length_unique,
    lemma_div_between,
};
use crate::rounding::{
    floor_sqrt,
    round_div,
    round_dyadic,
    round_sqrt,
    Rounded,
    lemma_div_mod_of,
    lemma_floor_sqrt_exists,
    lemma_round_div_at_least,
    lemma_round_div_at_most,
    lemma_round_div_scaled,
    lemma_round_dyadic_bits,
    lemma_round_dyadic_scaled,
};

verus! {

/// Whether two rounded numbers of `p` bits are the same or next to each
/// other: their significands differ by one at one exponent, or one is the
/// last number of a binade and the other the first of the next.
pub open spec fn adjacent(v: Rounded, d: Rounded, p: nat) -> bool {
    ||| v == d
    ||| v.exp == d.exp && (v.signif + 1 == d.signif || d.signif + 1 == v.signif)
    ||| v.exp + 1 == d.exp && v.signif + 1 == pow2(p) && d.signif == pow2((p - 1) as nat)
    ||| d.exp + 1 == v.exp && d.signif + 1 == pow2(p) && v.signif == pow2((p - 1) as nat)
}

/// Rounding in two steps: a fraction rounded first with `k` more binary
/// digits and then to an integer comes out as the fraction rounded at once,
/// unless the first step ends exactly half way between two integers.
pub proof fn lemma_round_div_twice(n: nat, d: nat, k: nat)
    requires
        d > 0,
        k >= 1,
        round_div(n * pow2(k), d) % pow2(k) != pow2((k - 1) as nat),
    ensures
        round_div(round_div(n * pow2(k), d), pow2(k)) == round_div(n, d),
{
    let scale = pow2(k);
    let half = pow2((k - 1) as nat);
    lemma_pow2_unfold(k);
    lemma_pow2_pos((k - 1) as nat);
    let q = n / d;
    let r = n % d;
    lemma_fundamental_div_mod(n as int, d as int);
    lemma_mod_bound(n as int, d as int);
    let fine = r * scale;
    let q2 = fine / d;
    let r2 = fine % d;
    lemma_fundamental_div_mod(fine as int, d as int);
    lemma_mod_bound(fine as int, d as int);
    assert(0 <= fine < scale * d) by (nonlinear_arith)
        requires
            fine == r * scale,
            0 <= r < d,
            scale > 0,
    ;
    lemma_div_between(fine as int, d as int, 0, scale as int);
    assert(n * scale == (q * scale + q2) * d + r2) by (nonlinear_arith)
        requires
            n == d * q + r,
            fine == r * scale,
            fine == d * q2 + r2,
    ;
    lemma_div_mod_of((n * scale) as int, d as int, (q * scale + q2) as int, r2 as int);
    let s2 = round_div(n * scale, d);
    let mid = half * d;
    // How the rest of the one-step division stands to a half.
    assert((2 * r < d) == (fine < mid) && (2 * r == d) == (fine == mid)) by (nonlinear_arith)
        requires
            fine == r * scale,
            scale == 2 * half,
            mid == half * d,
            half > 0,
    ;
    // How the leading part of the finer quotient places that rest.
    assert((q2 + 1 <= half ==> fine < mid) && (q2 >= half + 1 ==> fine > mid) && (q2 == half
        ==> fine == mid + r2)) by (nonlinear_arith)
        requires
            fine == d * q2 + r2,
            0 <= r2 < d,
            mid == half * d,
    ;
    let h = (s2 - q * scale) as nat;
    if h < scale {
        lemma_div_mod_of(s2 as int, scale as int, q as int, h as int);
    } else {
        assert(s2 == (q + 1) * scale + 0) by (nonlinear_arith)
            requires
                s2 == q * scale + scale,
        ;
        lemma_div_mod_of(s2 as int, scale as int, (q + 1) as int, 0);
    }
}

/// Rounding in two steps never strays from the integer part of the
/// fraction by more than one, whether or not the first step ends in a tie.
pub proof fn lemma_round_div_twice_near(n: nat, d: nat, k: nat)
    requires
        d > 0,
    ensures
        n / d <= round_div(round_div(n * pow2(k), d), pow2(k)) <= n / d + 1,
        n / d <= round_div(n, d) <= n / d + 1,
{
    let scale = pow2(k);
    lemma_pow2_pos(k);
    let q = n / d;
    let r = n % d;
    lemma_fundamental_div_mod(n as int, d as int);
    lemma_mod_bound(n as int, d as int);
    let fine = n * scale;
    assert((q * scale) * d <= fine && fine <= ((q + 1) * scale) * d) by (nonlinear_arith)
        requires
            fine == n * scale,
            n == d * q + r,
            0 <= r < d,
            scale > 0,
    ;
    let s2 = round_div(fine, d);
    assert(q * scale <= s2 <= (q + 1) * scale) by {
        assert(fine < ((q + 1) * scale + 1) * d) by (nonlinear_arith)
            requires
                fine <= ((q + 1) * scale) * d,
                d > 0,
        ;
        lemma_div_between(fine as int, d as int, (q * scale) as int, ((q + 1) * scale + 1) as int);
        let q2 = fine / d;
        if q2 == (q + 1) * scale {
            lemma_fundamental_div_mod(fine as int, d as int);
            lemma_mod_bound(fine as int, d as int);
            assert(fine % d == 0) by (nonlinear_arith)
                requires
                    fine == d * q2 + fine % d,
                    q2 == (q + 1) * scale,
                    fine <= ((q + 1) * scale) * d,
                    0 <= fine % d,
            ;
        }
    }
    assert(s2 < (q + 2) * scale) by (nonlinear_arith)
        requires
            s2 <= (q + 1) * scale,
            scale > 0,
    ;
    lemma_div_between(s2 as int, scale as int, q as int, (q + 2) as int);
    if s2 / scale == q + 1 {
        lemma_fundamental_div_mod(s2 as int, scale as int);
        lemma_mod_bound(s2 as int, scale as int);
        assert(s2 % scale == 0) by (nonlinear_arith)
            requires
                s2 == scale * (s2 / scale) + s2 % scale,
                s2 / scale == q + 1,
                s2 <= (q + 1) * scale,
                0 <= s2 % scale,
        ;
    }
}

/// Rounding a dyadic number to `2p` bits and the result to `p` bits gives
/// what rounding to `p` bits at once gives, unless the first result lies
/// exactly half way between two numbers of `p` bits.
pub proof fn lemma_round_dyadic_twice(n: nat, e: int, p: nat)
    requires
        n > 0,
        p > 0,
        round_dyadic(n, e, 2 * p).signif % pow2(p) != pow2((p - 1) as nat),
    ensures
        round_dyadic(
            round_dyadic(n, e, 2 * p).signif,
            round_dyadic(n, e, 2 * p).exp - (2 * p - 1),
            p,
        ) == round_dyadic(n, e, p),
        round_dyadic(n, e, 2 * p).exp == e + bit_length(n) ==> round_dyadic(n, e, p).exp == e
            + bit_length(n),
{
    let b = bit_length(n);
    let wide = round_dyadic(n, e, 2 * p);
    lemma_bit_length_bounds(n);
    lemma_round_dyadic_bits(n, e, 2 * p);
    lemma_bit_length_positive(wide.signif);
    if b <= 2 * p {
        lemma_round_dyadic_scaled(n, e, (2 * p - b) as nat, p);
    } else {
        let t = (b - 2 * p) as nat;
        let cut = pow2(t);
        let s2 = round_div(n, cut);
        lemma_pow2_pos(t);
        lemma_pow2_pos(p);
        lemma_pow2_pos(t + p);
        lemma_pow2_adds(t, p);
        lemma_pow2_adds(p, p);
        lemma_pow2_unfold(p);
        lemma_pow2_pos((p - 1) as nat);
        lemma_round_div_scaled(n, cut, pow2(p));
        assert(pow2(t + p) == cut * pow2(p));
        assert(round_div(n * pow2(p), pow2(t + p)) == s2);
        // The first result, before a carry is folded in, is no tie either.
        assert(s2 % pow2(p) != pow2((p - 1) as nat)) by {
            if s2 >= pow2(2 * p) {
                lemma_bit_length_shr(n, t);
                lemma_bit_length_bounds(n / cut);
                assert(s2 == pow2(p) * pow2(p) + 0);
                lemma_div_mod_of(s2 as int, pow2(p) as int, pow2(p) as int, 0);
            }
        }
        lemma_round_div_twice(n, pow2(t + p), p);
        if s2 >= pow2(2 * p) {
            lemma_bit_length_shr(n, t);
            lemma_bit_length_bounds(n / cut);
            assert(s2 == pow2(p) * pow2(p) + 0);
            lemma_div_mod_of(s2 as int, pow2(p) as int, pow2(p) as int, 0);
            assert(round_div(s2, pow2(p)) == pow2(p));
            // The second step starts from the carried form of the first.
            lemma_pow2_adds((p - 1) as nat, p);
            lemma_bit_length_unique(wide.signif, 2 * p);
            assert(wide.signif == pow2((p - 1) as nat) * pow2(p) + 0);
            lemma_div_mod_of(wide.signif as int, pow2(p) as int, pow2((p - 1) as nat) as int, 0);
        }
    }
}

/// Rounding a dyadic number to `2p` bits and the result to `p` bits gives
/// what rounding to `p` bits at once gives, or the number next to it.
pub proof fn lemma_round_dyadic_twice_near(n: nat, e: int, p: nat)
    requires
        n > 0,
        p > 0,
    ensures
        adjacent(
            round_dyadic(
                round_dyadic(n, e, 2 * p).signif,
                round_dyadic(n, e, 2 * p).exp - (2 * p - 1),
                p,
            ),
            round_dyadic(n, e, p),
            p,
        ),
{
    let b = bit_length(n);
    let wide = round_dyadic(n, e, 2 * p);
    lemma_bit_length_bounds(n);
    lemma_round_dyadic_bits(n, e, 2 * p);
    lemma_bit_length_positive(wide.signif);
    if b <= 2 * p {
        lemma_round_dyadic_scaled(n, e, (2 * p - b) as nat, p);
    } else {
        let t = (b - 2 * p) as nat;
        let cut = pow2(t);
        let s2 = round_div(n, cut);
        lemma_pow2_pos(t);
        lemma_pow2_pos(p);
        lemma_pow2_pos(t + p);
        lemma_pow2_adds(t, p);
        lemma_pow2_adds(p, p);
        lemma_pow2_adds((p - 1) as nat, p);
        lemma_pow2_unfold(p);
        lemma_pow2_pos((p - 1) as nat);
        lemma_round_div_scaled(n, cut, pow2(p));
        assert(round_div(n * pow2(p), pow2(t + p)) == s2);
        lemma_round_div_twice_near(n, pow2(t + p), p);
        let q = n / pow2(t + p);
        lemma_bit_length_shr(n, t + p);
        lemma_bit_length_positive(q);
        lemma_bit_length_bounds(q);
        lemma_bit_length_shr(n, t);
        lemma_bit_length_positive(n / cut);
        lemma_bit_length_bounds(n / cut);
        if s2 >= pow2(2 * p) {
            assert(s2 == pow2(p) * pow2(p) + 0);
            lemma_div_mod_of(s2 as int, pow2(p) as int, pow2(p) as int, 0);
            lemma_bit_length_unique(wide.signif, 2 * p);
            assert(wide.signif == pow2((p - 1) as nat) * pow2(p) + 0);
            lemma_div_mod_of(wide.signif as int, pow2(p) as int, pow2((p - 1) as nat) as int, 0);
        }
    }
}

/// Rounding a square root in two steps: the root rounded first with `k`
/// more binary digits and then to an integer comes out as the root rounded
/// at once, unless the first step ends exactly half way between two
/// integers.
pub proof fn lemma_round_sqrt_twice(x: nat, k: nat)
    requires
        k >= 1,
        round_sqrt(x * pow2(2 * k)) % pow2(k) != pow2((k - 1) as nat),
    ensures
        round_div(round_sqrt(x * pow2(2 * k)), pow2(k)) == round_sqrt(x),
{
    let scale = pow2(k);
    let half = pow2((k - 1) as nat);
    lemma_pow2_unfold(k);
    lemma_pow2_pos((k - 1) as nat);
    lemma_pow2_adds(k, k);
    let wide = x * pow2(2 * k);
    assert(wide == x * scale * scale) by (nonlinear_arith)
        requires
            wide == x * pow2(2 * k),
            pow2(2 * k) == scale * scale,
    ;
    lemma_floor_sqrt_exists(x);
    lemma_floor_sqrt_exists(wide);
    let f = floor_sqrt(x);
    let g = floor_sqrt(wide);
    // The finer root lies in the stretch that the coarser root names.
    assert(f * scale <= g < (f + 1) * scale) by (nonlinear_arith)
        requires
            f * f <= x < (f + 1) * (f + 1),
            g * g <= wide < (g + 1) * (g + 1),
            wide == x * scale * scale,
            scale > 0,
    ;
    let low = (g - f * scale) as nat;
    // The coarser root rounds up exactly when the finer one has reached the
    // middle of that stretch.
    assert((x - f * f > f) == (low >= half)) by (nonlinear_arith)
        requires
            f * f <= x < (f + 1) * (f + 1),
            g * g <= wide < (g + 1) * (g + 1),
            wide == x * scale * scale,
            scale == 2 * half,
            half > 0,
            g == f * scale + low,
    ;
    let s2 = round_sqrt(wide);
    let h = (s2 - f * scale) as nat;
    assert((f + 1) * scale == f * scale + scale) by (nonlinear_arith);
    if h < scale {
        lemma_div_mod_of(s2 as int, scale as int, f as int, h as int);
    } else {
        assert(s2 == (f + 1) * scale + 0);
        lemma_div_mod_of(s2 as int, scale as int, (f + 1) as int, 0);
    }
}

/// Rounding a square root in two steps never strays from the root rounded
/// down by more than one.
pub proof fn lemma_round_sqrt_twice_near(x: nat, k: nat)
    ensures
        floor_sqrt(x) <= round_div(round_sqrt(x * pow2(2 * k)), pow2(k)) <= floor_sqrt(x) + 1,
        floor_sqrt(x) <= round_sqrt(x) <= floor_sqrt(x) + 1,
{
    let scale = pow2(k);
    lemma_pow2_pos(k);
    lemma_pow2_adds(k, k);
    let wide = x * pow2(2 * k);
    assert(wide == x * scale * scale) by (nonlinear_arith)
        requires
            wide == x * pow2(2 * k),
            pow2(2 * k) == scale * scale,
    ;
    lemma_floor_sqrt_exists(x);
    lemma_floor_sqrt_exists(wide);
    let f = floor_sqrt(x);
    let g = floor_sqrt(wide);
    assert(f * scale <= g < (f + 1) * scale) by (nonlinear_arith)
        requires
            f * f <= x < (f + 1) * (f + 1),
            g * g <= wide < (g + 1) * (g + 1),
            wide == x * scale * scale,
            scale > 0,
    ;
    let s2 = round_sqrt(wide);
    lemma_round_div_at_least(s2, scale, f);
    lemma_round_div_at_most(s2, scale, f + 1);
}

} // verus!
