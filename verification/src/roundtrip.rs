//! Laws about operations that undo each other: the square root of a square,
//! and products and quotients taken back.

use vstd::prelude::*;
use vstd::arithmetic::power2::{
    pow2,
    lemma_pow2_pos,
    lemma_pow2_adds,
    lemma_pow2_unfold,
    lemma2_to64,
};
use crate::bits::{
    bit_length,
    lemma_bit_length_bounds,
    lemma_bit_length_positive,
    lemma_bit_length_unique,
};
use crate::model::FloatView;
use crate::muldiv::{lemma_div_signif_bits, lemma_product_bits};
use crate::rounding::{
    round_div,
    round_sqrt,
    lemma_div_mod_of,
    lemma_round_div_above_half,
    lemma_round_div_at_least,
    lemma_round_div_at_most,
    lemma_round_div_below_half,
    lemma_round_div_error,
    lemma_round_sqrt_bits,
    lemma_round_sqrt_error,
    lemma_round_sqrt_is,
};
use crate::sign::Sign;
use crate::sqrt::lemma_sqrt_range;

verus! {

/// The parts of the product of two normal values: the significand is the
/// product of the significands cut to `prec` bits and rounded, and the
/// exponent the sum of the exponents, raised by one where the product of
/// the significands has the full `2 * prec` bits, and by one more where the
/// rounding carries.
pub proof fn lemma_mul_parts(x: FloatView, y: FloatView)
    requires
        x.wf(),
        y.wf(),
        x.prec == y.prec,
        x.is_normal(),
        y.is_normal(),
    ensures
        ({
            let p = x.prec;
            let n = x.signif * y.signif;
            let full: nat = if n >= pow2((2 * p - 1) as nat) {
                1
            } else {
                0
            };
            let cut = round_div(n, pow2((p - 1 + full) as nat));
            &&& pow2((p - 1) as nat) * pow2((p - 1) as nat) <= n < pow2(p) * pow2(p)
            &&& pow2((2 * p - 1) as nat) == pow2((p - 1) as nat) * pow2(p)
            &&& pow2((p - 1) as nat) <= cut <= pow2(p)
            &&& x.mul(y) == (if cut == pow2(p) {
                FloatView::saturated(
                    p,
                    x.sign.xor(y.sign),
                    x.exp + y.exp + full + 1,
                    pow2((p - 1) as nat),
                )
            } else {
                FloatView::saturated(p, x.sign.xor(y.sign), x.exp + y.exp + full, cut)
            })
        }),
{
    let p = x.prec;
    let n = x.signif * y.signif;
    let low = pow2((p - 1) as nat);
    let top = pow2(p);
    lemma_product_bits(p, x.signif, y.signif);
    lemma_bit_length_positive(x.signif);
    lemma_bit_length_positive(y.signif);
    lemma_bit_length_bounds(x.signif);
    lemma_bit_length_bounds(y.signif);
    lemma_bit_length_bounds(n);
    lemma_pow2_pos((p - 1) as nat);
    lemma_pow2_unfold(p);
    lemma_pow2_adds((p - 1) as nat, p);
    lemma_pow2_adds((p - 1) as nat, (p - 1) as nat);
    lemma_pow2_adds(p, p);
    lemma_pow2_unfold((2 * p - 1) as nat);
    lemma_pow2_unfold(2 * p);
    lemma2_to64();
    assert(low * low <= n < top * top) by (nonlinear_arith)
        requires
            0 < low <= x.signif < top,
            low <= y.signif < top,
            n == x.signif * y.signif,
    ;
    let full: nat = if n >= pow2((2 * p - 1) as nat) {
        1
    } else {
        0
    };
    let b = bit_length(n);
    assert(b == 2 * p - 1 + full) by {
        if full == 1 {
            lemma_bit_length_unique(n, 2 * p);
        } else {
            lemma_bit_length_unique(n, (2 * p - 1) as nat);
        }
    }
    let shift = (p - 1 + full) as nat;
    let cut = round_div(n, pow2(shift));
    lemma_pow2_pos(shift);
    if b <= p {
        // One bit times one bit: nothing is cut off.
        assert(n == 1) by (nonlinear_arith)
            requires
                low == 1,
                top == 2,
                low * low <= n < top * top,
                n < low * top,
        ;
        lemma_div_mod_of(n as int, 1, n as int, 0);
    } else {
        if full == 1 {
            assert(pow2(shift) == top);
            assert(low * top <= n <= top * top);
        } else {
            assert(pow2(shift) == low);
            assert(low * low <= n);
            assert(top * low == low * top) by (nonlinear_arith);
            assert(n <= top * low);
        }
        lemma_round_div_at_least(n, pow2(shift), low);
        lemma_round_div_at_most(n, pow2(shift), top);
    }
}

/// The square root of the square of a value is its absolute value, as long
/// as the square stays within the exponent range.
pub proof fn law_sqrt_of_square(x: FloatView)
    requires
        x.wf(),
        x.is_normal(),
        x.mul(x).is_normal(),
    ensures
        x.mul(x).sqrt() == x.abs(),
{
    let p = x.prec;
    let a = x.signif;
    let n = a * a;
    let low = pow2((p - 1) as nat);
    let top = pow2(p);
    lemma_mul_parts(x, x);
    lemma_bit_length_positive(a);
    lemma_bit_length_bounds(a);
    lemma_pow2_pos((p - 1) as nat);
    lemma_pow2_unfold(p);
    let full: nat = if n >= pow2((2 * p - 1) as nat) {
        1
    } else {
        0
    };
    let shift = (p - 1 + full) as nat;
    let scale = pow2(shift);
    let cut = round_div(n, scale);
    lemma_pow2_pos(shift);
    lemma_round_div_error(n, scale);
    let z = x.mul(x);
    if full == 0 {
        // The square of the significand has one bit less than it could.
        if cut == top {
            assert(z.exp == 2 * x.exp + 1 && z.signif == low);
            let radicand = low * pow2((p - 1 + 1) as nat);
            assert(radicand == cut * scale) by (nonlinear_arith)
                requires
                    radicand == low * top,
                    cut == top,
                    scale == low,
            ;
            assert(a * a - a < radicand <= a * a + a) by (nonlinear_arith)
                requires
                    2 * (radicand - n) <= scale,
                    2 * (n - radicand) <= scale,
                    n == a * a,
                    scale == low,
                    1 <= low <= a,
            ;
            lemma_round_sqrt_is(radicand, a);
        } else {
            assert(z.exp == 2 * x.exp && z.signif == cut);
            let radicand = cut * pow2((p - 1 + 0) as nat);
            assert(a * a - a < radicand <= a * a + a) by (nonlinear_arith)
                requires
                    radicand == cut * scale,
                    2 * (cut * scale - n) <= scale,
                    2 * (n - cut * scale) <= scale,
                    n == a * a,
                    scale == low,
                    1 <= low <= a,
            ;
            lemma_round_sqrt_is(radicand, a);
        }
    } else {
        // The square has all its bits, and rounding it cannot carry.
        assert(n <= (top - 1) * top) by (nonlinear_arith)
            requires
                n == a * a,
                a <= top - 1,
                top >= 1,
        ;
        lemma_round_div_at_most(n, top, (top - 1) as nat);
        assert(z.exp == 2 * x.exp + 1 && z.signif == cut);
        let radicand = cut * pow2((p - 1 + 1) as nat);
        assert(a > low) by (nonlinear_arith)
            requires
                n == a * a,
                n >= low * top,
                top == 2 * low,
                low >= 1,
                a >= low,
        ;
        assert(a * a - a < radicand <= a * a + a) by (nonlinear_arith)
            requires
                radicand == cut * scale,
                2 * (cut * scale - n) <= scale,
                2 * (n - cut * scale) <= scale,
                n == a * a,
                scale == top,
                top == 2 * low,
                low < a,
        ;
        lemma_round_sqrt_is(radicand, a);
    }
}

/// A value and the two values next to it lie within one unit in the last
/// place of it.
pub proof fn law_neighbours_within_one_ulp(x: FloatView, r: FloatView)
    requires
        x.wf(),
        x.is_normal(),
        r.is_neighbour_of(x),
    ensures
        r.within_one_ulp(x),
{
    let p = x.prec;
    lemma_bit_length_positive(x.signif);
    lemma_bit_length_bounds(x.signif);
    lemma_pow2_pos((p - 1) as nat);
    lemma_pow2_unfold(p);
}

/// The parts of the quotient of two normal values.
pub proof fn lemma_div_parts(x: FloatView, y: FloatView)
    requires
        x.wf(),
        y.wf(),
        x.prec == y.prec,
        x.is_normal(),
        y.is_normal(),
    ensures
        ({
            let p = x.prec;
            let down: nat = if x.signif < y.signif {
                1
            } else {
                0
            };
            let q = round_div(x.signif * pow2((p - 1 + down) as nat), y.signif);
            &&& pow2((p - 1) as nat) <= q < pow2(p)
            &&& x.div(y) == FloatView::saturated(
                p,
                x.sign.xor(y.sign),
                x.exp - y.exp - down,
                q,
            )
        }),
{
    let p = x.prec;
    lemma_div_signif_bits(p, x.signif, y.signif);
    let down: nat = if x.signif < y.signif {
        1
    } else {
        0
    };
    let q = round_div(x.signif * pow2((p - 1 + down) as nat), y.signif);
    lemma_bit_length_positive(q);
    lemma_bit_length_bounds(q);
}

/// A normal value with the sign, precision and exponent of `x` whose
/// significand differs from that of `x` by at most one is `x` or one of its
/// neighbours.
proof fn lemma_near_is_neighbour(x: FloatView, q: nat)
    requires
        x.wf(),
        x.is_normal(),
        x.signif - 1 <= q <= x.signif + 1,
        pow2((x.prec - 1) as nat) <= q < pow2(x.prec),
    ensures
        (FloatView { signif: q, ..x }).is_neighbour_of(x),
{
}

/// A product divided by one of its factors is the other factor or one of
/// the two values next to it, as long as the product stays within the
/// exponent range.
pub proof fn law_mul_then_div(x: FloatView, y: FloatView)
    requires
        x.wf(),
        y.wf(),
        x.prec == y.prec,
        x.is_normal(),
        y.is_normal(),
        x.mul(y).is_normal(),
    ensures
        x.mul(y).div(y).is_neighbour_of(x),
        x.mul(y).div(y).within_one_ulp(x),
{
    let p = x.prec;
    let a = x.signif;
    let b = y.signif;
    let n = a * b;
    let low = pow2((p - 1) as nat);
    let top = pow2(p);
    lemma_mul_parts(x, y);
    lemma_bit_length_positive(a);
    lemma_bit_length_bounds(a);
    lemma_bit_length_positive(b);
    lemma_bit_length_bounds(b);
    lemma_pow2_pos((p - 1) as nat);
    lemma_pow2_unfold(p);
    let full: nat = if n >= pow2((2 * p - 1) as nat) {
        1
    } else {
        0
    };
    let scale = pow2((p - 1 + full) as nat);
    let cut = round_div(n, scale);
    lemma_round_div_error(n, scale);
    let z = x.mul(y);
    assert(z.wf()) by {
        crate::bits::lemma_bit_length_pow2((p - 1) as nat);
        if cut < top {
            lemma_bit_length_unique(cut, p);
        }
    }
    lemma_div_parts(z, y);
    let c = z.signif;
    let down: nat = if c < b {
        1
    } else {
        0
    };
    let m = c * pow2((p - 1 + down) as nat);
    let q = round_div(m, b);
    let r = z.div(y);
    assert(x.sign.xor(y.sign).xor(y.sign) == x.sign);
    assert(n <= (top - 1) * top) by (nonlinear_arith)
        requires
            n == a * b,
            a <= top - 1,
            b <= top,
    ;
    if cut == top {
        // The product carried into the next binade.
        if full == 1 {
            lemma_round_div_at_most(n, top, (top - 1) as nat);
        }
        assert(full == 0 && scale == low);
        if b == low {
            assert(n == a * low + 0);
            lemma_div_mod_of(n as int, low as int, a as int, 0);
        }
        assert(c == low && down == 1 && m == low * top);
        assert(a * b <= m && m <= (a + 1) * b) by (nonlinear_arith)
            requires
                m == low * top,
                cut == top,
                scale == low,
                n == a * b,
                2 * (cut * scale - n) <= scale,
                2 * (n - cut * scale) <= scale,
                n < low * top,
                low < b,
        ;
        lemma_round_div_at_least(m, b, a);
        lemma_round_div_at_most(m, b, a + 1);
        lemma_near_is_neighbour(x, q);
    } else if full == 0 && down == 0 {
        assert((a - 1) * b <= m && m <= (a + 1) * b) by (nonlinear_arith)
            requires
                m == c * low,
                c == cut,
                scale == low,
                n == a * b,
                2 * (cut * scale - n) <= scale,
                2 * (n - cut * scale) <= scale,
                low <= b,
                a >= 1,
        ;
        lemma_round_div_at_least(m, b, (a - 1) as nat);
        lemma_round_div_at_most(m, b, a + 1);
        lemma_near_is_neighbour(x, q);
    } else if full == 0 && down == 1 {
        assert((2 * a - 1) * b <= m) by (nonlinear_arith)
            requires
                m == c * top,
                top == 2 * low,
                c == cut,
                scale == low,
                n == a * b,
                2 * (n - cut * scale) <= scale,
                low <= b,
                a >= 1,
        ;
        lemma_round_div_at_least(m, b, (2 * a - 1) as nat);
        assert(a == low && q == top - 1);
    } else if full == 1 && down == 0 {
        assert(m <= low * b) by (nonlinear_arith)
            requires
                m == c * low,
                top == 2 * low,
                c == cut,
                scale == top,
                n == a * b,
                2 * (cut * scale - n) <= scale,
                low <= b,
                a <= top - 1,
        ;
        lemma_round_div_at_most(m, b, low);
        assert(q == low);
        lemma_round_div_error(m, b);
        if b == low {
            assert(n < low * top) by (nonlinear_arith)
                requires
                    n == a * b,
                    b == low,
                    a < top,
                    low > 0,
            ;
        }
        assert(a == top - 1) by (nonlinear_arith)
            requires
                2 * (q * b - m) <= b,
                q == low,
                m == c * low,
                top == 2 * low,
                c == cut,
                scale == top,
                n == a * b,
                2 * (cut * scale - n) <= scale,
                low < b,
                a <= top - 1,
        ;
    } else {
        assert((a - 1) * b <= m && m <= (a + 1) * b) by (nonlinear_arith)
            requires
                m == c * top,
                top == 2 * low,
                c == cut,
                scale == top,
                n == a * b,
                2 * (cut * scale - n) <= scale,
                2 * (n - cut * scale) <= scale,
                low <= c,
                c < b,
                a >= 1,
        ;
        lemma_round_div_at_least(m, b, (a - 1) as nat);
        lemma_round_div_at_most(m, b, a + 1);
        lemma_near_is_neighbour(x, q);
    }
    law_neighbours_within_one_ulp(x, r);
}

/// A quotient multiplied by the divisor is the dividend or one of the two
/// values next to it, as long as the quotient stays within the exponent
/// range.
pub proof fn law_div_then_mul(x: FloatView, y: FloatView)
    requires
        x.wf(),
        y.wf(),
        x.prec == y.prec,
        x.is_normal(),
        y.is_normal(),
        x.div(y).is_normal(),
    ensures
        x.div(y).mul(y).is_neighbour_of(x),
        x.div(y).mul(y).within_one_ulp(x),
{
    let p = x.prec;
    let a = x.signif;
    let b = y.signif;
    let low = pow2((p - 1) as nat);
    let top = pow2(p);
    lemma_div_parts(x, y);
    lemma_bit_length_positive(a);
    lemma_bit_length_bounds(a);
    lemma_bit_length_positive(b);
    lemma_bit_length_bounds(b);
    lemma_pow2_pos((p - 1) as nat);
    lemma_pow2_unfold(p);
    let down: nat = if a < b {
        1
    } else {
        0
    };
    let m = a * pow2((p - 1 + down) as nat);
    let q = round_div(m, b);
    lemma_round_div_error(m, b);
    let z = x.div(y);
    assert(z.wf()) by {
        lemma_bit_length_unique(q, p);
    }
    lemma_mul_parts(z, y);
    let n = q * b;
    let full: nat = if n >= pow2((2 * p - 1) as nat) {
        1
    } else {
        0
    };
    let scale = pow2((p - 1 + full) as nat);
    let cut = round_div(n, scale);
    let r = z.mul(y);
    assert(x.sign.xor(y.sign).xor(y.sign) == x.sign);
    if down == 0 {
        assert((a - 1) * low <= n && n <= (a + 1) * low && n < low * top) by (nonlinear_arith)
            requires
                n == q * b,
                m == a * low,
                2 * (q * b - m) <= b,
                2 * (m - q * b) <= b,
                b < top,
                top == 2 * low,
                low <= a,
                a <= top - 1,
        ;
        lemma_round_div_at_least(n, low, (a - 1) as nat);
        lemma_round_div_at_most(n, low, a + 1);
        if cut < top {
            lemma_near_is_neighbour(x, cut);
        }
    } else if full == 0 {
        assert(a == low && (top - 1) * low <= n) by (nonlinear_arith)
            requires
                n == q * b,
                m == a * top,
                2 * (q * b - m) <= b,
                2 * (m - q * b) <= b,
                b < top,
                top == 2 * low,
                low <= a,
                n < low * top,
        ;
        lemma_round_div_at_least(n, low, (top - 1) as nat);
    } else {
        assert((a - 1) * top <= n && n <= (a + 1) * top) by (nonlinear_arith)
            requires
                n == q * b,
                m == a * top,
                2 * (q * b - m) <= b,
                2 * (m - q * b) <= b,
                b < top,
                a >= 1,
        ;
        lemma_round_div_at_least(n, top, (a - 1) as nat);
        lemma_round_div_at_most(n, top, a + 1);
        if cut < top {
            lemma_near_is_neighbour(x, cut);
        }
    }
    law_neighbours_within_one_ulp(x, r);
}

/// The square of the square root of a positive value is the value or one
/// of the two values next to it.
pub proof fn law_sqrt_then_square(x: FloatView)
    requires
        x.wf(),
        x.is_normal(),
        x.sign == Sign::Pos,
    ensures
        x.sqrt().mul(x.sqrt()).is_neighbour_of(x),
        x.sqrt().mul(x.sqrt()).within_one_ulp(x),
{
    let p = x.prec;
    let a = x.signif;
    let low = pow2((p - 1) as nat);
    let top = pow2(p);
    lemma_bit_length_positive(a);
    lemma_bit_length_bounds(a);
    lemma_pow2_pos((p - 1) as nat);
    lemma_pow2_unfold(p);
    let odd = (x.exp % 2) as nat;
    let radicand = a * pow2((p - 1 + odd) as nat);
    lemma_sqrt_range(a, p, odd);
    lemma_round_sqrt_bits(radicand, p);
    let g = round_sqrt(radicand);
    assert(radicand >= 1) by (nonlinear_arith)
        requires
            radicand >= low * low,
            low >= 1,
    ;
    lemma_round_sqrt_error(radicand);
    let root = x.sqrt();
    assert(root.wf());
    lemma_mul_parts(root, root);
    let n = g * g;
    let full: nat = if n >= pow2((2 * p - 1) as nat) {
        1
    } else {
        0
    };
    let scale = pow2((p - 1 + full) as nat);
    let cut = round_div(n, scale);
    let r = root.mul(root);
    assert(2 * ((x.exp - odd) / 2) == x.exp - odd);
    if odd == 0 {
        // The root lies below one and a half times the smallest
        // significand.
        assert(2 * g < 3 * low) by (nonlinear_arith)
            requires
                g * g - g < radicand,
                radicand <= (top - 1) * top,
                radicand == a * low,
                a <= top - 1,
                top == 2 * low,
                low >= 1,
                g < top,
        ;
        if full == 0 {
            assert(2 * n > (2 * (a - 1) - 1) * low && 2 * n < (2 * (a + 1) + 1) * low)
                by (nonlinear_arith)
                requires
                    n == g * g,
                    g * g - g < radicand,
                    radicand <= g * g + g,
                    radicand == a * low,
                    2 * g < 3 * low,
            ;
            lemma_round_div_above_half(n, low, (a - 1) as nat);
            lemma_round_div_below_half(n, low, a + 1);
            if cut < top {
                lemma_near_is_neighbour(x, cut);
            }
        } else {
            assert(a == top - 1 && 2 * n < (2 * low + 1) * top) by (nonlinear_arith)
                requires
                    n == g * g,
                    n >= low * top,
                    g * g - g < radicand,
                    radicand <= g * g + g,
                    radicand == a * low,
                    2 * g < 3 * low,
                    top == 2 * low,
                    a <= top - 1,
                    low >= 1,
            ;
            lemma_round_div_below_half(n, top, low);
        }
    } else {
        if full == 0 {
            assert(a == low && 2 * g < 3 * low) by (nonlinear_arith)
                requires
                    n == g * g,
                    n < low * top,
                    radicand <= g * g + g,
                    radicand == a * top,
                    g < top,
                    top == 2 * low,
                    low <= a,
            ;
            assert(2 * n > (2 * (top - 1) - 1) * low) by (nonlinear_arith)
                requires
                    n == g * g,
                    radicand <= g * g + g,
                    radicand == a * top,
                    a == low,
                    2 * g < 3 * low,
                    top == 2 * low,
            ;
            lemma_round_div_above_half(n, low, (top - 1) as nat);
        } else {
            assert((a - 1) * top <= n && n <= (a + 1) * top) by (nonlinear_arith)
                requires
                    n == g * g,
                    g * g - g < radicand,
                    radicand <= g * g + g,
                    radicand == a * top,
                    g < top,
                    a >= 1,
            ;
            lemma_round_div_at_least(n, top, (a - 1) as nat);
            lemma_round_div_at_most(n, top, a + 1);
            if cut < top {
                lemma_near_is_neighbour(x, cut);
            }
        }
    }
    law_neighbours_within_one_ulp(x, r);
}

} // verus!
