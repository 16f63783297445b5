//! Laws that relate results at one precision to results at twice that
//! precision: an operation carried out at the double precision and then
//! reduced gives what the operation gives at once, unless the wide result
//! lies exactly half way between two values of the narrow precision.

use vstd::prelude::*;
use vstd::arithmetic::power2::{
    pow2,
    lemma_pow2_pos,
    lemma_pow2_adds,
    lemma_pow2_unfold,
    lemma2_to64,
};
use crate::bits::{
    bit_length,
    lemma_bit_length_bounds,
    lemma_bit_length_positive,
    lemma_bit_length_shl,
};
use crate::model::FloatView;
use crate::muldiv::lemma_div_signif_bits;
use crate::rounding::{
    round_div,
    round_dyadic,
    round_sqrt,
    Rounded,
    lemma_div_mod_of,
    lemma_round_div_scaled,
    lemma_round_dyadic_bits,
    lemma_round_dyadic_scaled,
    lemma_round_sqrt_bits,
};
use crate::sign::Sign;
use crate::sqrt::lemma_sqrt_range;
use crate::twice::{
    adjacent,
    lemma_round_div_twice,
    lemma_round_div_twice_near,
    lemma_round_dyadic_twice,
    lemma_round_dyadic_twice_near,
    lemma_round_sqrt_twice,
    lemma_round_sqrt_twice_near,
};

verus! {

/// Raising the precision changes no value: a normal value keeps its sign
/// and exponent, and its significand is extended by zeros. Lowering the
/// precision again gives the value back.
pub proof fn law_widening_is_exact(x: FloatView, q: nat)
    requires
        x.wf(),
        q >= x.prec,
    ensures
        x.is_normal() ==> x.with_precision(q) == (FloatView {
            prec: q,
            signif: x.signif * pow2((q - x.prec) as nat),
            ..x
        }),
        !x.is_normal() ==> x.with_precision(q) == (FloatView { prec: q, ..x }),
        x.with_precision(q).wf(),
        x.with_precision(q).with_precision(x.prec) == x,
{
    if x.is_normal() {
        let j = (q - x.prec) as nat;
        lemma_bit_length_positive(x.signif);
        lemma_bit_length_shl(x.signif, j);
        lemma_pow2_pos(j);
        assert(x.signif * pow2(j) > 0) by (nonlinear_arith)
            requires
                x.signif > 0,
                pow2(j) > 0,
        ;
        lemma_round_dyadic_scaled(x.signif, x.exp - (x.prec - 1), j, x.prec);
        lemma2_to64();
        assert(x.signif * 1 == x.signif);
    }
}

/// Two rounded numbers that are the same or next to each other give floats
/// that are the same or next to each other, also where the exponent range
/// cuts one or both of them off.
pub proof fn lemma_adjacent_neighbours(p: nat, sign: Sign, v: Rounded, d: Rounded)
    requires
        p > 0,
        adjacent(v, d, p),
        bit_length(v.signif) == p,
        bit_length(d.signif) == p,
    ensures
        FloatView::saturated(p, sign, v.exp, v.signif).is_neighbour_of(
            FloatView::saturated(p, sign, d.exp, d.signif),
        ),
{
    lemma_bit_length_positive(v.signif);
    lemma_bit_length_positive(d.signif);
    lemma_bit_length_bounds(v.signif);
    lemma_bit_length_bounds(d.signif);
    lemma_pow2_pos((p - 1) as nat);
    lemma_pow2_unfold(p);
}

/// A number rounded to twice the precision and then to the precision, held
/// against the number rounded to the precision at once. The two are the
/// same or next to each other. The two agree
/// where the wide result is a normal value that is no tie, and where it is
/// an infinity. Where the wide result has fallen below the exponent range,
/// the direct result has too, or is the smallest normal value.
pub proof fn lemma_rounded_twice(p: nat, sign: Sign, n: nat, e: int)
    requires
        p > 0,
        n > 0,
    ensures
        ({
            let wide = FloatView::rounded(2 * p, sign, n, e);
            let direct = FloatView::rounded(p, sign, n, e);
            &&& wide.prec == 2 * p
            &&& wide.sign == sign
            &&& !wide.is_nan()
            &&& wide.is_normal() && !wide.is_halfway(p) ==> wide.with_precision(p) == direct
            &&& wide.is_infinity() ==> wide.with_precision(p) == direct
            &&& wide.is_zero() ==> wide.with_precision(p) == direct || direct
                == FloatView::min_positive(p).with_sign(sign)
            &&& wide.with_precision(p).is_neighbour_of(direct)
        }),
{
    let wide = round_dyadic(n, e, 2 * p);
    lemma_round_dyadic_bits(n, e, 2 * p);
    lemma_round_dyadic_bits(n, e, p);
    lemma_round_dyadic_twice_near(n, e, p);
    lemma_round_dyadic_bits(wide.signif, wide.exp - (2 * p - 1), p);
    lemma_adjacent_neighbours(
        p,
        sign,
        round_dyadic(wide.signif, wide.exp - (2 * p - 1), p),
        round_dyadic(n, e, p),
    );
    lemma_bit_length_positive(wide.signif);
    lemma_pow2_adds((p - 1) as nat, p);
    lemma_pow2_pos(p);
    lemma_pow2_pos((p - 1) as nat);
    lemma_pow2_unfold(p);
    if wide.signif % pow2(p) != pow2((p - 1) as nat) {
        lemma_round_dyadic_twice(n, e, p);
    }
    if wide.exp == e + bit_length(n) && bit_length(n) > 2 * p {
        // A carry at the double precision leaves a power of two.
        assert(wide.signif == pow2((p - 1) as nat) * pow2(p) + 0);
        lemma_div_mod_of(wide.signif as int, pow2(p) as int, pow2((p - 1) as nat) as int, 0);
    }
}

/// The widened forms of two normal values of one precision.
proof fn lemma_widened(x: FloatView)
    requires
        x.wf(),
    ensures
        x.is_normal() ==> x.with_precision(2 * x.prec) == (FloatView {
            prec: 2 * x.prec,
            signif: x.signif * pow2(x.prec),
            ..x
        }),
        !x.is_normal() ==> x.with_precision(2 * x.prec) == (FloatView { prec: 2 * x.prec, ..x }),
        x.with_precision(2 * x.prec).wf(),
        x.with_precision(2 * x.prec).with_precision(x.prec) == x,
        x.is_normal() ==> x.signif > 0,
{
    law_widening_is_exact(x, 2 * x.prec);
    if x.is_normal() {
        lemma_bit_length_positive(x.signif);
    }
}

/// The product at twice the precision, reduced, is the product, unless the
/// wide product is a tie or has fallen below the exponent range.
pub proof fn law_mixed_precision_mul(x: FloatView, y: FloatView)
    requires
        x.wf(),
        y.wf(),
        x.prec == y.prec,
    ensures
        ({
            let p = x.prec;
            let wide = x.with_precision(2 * p).mul(y.with_precision(2 * p));
            &&& wide.prec == 2 * p
            &&& !wide.is_halfway(p) && !wide.is_zero() ==> wide.with_precision(p) == x.mul(y)
            &&& wide.is_zero() ==> wide.with_precision(p) == x.mul(y) || x.mul(y)
                == FloatView::min_positive(p).with_sign(wide.sign)
            &&& wide.with_precision(p).is_neighbour_of(x.mul(y))
        }),
{
    let p = x.prec;
    lemma_widened(x);
    lemma_widened(y);
    if x.is_normal() && y.is_normal() {
        let n = x.signif * y.signif;
        let e = x.exp + y.exp - 2 * (p - 1);
        let scale = pow2(p);
        lemma_pow2_adds(p, p);
        assert((x.signif * scale) * (y.signif * scale) == n * pow2(2 * p) && n > 0)
            by (nonlinear_arith)
            requires
                n == x.signif * y.signif,
                pow2(2 * p) == scale * scale,
                x.signif > 0,
                y.signif > 0,
        ;
        lemma_round_dyadic_scaled(n, e, 2 * p, 2 * p);
        lemma_rounded_twice(p, x.sign.xor(y.sign), n, e);
    }
}

/// Widening a normal value multiplies its scaled integer by `2^prec`.
proof fn lemma_scaled_widened(x: FloatView, low: int)
    requires
        x.wf(),
        x.is_normal(),
        low <= x.exp,
    ensures
        x.with_precision(2 * x.prec).scaled(low) == x.scaled(low) * pow2(x.prec),
{
    lemma_widened(x);
    let scale = pow2(x.prec);
    let shift = pow2((x.exp - low) as nat);
    assert((x.signif * scale) * shift == (x.signif * shift) * scale) by (nonlinear_arith);
    assert(-((x.signif * shift) as int) * scale == -(((x.signif * shift) * scale) as int))
        by (nonlinear_arith);
}

/// The sum of two normal values as a rounded dyadic number.
proof fn lemma_add_normal_rounded(x: FloatView, y: FloatView)
    requires
        x.is_normal(),
        y.is_normal(),
        x.prec == y.prec,
    ensures
        ({
            let low = if x.exp <= y.exp {
                x.exp
            } else {
                y.exp
            };
            let sum = x.scaled(low) + y.scaled(low);
            let e = low - (x.prec - 1);
            x.add(y) == (if sum == 0 {
                FloatView::zero(x.prec, Sign::Pos)
            } else if sum > 0 {
                FloatView::rounded(x.prec, Sign::Pos, sum as nat, e)
            } else {
                FloatView::rounded(x.prec, Sign::Neg, (-sum) as nat, e)
            })
        }),
{
}

/// The sum of two normal values at twice the precision, reduced.
proof fn lemma_add_normal_twice(x: FloatView, y: FloatView)
    requires
        x.wf(),
        y.wf(),
        x.prec == y.prec,
        x.is_normal(),
        y.is_normal(),
    ensures
        ({
            let p = x.prec;
            let wide = x.with_precision(2 * p).add(y.with_precision(2 * p));
            &&& wide.prec == 2 * p
            &&& !wide.is_halfway(p) && !wide.is_zero() ==> wide.with_precision(p) == x.add(y)
            &&& wide.is_zero() ==> wide.with_precision(p) == x.add(y) || x.add(y)
                == FloatView::min_positive(p).with_sign(wide.sign)
            &&& wide.with_precision(p).is_neighbour_of(x.add(y))
        }),
{
    let p = x.prec;
    lemma_widened(x);
    lemma_widened(y);
    let low = if x.exp <= y.exp {
        x.exp
    } else {
        y.exp
    };
    let scale = pow2(p);
    lemma_pow2_pos(p);
    let wx = x.with_precision(2 * p);
    let wy = y.with_precision(2 * p);
    let sum = x.scaled(low) + y.scaled(low);
    let wide_sum = wx.scaled(low) + wy.scaled(low);
    lemma_scaled_widened(x, low);
    lemma_scaled_widened(y, low);
    lemma_add_normal_rounded(x, y);
    lemma_add_normal_rounded(wx, wy);
    assert(wide_sum == sum * scale) by (nonlinear_arith)
        requires
            sum == x.scaled(low) + y.scaled(low),
            wide_sum == x.scaled(low) * scale + y.scaled(low) * scale,
    ;
    assert((sum == 0) == (wide_sum == 0) && (sum > 0) == (wide_sum > 0)) by (nonlinear_arith)
        requires
            wide_sum == sum * scale,
            scale > 0,
    ;
    let e = low - (p - 1);
    assert(low - (2 * p - 1) == e - p);
    if sum > 0 {
        lemma_round_dyadic_scaled(sum as nat, e, p, 2 * p);
        lemma_rounded_twice(p, Sign::Pos, sum as nat, e);
    } else if sum < 0 {
        assert((-wide_sum) == (-sum) * scale) by (nonlinear_arith)
            requires
                wide_sum == sum * scale,
        ;
        lemma_round_dyadic_scaled((-sum) as nat, e, p, 2 * p);
        lemma_rounded_twice(p, Sign::Neg, (-sum) as nat, e);
    }
}

/// The sum at twice the precision, reduced, is the sum, unless the wide sum
/// is a tie or has fallen below the exponent range.
pub proof fn law_mixed_precision_add(x: FloatView, y: FloatView)
    requires
        x.wf(),
        y.wf(),
        x.prec == y.prec,
    ensures
        ({
            let p = x.prec;
            let wide = x.with_precision(2 * p).add(y.with_precision(2 * p));
            &&& wide.prec == 2 * p
            &&& !wide.is_halfway(p) && !wide.is_zero() ==> wide.with_precision(p) == x.add(y)
            &&& wide.is_zero() ==> wide.with_precision(p) == x.add(y) || x.add(y)
                == FloatView::min_positive(p).with_sign(wide.sign)
            &&& wide.with_precision(p).is_neighbour_of(x.add(y))
        }),
{
    lemma_widened(x);
    lemma_widened(y);
    if x.is_normal() && y.is_normal() {
        lemma_add_normal_twice(x, y);
    }
}

/// The difference at twice the precision, reduced, is the difference,
/// unless the wide difference is a tie or has fallen below the exponent
/// range.
pub proof fn law_mixed_precision_sub(x: FloatView, y: FloatView)
    requires
        x.wf(),
        y.wf(),
        x.prec == y.prec,
    ensures
        ({
            let p = x.prec;
            let wide = x.with_precision(2 * p).sub(y.with_precision(2 * p));
            &&& wide.prec == 2 * p
            &&& !wide.is_halfway(p) && !wide.is_zero() ==> wide.with_precision(p) == x.sub(y)
            &&& wide.is_zero() ==> wide.with_precision(p) == x.sub(y) || x.sub(y)
                == FloatView::min_positive(p).with_sign(wide.sign)
            &&& wide.with_precision(p).is_neighbour_of(x.sub(y))
        }),
{
    lemma_widened(y);
    lemma_widened(y.neg());
    law_mixed_precision_add(x, y.neg());
}

/// The quotient at twice the precision, reduced, is the quotient, unless
/// the wide quotient is a tie.
pub proof fn law_mixed_precision_div(x: FloatView, y: FloatView)
    requires
        x.wf(),
        y.wf(),
        x.prec == y.prec,
    ensures
        ({
            let p = x.prec;
            let wide = x.with_precision(2 * p).div(y.with_precision(2 * p));
            &&& wide.prec == 2 * p
            &&& !wide.is_halfway(p) ==> wide.with_precision(p) == x.div(y)
            &&& wide.with_precision(p).is_neighbour_of(x.div(y))
        }),
{
    let p = x.prec;
    lemma_widened(x);
    lemma_widened(y);
    if x.is_normal() && y.is_normal() {
        let scale = pow2(p);
        lemma_pow2_pos(p);
        let down: nat = if x.signif < y.signif {
            1
        } else {
            0
        };
        assert((x.signif * scale < y.signif * scale) == (x.signif < y.signif)) by (nonlinear_arith)
            requires
                scale > 0,
        ;
        let n = x.signif * pow2((p - 1 + down) as nat);
        let wide_signif = round_div(
            (x.signif * scale) * pow2((2 * p - 1 + down) as nat),
            y.signif * scale,
        );
        lemma_pow2_adds((p - 1 + down) as nat, p);
        assert((x.signif * scale) * pow2((2 * p - 1 + down) as nat) == (n * scale) * scale)
            by (nonlinear_arith)
            requires
                n == x.signif * pow2((p - 1 + down) as nat),
                pow2((2 * p - 1 + down) as nat) == pow2((p - 1 + down) as nat) * scale,
        ;
        lemma_round_div_scaled(n * scale, y.signif, scale);
        assert(wide_signif == round_div(n * scale, y.signif));
        let wide = x.with_precision(2 * p).div(y.with_precision(2 * p));
        lemma_div_signif_bits(p, x.signif, y.signif);
        lemma_bit_length_bounds(round_div(n, y.signif));
        // The wide significand has twice the bits, so reducing it cuts
        // exactly the lower half off.
        lemma_bit_length_shl(x.signif, p);
        lemma_bit_length_shl(y.signif, p);
        lemma_div_signif_bits(2 * p, x.signif * scale, y.signif * scale);
        if wide.is_normal() {
            if !wide.is_halfway(p) {
                lemma_round_div_twice(n, y.signif, p);
            }
            lemma_round_div_twice_near(n, y.signif, p);
            lemma_round_dyadic_bits(wide_signif, wide.exp - (2 * p - 1), p);
            lemma_adjacent_neighbours(
                p,
                wide.sign,
                round_dyadic(wide_signif, wide.exp - (2 * p - 1), p),
                Rounded { signif: round_div(n, y.signif), exp: wide.exp },
            );
        }
    }
}

/// The square root at twice the precision, reduced, is the square root,
/// unless the wide root is a tie.
pub proof fn law_mixed_precision_sqrt(x: FloatView)
    requires
        x.wf(),
    ensures
        ({
            let p = x.prec;
            let wide = x.with_precision(2 * p).sqrt();
            &&& wide.prec == 2 * p
            &&& !wide.is_halfway(p) ==> wide.with_precision(p) == x.sqrt()
            &&& wide.with_precision(p).is_neighbour_of(x.sqrt())
        }),
{
    let p = x.prec;
    lemma_widened(x);
    if x.is_normal() && x.sign == Sign::Pos {
        let odd = (x.exp % 2) as nat;
        let scale = pow2(p);
        lemma_pow2_pos(p);
        let radicand = x.signif * pow2((p - 1 + odd) as nat);
        let wide_radicand = (x.signif * scale) * pow2((2 * p - 1 + odd) as nat);
        lemma_pow2_adds((p - 1 + odd) as nat, p);
        lemma_pow2_adds(p, p);
        assert(wide_radicand == radicand * pow2(2 * p)) by (nonlinear_arith)
            requires
                radicand == x.signif * pow2((p - 1 + odd) as nat),
                wide_radicand == (x.signif * scale) * pow2((2 * p - 1 + odd) as nat),
                pow2((2 * p - 1 + odd) as nat) == pow2((p - 1 + odd) as nat) * scale,
                pow2(2 * p) == scale * scale,
        ;
        let wide = x.with_precision(2 * p).sqrt();
        lemma_sqrt_range(x.signif, p, odd);
        lemma_round_sqrt_bits(radicand, p);
        lemma_bit_length_bounds(round_sqrt(radicand));
        lemma_bit_length_shl(x.signif, p);
        lemma_sqrt_range(x.signif * scale, 2 * p, odd);
        lemma_round_sqrt_bits(wide_radicand, 2 * p);
        if !wide.is_halfway(p) {
            lemma_round_sqrt_twice(radicand, p);
        }
        lemma_round_sqrt_twice_near(radicand, p);
        lemma_round_dyadic_bits(wide.signif, wide.exp - (2 * p - 1), p);
        lemma_adjacent_neighbours(
            p,
            Sign::Pos,
            round_dyadic(wide.signif, wide.exp - (2 * p - 1), p),
            Rounded { signif: round_sqrt(radicand), exp: wide.exp },
        );
    }
}

} // verus!
