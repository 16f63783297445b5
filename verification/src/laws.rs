//! Laws that hold of the operations, proved over the model.

use vstd::prelude::*;
use std::cmp::Ordering;
use vstd::arithmetic::power2::{pow2, lemma_pow2_pos, lemma_pow2_unfold, lemma2_to64};
use crate::bits::{
    lemma_bit_length_below,
    lemma_bit_length_bounds,
    lemma_bit_length_positive,
    lemma_bit_length_unique,
};
use crate::model::FloatView;
use crate::muldiv::lemma_product_bits;
use crate::rounding::round_dyadic;
use crate::sign::Sign;

verus! {

/// Negating twice gives the value back.
pub proof fn law_neg_involution(x: FloatView)
    ensures
        x.neg().neg() == x,
        x.neg().neg().signif == x.signif,
{
}

/// The absolute value is never below zero, and taking it twice is taking it
/// once.
pub proof fn law_abs(x: FloatView)
    requires
        x.wf(),
    ensures
        x.abs().sign == Sign::Pos,
        !x.abs().below(FloatView::zero(x.prec, Sign::Pos)),
        !x.is_nan() ==> x.abs().partial_cmp(FloatView::zero(x.prec, Sign::Pos)) != Some(
            Ordering::Less,
        ),
        x.abs().abs() == x.abs(),
        x.abs().wf(),
{
}

/// The product of two values that are normal or infinite has the sign that
/// is positive exactly when the signs of the two agree.
pub proof fn law_mul_sign(x: FloatView, y: FloatView)
    requires
        x.wf(),
        y.wf(),
        x.prec == y.prec,
        x.is_normal() || x.is_infinity(),
        y.is_normal() || y.is_infinity(),
    ensures
        x.mul(y).sign_of() == Some(x.sign.xor(y.sign)),
{
}

/// A zero divided by anything but a zero or NaN is the zero whose sign is
/// positive exactly when the signs of the two agree.
pub proof fn law_zero_div_sign(z: FloatView, x: FloatView)
    requires
        z.wf(),
        x.wf(),
        z.prec == x.prec,
        z.is_zero(),
        !x.is_zero(),
        !x.is_nan(),
    ensures
        z.div(x) == FloatView::zero(z.prec, z.sign.xor(x.sign)),
{
}

/// Every value but NaN equals itself.
pub proof fn law_cmp_reflexive(x: FloatView)
    requires
        x.wf(),
        !x.is_nan(),
    ensures
        x.partial_cmp(x) == Some(Ordering::Equal),
        x.eq(x),
{
}

/// NaN is ordered with nothing, itself included.
pub proof fn law_cmp_nan(x: FloatView, y: FloatView)
    requires
        x.is_nan(),
    ensures
        x.partial_cmp(y).is_none(),
        y.partial_cmp(x).is_none(),
        x.partial_cmp(x).is_none(),
        !x.eq(y),
        !y.eq(x),
{
}

/// The order is antisymmetric: of two values at most one is below the
/// other, each comparison is the mirror of the reverse one, and two values
/// neither of which is above the other are equal.
pub proof fn law_cmp_antisymmetric(x: FloatView, y: FloatView)
    requires
        x.wf(),
        y.wf(),
        x.prec == y.prec,
    ensures
        !(x.below(y) && y.below(x)),
        x.partial_cmp(y) == Some(Ordering::Less) <==> y.partial_cmp(x) == Some(Ordering::Greater),
        x.partial_cmp(y) == Some(Ordering::Equal) <==> y.partial_cmp(x) == Some(Ordering::Equal),
        (x.partial_cmp(y) == Some(Ordering::Less) || x.partial_cmp(y) == Some(Ordering::Equal))
            && (y.partial_cmp(x) == Some(Ordering::Less) || y.partial_cmp(x) == Some(
            Ordering::Equal,
        )) ==> x.eq(y),
{
}

/// The order is transitive, strictly and with equality.
pub proof fn law_cmp_transitive(x: FloatView, y: FloatView, z: FloatView)
    requires
        x.wf(),
        y.wf(),
        z.wf(),
        x.prec == y.prec,
        y.prec == z.prec,
    ensures
        x.below(y) && y.below(z) ==> x.below(z),
        x.eq(y) && y.eq(z) ==> x.eq(z),
        x.below(y) && y.eq(z) ==> x.below(z),
        x.eq(y) && y.below(z) ==> x.below(z),
{
    lemma_zero_signif(x);
    lemma_zero_signif(y);
    lemma_zero_signif(z);
}

/// Equality is the comparison that yields `Equal`.
pub proof fn law_eq_is_cmp_equal(x: FloatView, y: FloatView)
    ensures
        x.eq(y) <==> x.partial_cmp(y) == Some(Ordering::Equal),
{
}

/// Two normal values are equal as numbers exactly when they agree in
/// sign, exponent and significand.
pub proof fn law_eq_normal(x: FloatView, y: FloatView)
    requires
        x.is_normal(),
        y.is_normal(),
    ensures
        x.eq(y) <==> x.sign == y.sign && x.exp == y.exp && x.signif == y.signif,
{
}

/// A normal value has a positive significand.
proof fn lemma_zero_signif(x: FloatView)
    requires
        x.wf(),
    ensures
        x.is_normal() ==> x.signif > 0,
{
    if x.is_normal() {
        lemma_bit_length_positive(x.signif);
    }
}

/// Setting a value to its own precision leaves it as it is.
pub proof fn law_with_precision_same(x: FloatView)
    requires
        x.wf(),
    ensures
        x.with_precision(x.prec) == x,
{
    if x.is_normal() {
        lemma_bit_length_positive(x.signif);
        assert(vstd::arithmetic::power2::pow2(0) == 1) by {
            vstd::arithmetic::power2::lemma2_to64();
        }
        assert(x.signif * 1 == x.signif);
    }
}

/// Where the exponent of the rounded product lies at or beyond the largest
/// exponent, the product is an infinity; where it lies at or beyond the
/// smallest, a zero; each with the sign of the product. The first happens
/// whenever the exponents add up to the largest exponent or more, the second
/// whenever they add up to less than the smallest by two.
pub proof fn law_mul_saturates(x: FloatView, y: FloatView)
    requires
        x.wf(),
        y.wf(),
        x.prec == y.prec,
        x.is_normal(),
        y.is_normal(),
    ensures
        ({
            let exact = round_dyadic(x.signif * y.signif, x.exp + y.exp - 2 * (x.prec - 1), x.prec);
            let sign = x.sign.xor(y.sign);
            &&& exact.exp >= i64::MAX ==> x.mul(y) == FloatView::infinity(x.prec, sign)
            &&& exact.exp <= i64::MIN ==> x.mul(y) == FloatView::zero(x.prec, sign)
            &&& x.exp + y.exp <= exact.exp <= x.exp + y.exp + 2
            &&& x.exp + y.exp >= i64::MAX ==> x.mul(y) == FloatView::infinity(x.prec, sign)
            &&& x.exp + y.exp + 2 <= i64::MIN ==> x.mul(y) == FloatView::zero(x.prec, sign)
        }),
{
    lemma_product_bits(x.prec, x.signif, y.signif);
}

/// Where the exponent of the quotient lies at or beyond the largest
/// exponent, the quotient is an infinity; where it lies at or beyond the
/// smallest, a zero; each with the sign of the quotient.
pub proof fn law_div_saturates(x: FloatView, y: FloatView)
    requires
        x.wf(),
        y.wf(),
        x.prec == y.prec,
        x.is_normal(),
        y.is_normal(),
    ensures
        ({
            let sign = x.sign.xor(y.sign);
            &&& x.exp - y.exp - 1 >= i64::MAX ==> x.div(y) == FloatView::infinity(x.prec, sign)
            &&& x.exp - y.exp <= i64::MIN ==> x.div(y) == FloatView::zero(x.prec, sign)
        }),
{
}

/// Where the exponent of a value moved by `k` leaves the range, the result
/// is the infinity or the zero of the value's sign.
pub proof fn law_mul_exp2_saturates(x: FloatView, k: int)
    requires
        x.wf(),
        x.is_normal(),
    ensures
        x.exp + k >= i64::MAX ==> x.mul_exp2(k) == FloatView::infinity(x.prec, x.sign),
        x.exp + k <= i64::MIN ==> x.mul_exp2(k) == FloatView::zero(x.prec, x.sign),
        i64::MIN < x.exp + k < i64::MAX ==> x.mul_exp2(k) == (FloatView { exp: x.exp + k, ..x }),
{
}

/// A rounded number whose exponent lies at or beyond the largest exponent
/// is an infinity; one whose exponent lies at or beyond the smallest is a
/// zero; every other is the normal value with the rounded parts.
pub proof fn law_rounded_saturates(p: nat, sign: Sign, n: nat, e: int)
    ensures
        ({
            let exact = round_dyadic(n, e, p);
            &&& exact.exp >= i64::MAX ==> FloatView::rounded(p, sign, n, e) == FloatView::infinity(
                p,
                sign,
            )
            &&& exact.exp <= i64::MIN ==> FloatView::rounded(p, sign, n, e) == FloatView::zero(
                p,
                sign,
            )
            &&& i64::MIN < exact.exp < i64::MAX ==> FloatView::rounded(p, sign, n, e).is_normal()
                && FloatView::rounded(p, sign, n, e).exp == exact.exp && FloatView::rounded(
                p,
                sign,
                n,
                e,
            ).signif == exact.signif
        }),
{
}

/// The sum of two values of one sign in the topmost binade is the infinity
/// of that sign.
pub proof fn law_add_overflows(x: FloatView, y: FloatView)
    requires
        x.wf(),
        y.wf(),
        x.prec == y.prec,
        x.is_normal(),
        y.is_normal(),
        x.sign == y.sign,
        x.exp == i64::MAX - 1,
        y.exp == i64::MAX - 1,
    ensures
        x.add(y) == FloatView::infinity(x.prec, x.sign),
{
    let p = x.prec;
    lemma2_to64();
    lemma_bit_length_positive(x.signif);
    lemma_bit_length_positive(y.signif);
    lemma_bit_length_bounds(x.signif);
    lemma_bit_length_bounds(y.signif);
    lemma_pow2_unfold(p);
    lemma_pow2_unfold(p + 1);
    assert(x.signif * 1 == x.signif && y.signif * 1 == y.signif);
    lemma_bit_length_unique(x.signif + y.signif, p + 1);
}

/// The difference of two distinct values of one sign in the lowest binade
/// is too small to hold, and is a zero; that of two equal ones is the
/// positive zero.
pub proof fn law_sub_underflows(x: FloatView, y: FloatView)
    requires
        x.wf(),
        y.wf(),
        x.prec == y.prec,
        x.is_normal(),
        y.is_normal(),
        x.sign == y.sign,
        x.exp == i64::MIN + 1,
        y.exp == i64::MIN + 1,
    ensures
        x.sub(y).is_zero(),
        x.signif == y.signif ==> x.sub(y) == FloatView::zero(x.prec, Sign::Pos),
{
    let p = x.prec;
    lemma2_to64();
    lemma_bit_length_positive(x.signif);
    lemma_bit_length_positive(y.signif);
    lemma_bit_length_bounds(x.signif);
    lemma_bit_length_bounds(y.signif);
    lemma_pow2_unfold(p);
    lemma_pow2_pos((p - 1) as nat);
    assert(x.signif * 1 == x.signif && y.signif * 1 == y.signif);
    if x.signif > y.signif {
        lemma_bit_length_below((x.signif - y.signif) as nat, (p - 1) as nat);
    } else if x.signif < y.signif {
        lemma_bit_length_below((y.signif - x.signif) as nat, (p - 1) as nat);
    }
}

} // verus!
