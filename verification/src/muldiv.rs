//! Multiplication and division.

use vstd::prelude::*;
use vstd::arithmetic::power2::{pow2, lemma_pow2_pos, lemma_pow2_unfold, lemma_pow2_adds};
use crate::big::{nat_of, big_add, big_bits, big_div_rem, big_from_u64, big_lt, big_mul, big_shl};
use crate::bits::{
    bit_length,
    lemma_bit_length_bounds,
    lemma_bit_length_positive,
    lemma_bit_length_shl,
    lemma_bit_length_unique,
    lemma_div_between,
};
use crate::float::Float;
use crate::model::Style;
use crate::overflow::{add_overflow, sub_overflow};
use crate::rounding::{
    round_div,
    lemma_round_div_at_least,
    lemma_round_div_at_most,
    lemma_round_div_scaled,
    lemma_round_div_sticky,
};

verus! {

/// The width in bits of the units by which a dividend is shifted before a
/// division: shifting by whole units of this width keeps the shift cheap.
pub const LIMB_BITS: u64 = 64;

/// The product of two numbers of `p` bits has `2p - 1` or `2p` bits.
pub proof fn lemma_product_bits(p: nat, a: nat, b: nat)
    requires
        p > 0,
        bit_length(a) == p,
        bit_length(b) == p,
    ensures
        bit_length(a * b) == 2 * p - 1 || bit_length(a * b) == 2 * p,
        a * b > 0,
{
    lemma_bit_length_positive(a);
    lemma_bit_length_positive(b);
    lemma_bit_length_bounds(a);
    lemma_bit_length_bounds(b);
    let low = pow2((p - 1) as nat);
    let top = pow2(p);
    lemma_pow2_pos((p - 1) as nat);
    lemma_pow2_adds((p - 1) as nat, (p - 1) as nat);
    lemma_pow2_adds(p, p);
    lemma_pow2_unfold((2 * p - 1) as nat);
    assert(low * low <= a * b < top * top && a * b > 0) by (nonlinear_arith)
        requires
            0 < low <= a < top,
            low <= b < top,
    ;
    if a * b < pow2((2 * p - 1) as nat) {
        lemma_bit_length_unique(a * b, (2 * p - 1) as nat);
    } else {
        lemma_bit_length_unique(a * b, 2 * p);
    }
}

/// The rounded significand of a quotient of two numbers of `p` bits has `p`
/// bits, so rounding never carries.
pub proof fn lemma_div_signif_bits(p: nat, a: nat, b: nat)
    requires
        p > 0,
        bit_length(a) == p,
        bit_length(b) == p,
    ensures
        bit_length(
            round_div(
                a * pow2(
                    (p - 1 + (if a < b {
                        1nat
                    } else {
                        0nat
                    })) as nat,
                ),
                b,
            ),
        ) == p,
{
    lemma_bit_length_positive(a);
    lemma_bit_length_positive(b);
    lemma_bit_length_bounds(a);
    lemma_bit_length_bounds(b);
    let low = pow2((p - 1) as nat);
    let top = pow2(p);
    lemma_pow2_pos((p - 1) as nat);
    lemma_pow2_unfold(p);
    if a < b {
        let n = a * top;
        assert(low * b <= n <= (top - 1) * b) by (nonlinear_arith)
            requires
                n == a * top,
                top == 2 * low,
                low <= a,
                a + 1 <= b,
                b <= top,
        ;
        lemma_round_div_at_most(n, b, (top - 1) as nat);
        lemma_round_div_at_least(n, b, low);
        lemma_bit_length_unique(round_div(n, b), p);
    } else {
        let n = a * low;
        assert(low * b <= n <= (top - 1) * b) by (nonlinear_arith)
            requires
                n == a * low,
                low <= b,
                b <= a,
                a <= top - 1,
        ;
        lemma_round_div_at_most(n, b, (top - 1) as nat);
        lemma_round_div_at_least(n, b, low);
        lemma_bit_length_unique(round_div(n, b), p);
    }
}

/// The quotient of a dividend of `p` bits shifted up by `k` bits and a
/// divisor of `p` bits has `k + 1` bits, or `k` where the dividend is the
/// smaller of the two.
pub proof fn lemma_quotient_bits(p: nat, a: nat, b: nat, k: nat)
    requires
        p > 0,
        k > 0,
        bit_length(a) == p,
        bit_length(b) == p,
    ensures
        bit_length((a * pow2(k)) / b) == (if a < b {
            k
        } else {
            k + 1
        }),
{
    lemma_bit_length_positive(a);
    lemma_bit_length_positive(b);
    lemma_bit_length_bounds(a);
    lemma_bit_length_bounds(b);
    let low = pow2((p - 1) as nat);
    let top = pow2(p);
    lemma_pow2_pos((p - 1) as nat);
    lemma_pow2_unfold(p);
    let scale = pow2(k);
    let half = pow2((k - 1) as nat);
    lemma_pow2_pos((k - 1) as nat);
    lemma_pow2_unfold(k);
    lemma_pow2_unfold(k + 1);
    let n = a * scale;
    if a < b {
        assert(half * b <= n < scale * b) by (nonlinear_arith)
            requires
                n == a * scale,
                scale == 2 * half,
                half > 0,
                top == 2 * low,
                low <= a < b,
                b < top,
        ;
        lemma_div_between(n as int, b as int, half as int, scale as int);
        lemma_bit_length_unique(n / b, k);
    } else {
        assert(scale * b <= n < (2 * scale) * b) by (nonlinear_arith)
            requires
                n == a * scale,
                scale > 0,
                top == 2 * low,
                low <= b <= a,
                a < top,
        ;
        lemma_div_between(n as int, b as int, scale as int, (2 * scale) as int);
        lemma_bit_length_unique(n / b, k + 1);
    }
}

impl Float {
    /// Multiplies this float by `other`, correctly rounded.
    ///
    /// The exponent of the product is the sum of the two exponents and of
    /// the carry of the significands' product, taken in two steps that each
    /// report an overflow. Where exactly one step overflowed, the exponent
    /// has left the range for good, and the result is an infinity or a zero.
    pub fn mul_assign(&mut self, other: &Float)
        requires
            old(self)@.wf(),
            other@.wf(),
            old(self)@.prec == other@.prec,
        ensures
            final(self)@ == old(self)@.mul(other@),
            final(self)@.wf(),
            final(self)@.prec == old(self)@.prec,
    {
        let prec = self.prec;
        let sign = self.sign.bitxor(other.sign);
        match (self.style, other.style) {
            (Style::NaN, _) => {
                *self = Float::nan(prec);
            },
            (_, Style::NaN) => {
                *self = Float::nan(prec);
            },
            (Style::Infinity, Style::Zero) => {
                *self = Float::nan(prec);
            },
            (Style::Zero, Style::Infinity) => {
                *self = Float::nan(prec);
            },
            (Style::Infinity, _) => {
                *self = Float::inf(prec, sign);
            },
            (_, Style::Infinity) => {
                *self = Float::inf(prec, sign);
            },
            (Style::Zero, _) => {
                *self = Float::zero_(prec, sign);
            },
            (_, Style::Zero) => {
                *self = Float::zero_(prec, sign);
            },
            (Style::Normal, Style::Normal) => {
                let product = big_mul(&self.signif, &other.signif);
                let bits = big_bits(&product);
                proof {
                    lemma_product_bits(prec as nat, nat_of(self.signif), nat_of(other.signif));
                }
                let shift: u64 = bits - prec as u64;
                let (raw_mult_exp, o1) = add_overflow(self.exp, other.exp);
                let (adjusted_exp, o2) = add_overflow(
                    raw_mult_exp,
                    shift as i64 - (prec as i64 - 1),
                );
                if o1 != o2 {
                    let overflowed = if o1 {
                        raw_mult_exp
                    } else {
                        adjusted_exp
                    };
                    if overflowed < 0 {
                        *self = Float::inf(prec, sign);
                    } else {
                        *self = Float::zero_(prec, sign);
                    }
                } else {
                    let e: i128 = adjusted_exp as i128 - (bits as i128 - 1);
                    *self = Float::rounded(prec, sign, &product, e);
                }
            },
        }
    }

    /// The product of two floats of one precision, correctly rounded.
    pub fn mul(self, other: &Float) -> (r: Float)
        requires
            self@.wf(),
            other@.wf(),
            self@.prec == other@.prec,
        ensures
            r@ == self@.mul(other@),
            r@.wf(),
            r@.prec == self@.prec,
    {
        let mut product = self;
        product.mul_assign(other);
        product
    }

    /// Divides this float by `other`, correctly rounded.
    ///
    /// The dividend's significand is shifted up by whole limbs, by at least
    /// one bit more than the precision, and divided; the quotient then holds
    /// the significand and at least one bit below it, and the remainder says
    /// whether anything lies below that. The exponent is found in two steps
    /// as for the product.
    pub fn div_assign(&mut self, other: &Float)
        requires
            old(self)@.wf(),
            other@.wf(),
            old(self)@.prec == other@.prec,
        ensures
            final(self)@ == old(self)@.div(other@),
            final(self)@.wf(),
            final(self)@.prec == old(self)@.prec,
    {
        let prec = self.prec;
        let sign = self.sign.bitxor(other.sign);
        match (self.style, other.style) {
            (Style::NaN, _) => {
                *self = Float::nan(prec);
            },
            (_, Style::NaN) => {
                *self = Float::nan(prec);
            },
            (Style::Zero, Style::Zero) => {
                *self = Float::nan(prec);
            },
            (Style::Zero, _) => {
                *self = Float::zero_(prec, sign);
            },
            (_, Style::Zero) => {
                *self = Float::inf(prec, sign);
            },
            (Style::Infinity, Style::Infinity) => {
                *self = Float::nan(prec);
            },
            (Style::Normal, Style::Infinity) => {
                *self = Float::zero_(prec, other.sign);
            },
            (Style::Infinity, Style::Normal) => {
                *self = Float::inf(prec, sign);
            },
            (Style::Normal, Style::Normal) => {
                let below = big_lt(&self.signif, &other.signif);
                let down: i64 = if below {
                    1
                } else {
                    0
                };
                let (raw_mult_exp, o1) = sub_overflow(self.exp, other.exp);
                let (adjusted_exp, o2) = sub_overflow(raw_mult_exp, down);
                if o1 != o2 {
                    let overflowed = if o1 {
                        raw_mult_exp
                    } else {
                        adjusted_exp
                    };
                    if overflowed < 0 {
                        *self = Float::inf(prec, sign);
                    } else {
                        *self = Float::zero_(prec, sign);
                    }
                } else {
                    let shift: u64 = (prec as u64 + 1 + LIMB_BITS - 1) / LIMB_BITS * LIMB_BITS;
                    proof {
                        lemma_bit_length_positive(nat_of(self.signif));
                        lemma_bit_length_positive(nat_of(other.signif));
                    }
                    let dividend = big_shl(&self.signif, shift);
                    let (quotient, remainder) = big_div_rem(&dividend, &other.signif);
                    let bits = big_bits(&quotient);
                    let inexact = big_bits(&remainder) != 0;
                    let doubled = big_shl(&quotient, 1);
                    let one = big_from_u64(1);
                    let marked = if inexact {
                        big_add(&doubled, &one)
                    } else {
                        doubled
                    };
                    proof {
                        let p = prec as nat;
                        let a = nat_of(self.signif);
                        let b = nat_of(other.signif);
                        let k = shift as nat;
                        let q = nat_of(quotient);
                        let u = (bits - p) as nat;
                        let fine: nat = if a < b {
                            p
                        } else {
                            (p - 1) as nat
                        };
                        lemma_quotient_bits(p, a, b, k);
                        lemma_bit_length_positive(q);
                        if nat_of(remainder) > 0 {
                            lemma_bit_length_bounds(nat_of(remainder));
                        }
                        assert(bit_length(0) == 0);
                        assert(pow2(1) == 2) by {
                            vstd::arithmetic::power2::lemma2_to64();
                        }
                        assert(bit_length(nat_of(marked)) == bits + 1) by {
                            lemma_bit_length_shl(q, 1);
                            lemma_bit_length_bounds(q * 2);
                            lemma_pow2_unfold((bits + 1) as nat);
                            lemma_bit_length_unique(nat_of(marked), (bits + 1) as nat);
                        }
                        lemma_round_div_sticky(a * pow2(k), b, u);
                        lemma_pow2_pos(u);
                        lemma_pow2_adds(fine, u);
                        assert(a * pow2(k) == (a * pow2(fine)) * pow2(u)) by (nonlinear_arith)
                            requires
                                pow2(k) == pow2(fine) * pow2(u),
                        ;
                        lemma_round_div_scaled(a * pow2(fine), b, pow2(u));
                        lemma_div_signif_bits(p, a, b);
                        lemma_bit_length_bounds(round_div(a * pow2(fine), b));
                    }
                    let e: i128 = adjusted_exp as i128 - bits as i128;
                    *self = Float::rounded(prec, sign, &marked, e);
                }
            },
        }
    }

    /// The quotient of two floats of one precision, correctly rounded.
    pub fn div(self, other: &Float) -> (r: Float)
        requires
            self@.wf(),
            other@.wf(),
            self@.prec == other@.prec,
        ensures
            r@ == self@.div(other@),
            r@.wf(),
            r@.prec == self@.prec,
    {
        let mut quotient = self;
        quotient.div_assign(other);
        quotient
    }
}

} // verus!
