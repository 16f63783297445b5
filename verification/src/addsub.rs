//! Addition and subtraction.

use vstd::prelude::*;
use vstd::arithmetic::power2::{
    pow2,
    lemma_pow2_pos,
    lemma_pow2_unfold,
    lemma_pow2_adds,
    lemma2_to64,
};
use crate::big::{nat_of, big_add, big_clone, big_eq, big_lt, big_shl, big_sub};
use crate::bits::{
    bit_length,
    lemma_bit_length_below,
    lemma_bit_length_bounds,
    lemma_bit_length_positive,
    lemma_bit_length_scaled,
    lemma_pow2_increases,
};
use crate::float::Float;
use crate::model::{FloatView, Style};
use crate::rounding::{round_dyadic, Rounded, lemma_div_mod_of};
use crate::sign::Sign;

verus! {

/// Which of the two operations is asked for.
#[derive(Copy, Clone, Debug, PartialEq, Eq, Structural)]
pub enum Operation {
    Add,
    Sub,
}

impl Operation {
    /// The sign with which the second operand enters the sum.
    pub open spec fn applied(self, sign: Sign) -> Sign {
        match self {
            Operation::Add => sign,
            Operation::Sub => sign.flip(),
        }
    }

    /// The sign with which the second operand enters the sum.
    pub fn apply(self, sign: Sign) -> (r: Sign)
        ensures
            r == self.applied(sign),
    {
        match self {
            Operation::Add => sign,
            Operation::Sub => sign.neg(),
        }
    }
}

/// A small addend far below a large one does not change it: the sum rounds
/// back to the large one.
pub proof fn lemma_far_add(p: nat, big: nat, small: nat, d: nat, e: int)
    requires
        p > 0,
        bit_length(big) == p,
        bit_length(small) == p,
        d >= p + 2,
    ensures
        round_dyadic(big * pow2(d) + small, e, p) == (Rounded { signif: big, exp: e + d + p - 1 }),
{
    let scale = pow2(d);
    let n = big * scale + small;
    lemma_bit_length_positive(big);
    lemma_bit_length_positive(small);
    lemma_bit_length_bounds(big);
    lemma_bit_length_bounds(small);
    lemma_pow2_pos(d);
    lemma_pow2_unfold(d);
    lemma_pow2_increases(p, (d - 1) as nat);
    assert(2 * small < scale);
    lemma_div_mod_of(n as int, scale as int, big as int, small as int);
    assert(pow2((p - 1) as nat) * scale <= n < pow2(p) * scale) by (nonlinear_arith)
        requires
            n == big * scale + small,
            small < scale,
            pow2((p - 1) as nat) <= big,
            big + 1 <= pow2(p),
            scale > 0,
    ;
    lemma_bit_length_scaled(n, p, d);
}

/// A small subtrahend far below a large minuend does not change it: the
/// difference rounds back to the large one.
pub proof fn lemma_far_sub(p: nat, big: nat, small: nat, d: nat, e: int)
    requires
        p > 0,
        bit_length(big) == p,
        bit_length(small) == p,
        d >= p + 3,
    ensures
        big * pow2(d) > small,
        round_dyadic((big * pow2(d) - small) as nat, e, p) == (Rounded {
            signif: big,
            exp: e + d + p - 1,
        }),
{
    let scale = pow2(d);
    let half = pow2((d - 1) as nat);
    let top = pow2(p);
    let low = pow2((p - 1) as nat);
    lemma_bit_length_positive(big);
    lemma_bit_length_positive(small);
    lemma_bit_length_bounds(big);
    lemma_bit_length_bounds(small);
    lemma_pow2_pos(d);
    lemma_pow2_pos((d - 1) as nat);
    lemma_pow2_pos((p - 1) as nat);
    lemma_pow2_unfold(d);
    lemma_pow2_unfold((d - 1) as nat);
    lemma_pow2_unfold(p);
    lemma_pow2_increases(p, (d - 2) as nat);
    assert(4 * small < scale);
    assert(big * scale > small) by (nonlinear_arith)
        requires
            big >= 1,
            scale > small,
    ;
    let n = (big * scale - small) as nat;
    if big > low {
        assert(n == (big - 1) * scale + (scale - small)) by (nonlinear_arith)
            requires
                n == big * scale - small,
        ;
        lemma_div_mod_of(n as int, scale as int, big - 1, scale - small);
        assert(low * scale <= n < top * scale) by (nonlinear_arith)
            requires
                n == (big - 1) * scale + (scale - small),
                0 < small < scale,
                low <= big - 1,
                big <= top,
                scale > 0,
        ;
        lemma_bit_length_scaled(n, p, d);
    } else {
        assert(n == (top - 1) * half + (half - small)) by (nonlinear_arith)
            requires
                n == big * scale - small,
                big == low,
                top == 2 * low,
                scale == 2 * half,
        ;
        lemma_div_mod_of(n as int, half as int, top - 1, half - small);
        assert(low * half <= n < top * half) by (nonlinear_arith)
            requires
                n == (top - 1) * half + (half - small),
                0 < small < half,
                top == 2 * low,
                low >= 1,
                half > 0,
        ;
        lemma_bit_length_scaled(n, p, (d - 1) as nat);
    }
}

/// Whether `x + y` (or `x - y`) adds the magnitudes, with `x` the operand of
/// the smaller exponent.
pub fn can_use_unsigned_add(x: &Float, y: &Float, op: Operation) -> (r: bool)
    ensures
        r == (x@.exp <= y@.exp && x@.sign == op.applied(y@.sign)),
{
    x.exp <= y.exp && x.sign == op.apply(y.sign)
}

/// Whether `x + y` (or `x - y`) subtracts the magnitudes, with `x` the
/// operand of the larger exponent.
pub fn can_use_unsigned_sub(x: &Float, y: &Float, op: Operation) -> (r: bool)
    ensures
        r == (x@.exp >= y@.exp && x@.sign != op.applied(y@.sign)),
{
    x.exp >= y.exp && x.sign != op.apply(y.sign)
}

/// Whether either of the two applies with the operands in this order.
pub fn can_use_unsigned_op(x: &Float, y: &Float, op: Operation) -> (r: bool)
    ensures
        r == ((x@.exp <= y@.exp && x@.sign == op.applied(y@.sign)) || (x@.exp >= y@.exp
            && x@.sign != op.applied(y@.sign))),
{
    can_use_unsigned_add(x, y, op) || can_use_unsigned_sub(x, y, op)
}

/// The float of the given sign whose magnitude is the rounded sum of the
/// magnitudes of two normal values, `x` being the one of the smaller
/// exponent.
///
/// Where `y` lies so far above `x` that `x` is less than a quarter of a unit
/// in the last place of `y`, the result is `y`; else the significands are
/// lined up and added exactly, and the sum is rounded once.
pub fn unsigned_add(x: &Float, y: &Float, sign: Sign) -> (r: Float)
    requires
        x@.wf(),
        y@.wf(),
        x@.is_normal(),
        y@.is_normal(),
        x@.prec == y@.prec,
        x@.exp <= y@.exp,
    ensures
        r@ == FloatView::rounded(
            x@.prec,
            sign,
            y@.signif * pow2((y@.exp - x@.exp) as nat) + x@.signif,
            x@.exp - (x@.prec - 1),
        ),
        r@.wf(),
        r@.prec == x@.prec,
{
    let prec = x.prec;
    let diff: u64 = (y.exp as i128 - x.exp as i128) as u64;
    proof {
        lemma_bit_length_positive(nat_of(x.signif));
        lemma_bit_length_positive(nat_of(y.signif));
    }
    if diff > prec as u64 + 1 {
        proof {
            lemma_far_add(
                prec as nat,
                nat_of(y.signif),
                nat_of(x.signif),
                diff as nat,
                x.exp - (prec - 1),
            );
        }
        Float { prec, sign, exp: y.exp, signif: big_clone(&y.signif), style: Style::Normal }
    } else {
        let lined_up = big_shl(&y.signif, diff);
        let sum = big_add(&lined_up, &x.signif);
        proof {
            let p = prec as nat;
            let d = diff as nat;
            lemma_bit_length_bounds(nat_of(x.signif));
            lemma_bit_length_bounds(nat_of(y.signif));
            lemma_pow2_pos(d);
            lemma_pow2_adds(p, d);
            lemma_pow2_unfold(p + d + 1);
            lemma_pow2_increases(p, p + d);
            assert(nat_of(y.signif) * pow2(d) < pow2(p) * pow2(d)) by (nonlinear_arith)
                requires
                    nat_of(y.signif) < pow2(p),
                    pow2(d) > 0,
            ;
            lemma_bit_length_below(nat_of(sum), p + d + 1);
        }
        Float::rounded(prec, sign, &sum, x.exp as i128 - (prec as i128 - 1))
    }
}

/// The float whose value is the rounded difference of the magnitudes of two
/// normal values, `x` being the one of the larger exponent: of the given
/// sign where `x` is the larger in magnitude, of the opposite sign where `y`
/// is, and the positive zero where the two cancel.
///
/// Where `x` lies so far above `y` that `y` is less than an eighth of a unit
/// in the last place of `x`, the result is `x`; else the significands are
/// lined up and subtracted exactly, and the difference is rounded once.
pub fn unsigned_sub(x: &Float, y: &Float, sign: Sign) -> (r: Float)
    requires
        x@.wf(),
        y@.wf(),
        x@.is_normal(),
        y@.is_normal(),
        x@.prec == y@.prec,
        x@.exp >= y@.exp,
    ensures
        ({
            let left = x@.signif * pow2((x@.exp - y@.exp) as nat);
            let e = y@.exp - (x@.prec - 1);
            r@ == (if left == y@.signif {
                FloatView::zero(x@.prec, Sign::Pos)
            } else if left > y@.signif {
                FloatView::rounded(x@.prec, sign, (left - y@.signif) as nat, e)
            } else {
                FloatView::rounded(x@.prec, sign.flip(), (y@.signif - left) as nat, e)
            })
        }),
        r@.wf(),
        r@.prec == x@.prec,
{
    let prec = x.prec;
    let diff: u64 = (x.exp as i128 - y.exp as i128) as u64;
    proof {
        lemma_bit_length_positive(nat_of(x.signif));
        lemma_bit_length_positive(nat_of(y.signif));
    }
    if diff > prec as u64 + 2 {
        proof {
            lemma_far_sub(
                prec as nat,
                nat_of(x.signif),
                nat_of(y.signif),
                diff as nat,
                y.exp - (prec - 1),
            );
        }
        Float { prec, sign, exp: x.exp, signif: big_clone(&x.signif), style: Style::Normal }
    } else {
        let lined_up = big_shl(&x.signif, diff);
        let e: i128 = y.exp as i128 - (prec as i128 - 1);
        proof {
            let p = prec as nat;
            let d = diff as nat;
            lemma_bit_length_bounds(nat_of(x.signif));
            lemma_bit_length_bounds(nat_of(y.signif));
            lemma_pow2_pos(d);
            lemma_pow2_adds(p, d);
            lemma_pow2_increases(p, p + d);
            assert(nat_of(x.signif) * pow2(d) < pow2(p) * pow2(d)) by (nonlinear_arith)
                requires
                    nat_of(x.signif) < pow2(p),
                    pow2(d) > 0,
            ;
        }
        if big_lt(&lined_up, &y.signif) {
            let rest = big_sub(&y.signif, &lined_up);
            proof {
                lemma_bit_length_below(nat_of(rest), (prec + diff) as nat);
            }
            Float::rounded(prec, sign.neg(), &rest, e)
        } else if big_eq(&lined_up, &y.signif) {
            Float::zero(prec)
        } else {
            let rest = big_sub(&lined_up, &y.signif);
            proof {
                lemma_bit_length_below(nat_of(rest), (prec + diff) as nat);
            }
            Float::rounded(prec, sign, &rest, e)
        }
    }
}

impl Float {
    /// The sum `self + other` or the difference `self - other`, as `op`
    /// says: the second operand enters with its sign or with the opposite
    /// one, and the rest is addition.
    pub(crate) fn sum(self, other: &Float, op: Operation) -> (r: Float)
        requires
            self@.wf(),
            other@.wf(),
            self@.prec == other@.prec,
        ensures
            r@ == self@.add(other@.with_sign(op.applied(other@.sign))),
            r@.wf(),
            r@.prec == self@.prec,
    {
        let prec = self.prec;
        let other_sign = op.apply(other.sign);
        match (self.style, other.style) {
            (Style::NaN, _) => Float::nan(prec),
            (_, Style::NaN) => Float::nan(prec),
            (Style::Infinity, Style::Infinity) => {
                if self.sign == other_sign {
                    Float::inf(prec, self.sign)
                } else {
                    Float::nan(prec)
                }
            },
            (Style::Infinity, _) => Float::inf(prec, self.sign),
            (_, Style::Infinity) => Float::inf(prec, other_sign),
            (Style::Zero, Style::Zero) => {
                if self.sign == Sign::Neg && other_sign == Sign::Neg {
                    Float::zero_(prec, Sign::Neg)
                } else {
                    Float::zero_(prec, Sign::Pos)
                }
            },
            (Style::Zero, Style::Normal) => Float {
                prec,
                sign: other_sign,
                exp: other.exp,
                signif: big_clone(&other.signif),
                style: Style::Normal,
            },
            (Style::Normal, Style::Zero) => self,
            (Style::Normal, Style::Normal) => {
                proof {
                    lemma2_to64();
                    lemma_bit_length_positive(nat_of(self.signif));
                    lemma_bit_length_positive(nat_of(other.signif));
                    let d: nat = if self.exp <= other.exp {
                        (other.exp - self.exp) as nat
                    } else {
                        (self.exp - other.exp) as nat
                    };
                    lemma_pow2_pos(d);
                    assert(nat_of(self.signif) * pow2(d) > 0 && nat_of(other.signif) * pow2(d) > 0)
                        by (nonlinear_arith)
                        requires
                            nat_of(self.signif) > 0,
                            nat_of(other.signif) > 0,
                            pow2(d) > 0,
                    ;
                    assert(nat_of(self.signif) * 1 == nat_of(self.signif));
                    assert(nat_of(other.signif) * 1 == nat_of(other.signif));
                }
                if can_use_unsigned_add(&self, other, op) {
                    unsigned_add(&self, other, self.sign)
                } else if can_use_unsigned_sub(&self, other, op) {
                    unsigned_sub(&self, other, self.sign)
                } else if can_use_unsigned_add(other, &self, op) {
                    unsigned_add(other, &self, self.sign)
                } else {
                    unsigned_sub(other, &self, other_sign)
                }
            },
        }
    }

    /// The sum of two floats of one precision, correctly rounded.
    pub fn add(self, other: &Float) -> (r: Float)
        requires
            self@.wf(),
            other@.wf(),
            self@.prec == other@.prec,
        ensures
            r@ == self@.add(other@),
            r@.wf(),
            r@.prec == self@.prec,
    {
        self.sum(other, Operation::Add)
    }

    /// The difference of two floats of one precision, correctly rounded:
    /// the sum of the first and the negative of the second.
    pub fn sub(self, other: &Float) -> (r: Float)
        requires
            self@.wf(),
            other@.wf(),
            self@.prec == other@.prec,
        ensures
            r@ == self@.sub(other@),
            r@.wf(),
            r@.prec == self@.prec,
    {
        self.sum(other, Operation::Sub)
    }

    /// Adds `other` to this float.
    pub fn add_assign(&mut self, other: &Float)
        requires
            old(self)@.wf(),
            other@.wf(),
            old(self)@.prec == other@.prec,
        ensures
            final(self)@ == old(self)@.add(other@),
            final(self)@.wf(),
            final(self)@.prec == old(self)@.prec,
    {
        let held = self.take();
        *self = held.add(other);
    }

    /// Subtracts `other` from this float.
    pub fn sub_assign(&mut self, other: &Float)
        requires
            old(self)@.wf(),
            other@.wf(),
            old(self)@.prec == other@.prec,
        ensures
            final(self)@ == old(self)@.sub(other@),
            final(self)@.wf(),
            final(self)@.prec == old(self)@.prec,
    {
        let held = self.take();
        *self = held.sub(other);
    }
}

} // verus!
