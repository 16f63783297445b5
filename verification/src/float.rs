//! The float itself: its representation, its constructors, and the rounding
//! step that every arithmetic operation ends with.

use vstd::prelude::*;
use vstd::arithmetic::power2::{
    pow2,
    lemma_pow2_pos,
    lemma_pow2_unfold,
    lemma_pow2_adds,
    lemma2_to64,
};
use vstd::arithmetic::div_mod::lemma_fundamental_div_mod;
use num_bigint::BigUint;
use crate::big::{
    nat_of,
    big_add,
    big_bit,
    big_bits,
    big_clone,
    big_from_u64,
    big_shl,
    big_shr,
    big_sub,
    big_trailing_zeros,
};
use crate::bits::{
    bit_at,
    bit_length,
    lemma_bit_at_top,
    lemma_bit_length_all_ones,
    lemma_bit_length_bounds,
    lemma_bit_length_positive,
    lemma_bit_length_pow2,
    lemma_bit_length_shl,
    lemma_bit_length_shr,
    lemma_bit_length_unique,
};
use crate::model::{FloatView, Style};
use crate::rounding::{lemma_div_mod_of, lemma_round_div_bits, lemma_round_dyadic_bits};
use crate::sign::Sign;

verus! {

/// A binary floating-point number whose precision, the number of bits of its
/// significand, is part of the value.
pub struct Float {
    pub(crate) prec: u32,
    pub(crate) sign: Sign,
    pub(crate) exp: i64,
    pub(crate) signif: BigUint,
    pub(crate) style: Style,
}

impl View for Float {
    type V = FloatView;

    open(crate) spec fn view(&self) -> FloatView {
        FloatView {
            prec: self.prec as nat,
            sign: self.sign,
            exp: self.exp as int,
            signif: nat_of(self.signif),
            style: self.style,
        }
    }
}

/// The lowest set bit of a positive number lies below position `j` exactly
/// when the number is no multiple of `2^j`.
pub proof fn lemma_trailing_zeros(n: nat, tz: nat, j: nat)
    requires
        n % pow2(tz) == 0,
        bit_at(n, tz),
    ensures
        (tz < j) == (n % pow2(j) != 0),
{
    lemma_pow2_pos(tz);
    lemma_pow2_pos(j);
    if tz >= j {
        let m = n / pow2(tz);
        lemma_fundamental_div_mod(n as int, pow2(tz) as int);
        lemma_pow2_adds(j, (tz - j) as nat);
        assert(n == (pow2((tz - j) as nat) * m) * pow2(j) + 0) by (nonlinear_arith)
            requires
                n == pow2(tz) * m,
                pow2(tz) == pow2(j) * pow2((tz - j) as nat),
        ;
        lemma_div_mod_of(n as int, pow2(j) as int, (pow2((tz - j) as nat) * m) as int, 0);
    } else {
        if n % pow2(j) == 0 {
            let m = n / pow2(j);
            lemma_fundamental_div_mod(n as int, pow2(j) as int);
            lemma_pow2_adds(tz, (j - tz) as nat);
            lemma_pow2_unfold((j - tz) as nat);
            let c = pow2((j - tz - 1) as nat);
            assert(n == (2 * (c * m)) * pow2(tz) + 0) by (nonlinear_arith)
                requires
                    n == pow2(j) * m,
                    pow2(j) == pow2(tz) * pow2((j - tz) as nat),
                    pow2((j - tz) as nat) == 2 * c,
            ;
            lemma_div_mod_of(n as int, pow2(tz) as int, (2 * (c * m)) as int, 0);
            assert(false);
        }
    }
}

impl Float {
    /// Validity of the float: that of its model.
    pub open spec fn wf(&self) -> bool {
        self@.wf()
    }

    /// The zero of precision `p` and the given sign.
    pub(crate) fn zero_(p: u32, sign: Sign) -> (r: Float)
        ensures
            r@ == FloatView::zero(p as nat, sign),
    {
        Float { prec: p, sign, exp: i64::MIN, signif: big_from_u64(0), style: Style::Zero }
    }

    /// The infinity of precision `p` and the given sign.
    pub(crate) fn inf(p: u32, sign: Sign) -> (r: Float)
        ensures
            r@ == FloatView::infinity(p as nat, sign),
    {
        Float { prec: p, sign, exp: i64::MAX, signif: big_from_u64(0), style: Style::Infinity }
    }

    /// Positive zero of precision `p`.
    pub fn zero(p: u32) -> (r: Float)
        requires
            p > 0,
        ensures
            r@ == FloatView::zero(p as nat, Sign::Pos),
            r@.wf(),
    {
        Float::zero_(p, Sign::Pos)
    }

    /// Negative zero of precision `p`.
    pub fn neg_zero(p: u32) -> (r: Float)
        requires
            p > 0,
        ensures
            r@ == FloatView::zero(p as nat, Sign::Neg),
            r@.wf(),
    {
        Float::zero_(p, Sign::Neg)
    }

    /// Positive infinity of precision `p`.
    pub fn infinity(p: u32) -> (r: Float)
        requires
            p > 0,
        ensures
            r@ == FloatView::infinity(p as nat, Sign::Pos),
            r@.wf(),
    {
        Float::inf(p, Sign::Pos)
    }

    /// Negative infinity of precision `p`.
    pub fn neg_infinity(p: u32) -> (r: Float)
        requires
            p > 0,
        ensures
            r@ == FloatView::infinity(p as nat, Sign::Neg),
            r@.wf(),
    {
        Float::inf(p, Sign::Neg)
    }

    /// The NaN of precision `p`.
    pub fn nan(p: u32) -> (r: Float)
        requires
            p > 0,
        ensures
            r@ == FloatView::nan(p as nat),
            r@.wf(),
    {
        Float { prec: p, sign: Sign::Pos, exp: i64::MAX, signif: big_from_u64(0), style: Style::NaN }
    }

    /// Moves the value out, leaving the NaN of the same precision behind.
    pub(crate) fn take(&mut self) -> (r: Float)
        ensures
            r == *old(self),
            final(self)@ == FloatView::nan(old(self)@.prec),
    {
        let mut held = Float {
            prec: self.prec,
            sign: Sign::Pos,
            exp: i64::MAX,
            signif: big_from_u64(0),
            style: Style::NaN,
        };
        std::mem::swap(self, &mut held);
        held
    }

    /// The normal value with the given parts, or the infinity or zero that
    /// takes its place where the exponent is out of range.
    pub(crate) fn saturated(p: u32, sign: Sign, exp: i128, signif: BigUint) -> (r: Float)
        ensures
            r@ == FloatView::saturated(p as nat, sign, exp as int, nat_of(signif)),
    {
        if exp >= i64::MAX as i128 {
            Float::inf(p, sign)
        } else if exp <= i64::MIN as i128 {
            Float::zero_(p, sign)
        } else {
            Float { prec: p, sign, exp: exp as i64, signif, style: Style::Normal }
        }
    }

    /// The float of precision `p` nearest to `(-1)^sign * n * 2^e`.
    ///
    /// With `shift` the number of bits of `n` beyond `p`, the bit of `n` at
    /// `shift` is the ulp bit, the one below it the half-ulp bit, and any bit
    /// further down makes the value inexact beyond the half. The value is
    /// rounded up by one ulp where the half-ulp bit is set and either of the
    /// other two is; a carry out of the top moves the exponent up by one.
    pub(crate) fn rounded(p: u32, sign: Sign, n: &BigUint, e: i128) -> (r: Float)
        requires
            p > 0,
            nat_of(*n) > 0,
            -0x1_0000_0000_0000_0000_0000 <= e <= 0x1_0000_0000_0000_0000_0000,
            bit_length(nat_of(*n)) <= crate::big::MAX_SHIFT,
        ensures
            r@ == FloatView::rounded(p as nat, sign, nat_of(*n), e as int),
            r@.wf(),
            r@.prec == p,
            r@.sign == sign,
    {
        let bits: u64 = big_bits(n);
        let width: u64 = p as u64;
        proof {
            lemma_round_dyadic_bits(nat_of(*n), e as int, p as nat);
        }
        if bits <= width {
            let signif = big_shl(n, width - bits);
            let top: i128 = e + bits as i128 - 1;
            Float::saturated(p, sign, top, signif)
        } else {
            let shift: u64 = bits - width;
            let ulp_bit = big_bit(n, shift);
            let half_ulp_bit = big_bit(n, shift - 1);
            let has_trailing_one = match big_trailing_zeros(n) {
                Some(zeros) => {
                    proof {
                        lemma_trailing_zeros(nat_of(*n), zeros as nat, (shift - 1) as nat);
                    }
                    zeros < shift - 1
                },
                None => false,
            };
            let kept = big_shr(n, shift);
            proof {
                lemma_round_div_bits(nat_of(*n), shift as nat);
                lemma_bit_length_shr(nat_of(*n), shift as nat);
                assert(nat_of(kept) > 0) by {
                    if nat_of(kept) == 0 {
                        assert(bit_length(nat_of(kept)) == 0);
                    }
                }
                lemma_bit_length_bounds(nat_of(kept));
            }
            if half_ulp_bit && (ulp_bit || has_trailing_one) {
                let one = big_from_u64(1);
                let raised = big_add(&kept, &one);
                if big_bit(&raised, width) {
                    let halved = big_shr(&raised, 1);
                    proof {
                        let top = pow2(p as nat);
                        lemma_pow2_pos(p as nat);
                        lemma_pow2_unfold(p as nat);
                        lemma2_to64();
                        assert(nat_of(raised) == top) by {
                            if nat_of(raised) < top {
                                lemma_div_mod_of(
                                    nat_of(raised) as int,
                                    top as int,
                                    0,
                                    nat_of(raised) as int,
                                );
                            }
                        }
                        lemma_div_mod_of(top as int, 2, pow2((p - 1) as nat) as int, 0);
                    }
                    Float::saturated(p, sign, e + bits as i128, halved)
                } else {
                    proof {
                        let top = pow2(p as nat);
                        lemma_pow2_pos(p as nat);
                        assert(nat_of(raised) < top) by {
                            if nat_of(raised) == top {
                                lemma_div_mod_of(top as int, top as int, 1, 0);
                            }
                        }
                    }
                    Float::saturated(p, sign, e + bits as i128 - 1, raised)
                }
            } else {
                Float::saturated(p, sign, e + bits as i128 - 1, kept)
            }
        }
    }

    /// The largest finite value of precision `p`.
    pub fn max(p: u32) -> (r: Float)
        requires
            p > 0,
        ensures
            r@ == FloatView::max(p as nat),
            r@.wf(),
    {
        let one = big_from_u64(1);
        let top = big_shl(&one, p as u64);
        proof {
            lemma_pow2_pos(p as nat);
            lemma_bit_length_all_ones(p as nat);
        }
        let signif = big_sub(&top, &one);
        Float { prec: p, sign: Sign::Pos, exp: i64::MAX - 1, signif, style: Style::Normal }
    }

    /// The least finite value of precision `p`: the negative of the largest.
    pub fn min(p: u32) -> (r: Float)
        requires
            p > 0,
        ensures
            r@ == FloatView::max(p as nat).neg(),
            r@.wf(),
    {
        Float::max(p).neg()
    }

    /// The smallest positive value of precision `p`.
    pub fn min_positive(p: u32) -> (r: Float)
        requires
            p > 0,
        ensures
            r@ == FloatView::min_positive(p as nat),
            r@.wf(),
    {
        let one = big_from_u64(1);
        let signif = big_shl(&one, (p - 1) as u64);
        proof {
            lemma_bit_length_pow2((p - 1) as nat);
        }
        Float { prec: p, sign: Sign::Pos, exp: i64::MIN + 1, signif, style: Style::Normal }
    }

    /// The same value with the opposite sign.
    pub fn neg(self) -> (r: Float)
        requires
            self@.wf(),
        ensures
            r@ == self@.neg(),
            r@.wf(),
            r@.prec == self@.prec,
    {
        Float {
            prec: self.prec,
            sign: self.sign.neg(),
            exp: self.exp,
            signif: self.signif,
            style: self.style,
        }
    }

    /// The same value with the positive sign.
    pub fn abs(self) -> (r: Float)
        requires
            self@.wf(),
        ensures
            r@ == self@.abs(),
            r@.wf(),
            r@.prec == self@.prec,
    {
        Float {
            prec: self.prec,
            sign: Sign::Pos,
            exp: self.exp,
            signif: self.signif,
            style: self.style,
        }
    }

    /// The sign of the value; `None` for NaN and for nothing else.
    pub fn sign(&self) -> (r: Option<Sign>)
        requires
            self@.wf(),
        ensures
            r == self@.sign_of(),
            r.is_none() <==> self@.is_nan(),
    {
        match self.style {
            Style::NaN => None,
            _ => Some(self.sign),
        }
    }

    /// The precision of the value, in bits.
    pub fn precision(&self) -> (r: u32)
        requires
            self@.wf(),
        ensures
            r == self@.prec,
            r > 0,
    {
        self.prec
    }

    /// The value at precision `prec`. Raising the precision is exact;
    /// lowering it rounds to nearest, ties to even, and a carry out of the
    /// largest exponent gives an infinity.
    pub fn with_precision(self, prec: u32) -> (r: Float)
        requires
            self@.wf(),
            prec > 0,
        ensures
            r@ == self@.with_precision(prec as nat),
            r@.wf(),
            r@.prec == prec,
    {
        match self.style {
            Style::Normal => {
                proof {
                    lemma_bit_length_positive(nat_of(self.signif));
                }
                let e: i128 = self.exp as i128 - (self.prec as i128 - 1);
                Float::rounded(prec, self.sign, &self.signif, e)
            },
            _ => Float {
                prec,
                sign: self.sign,
                exp: self.exp,
                signif: self.signif,
                style: self.style,
            },
        }
    }

    /// The value times `2^exp`. Where the exponent leaves its range, the
    /// result is the infinity or the zero of the value's sign. NaN,
    /// infinities and zeros are returned as they are.
    pub fn mul_exp2(self, exp: i64) -> (r: Float)
        requires
            self@.wf(),
        ensures
            r@ == self@.mul_exp2(exp as int),
            r@.wf(),
            r@.prec == self@.prec,
    {
        match self.style {
            Style::Normal => {
                let moved: i128 = self.exp as i128 + exp as i128;
                Float::saturated(self.prec, self.sign, moved, self.signif)
            },
            _ => self,
        }
    }

    /// Moves the value one unit in the last place away from zero.
    pub(crate) fn add_ulp(&mut self)
        requires
            old(self)@.wf(),
        ensures
            final(self)@ == old(self)@.add_ulp(),
            final(self)@.wf(),
            final(self)@.prec == old(self)@.prec,
    {
        match self.style {
            Style::NaN => {},
            Style::Infinity => {},
            Style::Zero => {
                let sign = self.sign;
                *self = Float::min_positive(self.prec);
                self.sign = sign;
            },
            Style::Normal => {
                let one = big_from_u64(1);
                let raised = big_add(&self.signif, &one);
                proof {
                    let p = self.prec as nat;
                    lemma_bit_length_positive(nat_of(self.signif));
                    lemma_bit_length_bounds(nat_of(self.signif));
                    lemma_pow2_unfold(p + 1);
                    lemma_pow2_pos(p);
                    lemma_bit_at_top(nat_of(raised), p);
                    lemma_bit_length_pow2((p - 1) as nat);
                    if nat_of(raised) < pow2(p) {
                        lemma_bit_length_unique(nat_of(raised), p);
                    } else {
                        lemma_pow2_unfold(p);
                        lemma_div_mod_of(pow2(p) as int, 2, pow2((p - 1) as nat) as int, 0);
                        lemma2_to64();
                    }
                }
                if big_bit(&raised, self.prec as u64) {
                    self.exp = self.exp + 1;
                    if self.exp == i64::MAX {
                        *self = Float::inf(self.prec, self.sign);
                    } else {
                        self.signif = big_shr(&raised, 1);
                    }
                } else {
                    self.signif = raised;
                }
            },
        }
    }

    /// Moves the value one unit in the last place towards zero, or across it.
    pub(crate) fn sub_ulp(&mut self)
        requires
            old(self)@.wf(),
        ensures
            final(self)@ == old(self)@.sub_ulp(),
            final(self)@.wf(),
            final(self)@.prec == old(self)@.prec,
    {
        match self.style {
            Style::NaN => {},
            Style::Infinity => {
                let sign = self.sign;
                *self = Float::max(self.prec);
                self.sign = sign;
            },
            Style::Zero => {
                let sign = self.sign.neg();
                *self = Float::min_positive(self.prec);
                self.sign = sign;
            },
            Style::Normal => {
                let one = big_from_u64(1);
                proof {
                    lemma_bit_length_positive(nat_of(self.signif));
                }
                let lowered = big_sub(&self.signif, &one);
                proof {
                    let p = self.prec as nat;
                    lemma_bit_length_bounds(nat_of(self.signif));
                    lemma_pow2_unfold(p);
                    lemma_pow2_pos((p - 1) as nat);
                    lemma_bit_at_top(nat_of(lowered), (p - 1) as nat);
                    lemma_bit_length_all_ones(p);
                    lemma2_to64();
                    if nat_of(lowered) >= pow2((p - 1) as nat) {
                        lemma_bit_length_unique(nat_of(lowered), p);
                    }
                }
                if !big_bit(&lowered, (self.prec - 1) as u64) {
                    self.exp = self.exp - 1;
                    if self.exp == i64::MIN {
                        *self = Float::zero_(self.prec, self.sign);
                    } else {
                        let doubled = big_shl(&lowered, 1);
                        self.signif = big_add(&doubled, &one);
                    }
                } else {
                    self.signif = lowered;
                }
            },
        }
    }

    /// The next value above: one unit in the last place up.
    pub fn next_above(self) -> (r: Float)
        requires
            self@.wf(),
        ensures
            r@ == self@.next_above(),
            r@.wf(),
            r@.prec == self@.prec,
    {
        let mut stepped = self;
        match stepped.sign {
            Sign::Pos => stepped.add_ulp(),
            Sign::Neg => stepped.sub_ulp(),
        }
        stepped
    }

    /// The next value below: one unit in the last place down.
    pub fn next_below(self) -> (r: Float)
        requires
            self@.wf(),
        ensures
            r@ == self@.next_below(),
            r@.wf(),
            r@.prec == self@.prec,
    {
        let mut stepped = self;
        match stepped.sign {
            Sign::Neg => stepped.add_ulp(),
            Sign::Pos => stepped.sub_ulp(),
        }
        stepped
    }

    /// Whether the float is valid: the test that every operation's result
    /// passes.
    pub fn is_valid(&self) -> (r: bool)
        ensures
            r == self@.wf(),
    {
        let bits = big_bits(&self.signif);
        proof {
            assert(bit_length(0) == 0);
            if nat_of(self.signif) > 0 {
                lemma_bit_length_bounds(nat_of(self.signif));
            }
        }
        self.prec > 0 && match self.style {
            Style::NaN => self.exp == i64::MAX,
            Style::Infinity => self.exp == i64::MAX && bits == 0,
            Style::Zero => self.exp == i64::MIN && bits == 0,
            Style::Normal => i64::MIN < self.exp && self.exp < i64::MAX && bits
                == self.prec as u64,
        }
    }

    /// The float that stands for `random / 2^p`, or `None` where `random`
    /// is not below `2^p`.
    pub fn checked_rand(random: BigUint, p: u32) -> (r: Option<Float>)
        requires
            p > 0,
        ensures
            r.is_some() <==> nat_of(random) < pow2(p as nat),
            match r {
                Some(f) => f@.wf() && f@.prec == p && f@.sign == Sign::Pos && (nat_of(random) == 0
                    ==> f@ == FloatView::zero(p as nat, Sign::Pos)) && (nat_of(random) > 0
                    ==> f@.is_normal() && f@.exp == bit_length(nat_of(random)) - 1 - p && f@.signif
                    == nat_of(random) * pow2((p - bit_length(nat_of(random))) as nat)),
                None => true,
            },
    {
        let bits = big_bits(&random);
        proof {
            assert(bit_length(0) == 0);
            lemma_pow2_pos(p as nat);
            if nat_of(random) > 0 {
                lemma_bit_length_bounds(nat_of(random));
                if bits <= p {
                    crate::bits::lemma_pow2_increases(bits as nat, p as nat);
                } else {
                    crate::bits::lemma_pow2_increases(p as nat, (bits - 1) as nat);
                }
            }
        }
        if bits <= p as u64 {
            Some(Float::rand(random, p))
        } else {
            None
        }
    }

    /// The float that stands for `random / 2^p`, for a number below `2^p`.
    /// With `random` drawn uniformly from that range, the result is spread
    /// over `[0, 1)` accordingly.
    pub fn rand(random: BigUint, p: u32) -> (r: Float)
        requires
            p > 0,
            nat_of(random) < pow2(p as nat),
        ensures
            r@.wf(),
            r@.prec == p,
            r@.sign == Sign::Pos,
            nat_of(random) == 0 ==> r@ == FloatView::zero(p as nat, Sign::Pos),
            nat_of(random) > 0 ==> r@.is_normal() && r@.exp == bit_length(nat_of(random)) - 1 - p
                && r@.signif == nat_of(random) * pow2((p - bit_length(nat_of(random))) as nat),
    {
        let bits = big_bits(&random);
        if bits == 0 {
            proof {
                if nat_of(random) > 0 {
                    lemma_bit_length_bounds(nat_of(random));
                }
            }
            Float::zero_(p, Sign::Pos)
        } else {
            proof {
                lemma_bit_length_positive(nat_of(random));
                lemma_bit_length_bounds(nat_of(random));
                if bits > p {
                    crate::bits::lemma_pow2_increases(p as nat, (bits - 1) as nat);
                }
                lemma_bit_length_shl(nat_of(random), (p - bits) as nat);
            }
            let shift: u64 = p as u64 - bits;
            let signif = big_shl(&random, shift);
            Float {
                prec: p,
                sign: Sign::Pos,
                exp: -1 - (shift as i64),
                signif,
                style: Style::Normal,
            }
        }
    }
}

impl Clone for Float {
    fn clone(&self) -> (r: Float)
        ensures
            r@ == self@,
    {
        Float {
            prec: self.prec,
            sign: self.sign,
            exp: self.exp,
            signif: big_clone(&self.signif),
            style: self.style,
        }
    }
}

} // verus!
