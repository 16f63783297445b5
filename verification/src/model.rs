//! The mathematical model of a float: what each value is, when it is valid,
//! and what every operation of the library returns, over unbounded integers.

use vstd::prelude::*;
use std::cmp::Ordering;
use vstd::arithmetic::power2::pow2;
use crate::bits::bit_length;
use crate::rounding::{round_div, round_dyadic, round_sqrt};
use crate::sign::Sign;

verus! {

/// The kind of value that a float holds.
#[derive(Copy, Clone, Debug, PartialEq, Eq, Structural)]
pub enum Style {
    NaN,
    Infinity,
    Zero,
    Normal,
}

/// A float as a mathematical record. A `Normal` one stands for
/// `(-1)^sign * signif * 2^(exp - (prec - 1))`.
pub struct FloatView {
    pub prec: nat,
    pub sign: Sign,
    pub exp: int,
    pub signif: nat,
    pub style: Style,
}

impl FloatView {
    /// Validity: the precision is positive; NaN and infinities carry the
    /// largest exponent, zeros the smallest; an infinity or a zero has no
    /// significand; a normal value has an exponent strictly between the two
    /// and a significand of exactly `prec` bits.
    pub open spec fn wf(self) -> bool {
        &&& self.prec > 0
        &&& match self.style {
            Style::NaN => self.exp == i64::MAX,
            Style::Infinity => self.exp == i64::MAX && self.signif == 0,
            Style::Zero => self.exp == i64::MIN && self.signif == 0,
            Style::Normal => i64::MIN < self.exp < i64::MAX && bit_length(self.signif)
                == self.prec,
        }
    }

    /// Whether the value is NaN.
    pub open spec fn is_nan(self) -> bool {
        self.style == Style::NaN
    }

    /// Whether the value is an infinity.
    pub open spec fn is_infinity(self) -> bool {
        self.style == Style::Infinity
    }

    /// Whether the value is a zero.
    pub open spec fn is_zero(self) -> bool {
        self.style == Style::Zero
    }

    /// Whether the value is normal: finite and not zero.
    pub open spec fn is_normal(self) -> bool {
        self.style == Style::Normal
    }

    /// The NaN of precision `p`.
    pub open spec fn nan(p: nat) -> FloatView {
        FloatView { prec: p, sign: Sign::Pos, exp: i64::MAX as int, signif: 0, style: Style::NaN }
    }

    /// The infinity of precision `p` and the given sign.
    pub open spec fn infinity(p: nat, sign: Sign) -> FloatView {
        FloatView { prec: p, sign, exp: i64::MAX as int, signif: 0, style: Style::Infinity }
    }

    /// The zero of precision `p` and the given sign.
    pub open spec fn zero(p: nat, sign: Sign) -> FloatView {
        FloatView { prec: p, sign, exp: i64::MIN as int, signif: 0, style: Style::Zero }
    }

    /// The largest finite value of precision `p`.
    pub open spec fn max(p: nat) -> FloatView {
        FloatView {
            prec: p,
            sign: Sign::Pos,
            exp: i64::MAX - 1,
            signif: (pow2(p) - 1) as nat,
            style: Style::Normal,
        }
    }

    /// The smallest positive value of precision `p`.
    pub open spec fn min_positive(p: nat) -> FloatView {
        FloatView {
            prec: p,
            sign: Sign::Pos,
            exp: i64::MIN + 1,
            signif: pow2((p - 1) as nat),
            style: Style::Normal,
        }
    }

    /// The same value with the given sign.
    pub open spec fn with_sign(self, sign: Sign) -> FloatView {
        FloatView { sign, ..self }
    }

    /// The normal value with the given parts, or what takes its place where
    /// the exponent is out of range: an infinity above, a zero below.
    pub open spec fn saturated(p: nat, sign: Sign, exp: int, signif: nat) -> FloatView {
        if exp >= i64::MAX {
            Self::infinity(p, sign)
        } else if exp <= i64::MIN {
            Self::zero(p, sign)
        } else {
            FloatView { prec: p, sign, exp, signif, style: Style::Normal }
        }
    }

    /// The float of precision `p` nearest to `(-1)^sign * n * 2^e`, for a
    /// positive `n`: rounded to nearest with ties to even, then held to the
    /// exponent range.
    pub open spec fn rounded(p: nat, sign: Sign, n: nat, e: int) -> FloatView
        recommends
            n > 0,
            p > 0,
    {
        let r = round_dyadic(n, e, p);
        Self::saturated(p, sign, r.exp, r.signif)
    }

    /// The same value with the opposite sign.
    pub open spec fn neg(self) -> FloatView {
        self.with_sign(self.sign.flip())
    }

    /// The same value with the positive sign.
    pub open spec fn abs(self) -> FloatView {
        self.with_sign(Sign::Pos)
    }

    /// The sign of the value; NaN has none.
    pub open spec fn sign_of(self) -> Option<Sign> {
        if self.is_nan() {
            None
        } else {
            Some(self.sign)
        }
    }

    /// The value at precision `p`: unchanged where `p` is no smaller than
    /// the value's own precision, and else rounded to the nearest value of
    /// `p` bits, ties to even. NaN, infinities and zeros only change their
    /// precision.
    pub open spec fn with_precision(self, p: nat) -> FloatView {
        if self.is_normal() {
            Self::rounded(p, self.sign, self.signif, self.exp - (self.prec - 1))
        } else {
            FloatView { prec: p, ..self }
        }
    }

    /// The value times `2^k`. Only a normal value changes: its exponent
    /// moves by `k`, and leaving the exponent range gives an infinity or a
    /// zero.
    pub open spec fn mul_exp2(self, k: int) -> FloatView {
        if self.is_normal() {
            Self::saturated(self.prec, self.sign, self.exp + k, self.signif)
        } else {
            self
        }
    }

    /// One unit in the last place further from zero. The step from a zero
    /// leads to the smallest value of the zero's sign; infinities and NaN
    /// stay as they are.
    pub open spec fn add_ulp(self) -> FloatView {
        match self.style {
            Style::NaN => self,
            Style::Infinity => self,
            Style::Zero => Self::min_positive(self.prec).with_sign(self.sign),
            Style::Normal => if self.signif + 1 == pow2(self.prec) {
                Self::saturated(self.prec, self.sign, self.exp + 1, pow2((self.prec - 1) as nat))
            } else {
                FloatView { signif: self.signif + 1, ..self }
            },
        }
    }

    /// One unit in the last place nearer to zero. The step from a zero
    /// crosses it, to the smallest value of the opposite sign; the step from
    /// an infinity leads to the largest finite value of its sign; NaN stays
    /// as it is.
    pub open spec fn sub_ulp(self) -> FloatView {
        match self.style {
            Style::NaN => self,
            Style::Infinity => Self::max(self.prec).with_sign(self.sign),
            Style::Zero => Self::min_positive(self.prec).with_sign(self.sign.flip()),
            Style::Normal => if self.signif == pow2((self.prec - 1) as nat) {
                Self::saturated(self.prec, self.sign, self.exp - 1, (pow2(self.prec) - 1) as nat)
            } else {
                FloatView { signif: (self.signif - 1) as nat, ..self }
            },
        }
    }

    /// The next value above.
    pub open spec fn next_above(self) -> FloatView {
        if self.sign == Sign::Pos {
            self.add_ulp()
        } else {
            self.sub_ulp()
        }
    }

    /// The next value below.
    pub open spec fn next_below(self) -> FloatView {
        if self.sign == Sign::Neg {
            self.add_ulp()
        } else {
            self.sub_ulp()
        }
    }

    /// Whether the two values can be ordered: neither is NaN.
    pub open spec fn comparable(self, other: FloatView) -> bool {
        !self.is_nan() && !other.is_nan()
    }

    /// Whether `self` is strictly below `other`, for two comparable values
    /// of one precision. Infinities lie beyond everything finite on their
    /// side; the two zeros are equal and lie between the negative and the
    /// positive normal values; normal values of one sign are ordered by
    /// exponent, then significand, and the other way round where negative.
    pub open spec fn below(self, other: FloatView) -> bool {
        match (self.style, other.style) {
            (Style::NaN, _) => false,
            (_, Style::NaN) => false,
            (Style::Infinity, Style::Infinity) => self.sign == Sign::Neg && other.sign
                == Sign::Pos,
            (Style::Infinity, _) => self.sign == Sign::Neg,
            (_, Style::Infinity) => other.sign == Sign::Pos,
            (Style::Zero, Style::Zero) => false,
            (Style::Normal, Style::Zero) => self.sign == Sign::Neg,
            (Style::Zero, Style::Normal) => other.sign == Sign::Pos,
            (Style::Normal, Style::Normal) => match (self.sign, other.sign) {
                (Sign::Neg, Sign::Pos) => true,
                (Sign::Pos, Sign::Neg) => false,
                (Sign::Pos, Sign::Pos) => self.exp < other.exp || (self.exp == other.exp
                    && self.signif < other.signif),
                (Sign::Neg, Sign::Neg) => other.exp < self.exp || (other.exp == self.exp
                    && other.signif < self.signif),
            },
        }
    }

    /// How `self` stands to `other`; `None` where either is NaN.
    pub open spec fn partial_cmp(self, other: FloatView) -> Option<Ordering> {
        if !self.comparable(other) {
            None
        } else if self.below(other) {
            Some(Ordering::Less)
        } else if other.below(self) {
            Some(Ordering::Greater)
        } else {
            Some(Ordering::Equal)
        }
    }

    /// Whether the two values are equal as numbers. NaN equals nothing, and
    /// the two zeros are equal.
    pub open spec fn eq(self, other: FloatView) -> bool {
        self.comparable(other) && !self.below(other) && !other.below(self)
    }

    /// One step from `self` towards `target`; `self` where the two are equal
    /// or cannot be ordered.
    pub open spec fn next_toward(self, target: FloatView) -> FloatView {
        if !self.comparable(target) {
            self
        } else if self.below(target) {
            self.next_above()
        } else if target.below(self) {
            self.next_below()
        } else {
            self
        }
    }

    /// For a normal value whose exponent is at least `low`: the integer `m`
    /// with `value == m * 2^(low - (prec - 1))`.
    pub open spec fn scaled(self, low: int) -> int
        recommends
            self.is_normal(),
            low <= self.exp,
    {
        let magnitude = self.signif * pow2((self.exp - low) as nat);
        if self.sign == Sign::Pos {
            magnitude as int
        } else {
            -(magnitude as int)
        }
    }

    /// The sum of two normal values of one precision: the exact sum, rounded
    /// to nearest with ties to even. An exact sum of zero is the positive
    /// zero.
    pub open spec fn add_normal(self, other: FloatView) -> FloatView
        recommends
            self.is_normal(),
            other.is_normal(),
            self.prec == other.prec,
    {
        let low = if self.exp <= other.exp {
            self.exp
        } else {
            other.exp
        };
        let sum = self.scaled(low) + other.scaled(low);
        if sum == 0 {
            Self::zero(self.prec, Sign::Pos)
        } else if sum > 0 {
            Self::rounded(self.prec, Sign::Pos, sum as nat, low - (self.prec - 1))
        } else {
            Self::rounded(self.prec, Sign::Neg, (-sum) as nat, low - (self.prec - 1))
        }
    }

    /// The sum of two values of one precision. NaN gives NaN, as do two
    /// infinities of opposite sign; an infinity absorbs anything finite; two
    /// zeros give the positive zero unless both are negative; a zero added
    /// to a normal value leaves it as it is.
    pub open spec fn add(self, other: FloatView) -> FloatView
        recommends
            self.prec == other.prec,
    {
        let p = self.prec;
        match (self.style, other.style) {
            (Style::NaN, _) => Self::nan(p),
            (_, Style::NaN) => Self::nan(p),
            (Style::Infinity, Style::Infinity) => if self.sign == other.sign {
                Self::infinity(p, self.sign)
            } else {
                Self::nan(p)
            },
            (Style::Infinity, _) => Self::infinity(p, self.sign),
            (_, Style::Infinity) => Self::infinity(p, other.sign),
            (Style::Zero, Style::Zero) => if self.sign == Sign::Neg && other.sign == Sign::Neg {
                Self::zero(p, Sign::Neg)
            } else {
                Self::zero(p, Sign::Pos)
            },
            (Style::Zero, Style::Normal) => other,
            (Style::Normal, Style::Zero) => self,
            (Style::Normal, Style::Normal) => self.add_normal(other),
        }
    }

    /// The difference of two values of one precision: the sum of the first
    /// and the negative of the second.
    pub open spec fn sub(self, other: FloatView) -> FloatView
        recommends
            self.prec == other.prec,
    {
        self.add(other.neg())
    }

    /// The product of two values of one precision. NaN gives NaN, as does a
    /// zero times an infinity; otherwise the sign is positive exactly when
    /// the operands' signs agree, an infinity gives an infinity, a zero a
    /// zero, and two normal values give their exact product rounded to
    /// nearest with ties to even.
    pub open spec fn mul(self, other: FloatView) -> FloatView
        recommends
            self.prec == other.prec,
    {
        let p = self.prec;
        let sign = self.sign.xor(other.sign);
        match (self.style, other.style) {
            (Style::NaN, _) => Self::nan(p),
            (_, Style::NaN) => Self::nan(p),
            (Style::Infinity, Style::Zero) => Self::nan(p),
            (Style::Zero, Style::Infinity) => Self::nan(p),
            (Style::Infinity, _) => Self::infinity(p, sign),
            (_, Style::Infinity) => Self::infinity(p, sign),
            (Style::Zero, _) => Self::zero(p, sign),
            (_, Style::Zero) => Self::zero(p, sign),
            (Style::Normal, Style::Normal) => Self::rounded(
                p,
                sign,
                self.signif * other.signif,
                self.exp + other.exp - 2 * (p - 1),
            ),
        }
    }

    /// The quotient of two normal values of one precision. The ratio of the
    /// significands lies between a half and two; it is scaled by the power
    /// of two that brings it to `prec` bits before the point and rounded to
    /// the nearest integer, ties to even. The exponent is the difference of
    /// the exponents, less one where the ratio is below one.
    pub open spec fn div_normal(self, other: FloatView) -> FloatView
        recommends
            self.is_normal(),
            other.is_normal(),
            self.prec == other.prec,
    {
        let p = self.prec;
        let down: nat = if self.signif < other.signif {
            1
        } else {
            0
        };
        Self::saturated(
            p,
            self.sign.xor(other.sign),
            self.exp - other.exp - down,
            round_div(self.signif * pow2((p - 1 + down) as nat), other.signif),
        )
    }

    /// The quotient of two values of one precision. NaN gives NaN, as do a
    /// zero by a zero and an infinity by an infinity. A zero divided by
    /// anything else is a zero, and anything else divided by a zero is an
    /// infinity, of the sign that is positive exactly when the operands'
    /// signs agree; so is an infinity divided by a normal value. A normal
    /// value divided by an infinity is the zero of the infinity's sign.
    pub open spec fn div(self, other: FloatView) -> FloatView
        recommends
            self.prec == other.prec,
    {
        let p = self.prec;
        let sign = self.sign.xor(other.sign);
        match (self.style, other.style) {
            (Style::NaN, _) => Self::nan(p),
            (_, Style::NaN) => Self::nan(p),
            (Style::Zero, Style::Zero) => Self::nan(p),
            (Style::Zero, _) => Self::zero(p, sign),
            (_, Style::Zero) => Self::infinity(p, sign),
            (Style::Infinity, Style::Infinity) => Self::nan(p),
            (Style::Normal, Style::Infinity) => Self::zero(p, other.sign),
            (Style::Infinity, Style::Normal) => Self::infinity(p, sign),
            (Style::Normal, Style::Normal) => self.div_normal(other),
        }
    }

    /// The square root. NaN, the negative infinity and negative normal
    /// values give NaN; the positive infinity and the zeros give themselves.
    /// For a positive normal value the exponent is halved, rounding down,
    /// and the significand is the integer nearest to the real square root of
    /// the significand scaled to twice the precision.
    pub open spec fn sqrt(self) -> FloatView {
        let p = self.prec;
        match self.style {
            Style::NaN => Self::nan(p),
            Style::Infinity => if self.sign == Sign::Pos {
                Self::infinity(p, Sign::Pos)
            } else {
                Self::nan(p)
            },
            Style::Zero => Self::zero(p, self.sign),
            Style::Normal => if self.sign == Sign::Neg {
                Self::nan(p)
            } else {
                let odd = self.exp % 2;
                FloatView {
                    prec: p,
                    sign: Sign::Pos,
                    exp: (self.exp - odd) / 2,
                    signif: round_sqrt(self.signif * pow2((p - 1 + odd) as nat)),
                    style: Style::Normal,
                }
            },
        }
    }

    /// The float that holds the integer `v` exactly, at the precision that
    /// the integer needs: its bit length. Zero becomes the positive zero of
    /// precision one.
    pub open spec fn from_int(v: int) -> FloatView {
        let magnitude: nat = if v < 0 {
            (-v) as nat
        } else {
            v as nat
        };
        if v == 0 {
            Self::zero(1, Sign::Pos)
        } else {
            FloatView {
                prec: bit_length(magnitude),
                sign: if v < 0 {
                    Sign::Neg
                } else {
                    Sign::Pos
                },
                exp: bit_length(magnitude) - 1,
                signif: magnitude,
                style: Style::Normal,
            }
        }
    }

    /// The largest exponent of an interchange format whose exponent field
    /// has `exp_width` bits; it marks infinities and NaN.
    pub open spec fn ieee754_max_exp(exp_width: nat) -> int {
        pow2((exp_width - 1) as nat) as int
    }

    /// The smallest exponent of such a format; it marks zeros.
    pub open spec fn ieee754_min_exp(exp_width: nat) -> int {
        1 - pow2((exp_width - 1) as nat)
    }

    /// The float that the fields of an interchange format stand for: a sign,
    /// an unbiased exponent, and the significand without its leading bit.
    /// The smallest exponent with an empty significand is a zero, the
    /// largest an infinity, or NaN where the significand is not empty;
    /// every other exponent gives a normal value of `prec` bits.
    pub open spec fn from_ieee754(
        prec: nat,
        exp_width: nat,
        is_negative: bool,
        exp: int,
        signif: nat,
    ) -> FloatView {
        let sign = if is_negative {
            Sign::Neg
        } else {
            Sign::Pos
        };
        if exp == Self::ieee754_min_exp(exp_width) {
            Self::zero(prec, sign)
        } else if exp == Self::ieee754_max_exp(exp_width) {
            if signif == 0 {
                Self::infinity(prec, sign)
            } else {
                Self::nan(prec)
            }
        } else {
            FloatView {
                prec,
                sign,
                exp,
                signif: signif + pow2((prec - 1) as nat),
                style: Style::Normal,
            }
        }
    }

    /// The fields of an interchange format that stand for this value, which
    /// has the format's precision: whether it is negative, the unbiased
    /// exponent, and the significand without its leading bit. NaN is given
    /// as positive, with the top bit of the significand field set; a normal
    /// value whose exponent the format cannot hold becomes an infinity or a
    /// zero.
    pub open spec fn to_ieee754(self, exp_width: nat) -> (bool, int, nat) {
        let negative = self.sign == Sign::Neg;
        let max = Self::ieee754_max_exp(exp_width);
        let min = Self::ieee754_min_exp(exp_width);
        match self.style {
            Style::NaN => (false, max, pow2((self.prec - 2) as nat)),
            Style::Infinity => (negative, max, 0nat),
            Style::Zero => (negative, min, 0nat),
            Style::Normal => if self.exp >= max {
                (negative, max, 0nat)
            } else if self.exp <= min {
                (negative, min, 0nat)
            } else {
                (negative, self.exp, (self.signif - pow2((self.prec - 1) as nat)) as nat)
            },
        }
    }

    /// The float that holds a signed machine integer exactly.
    pub open spec fn from_i64(v: i64) -> FloatView {
        Self::from_int(v as int)
    }

    /// The float that holds an unsigned machine integer exactly.
    pub open spec fn from_u64(v: u64) -> FloatView {
        Self::from_int(v as int)
    }

    /// Whether a normal value lies exactly half way between two neighbouring
    /// values of the lower precision `p`: below its leading `p` bits the
    /// significand holds a one followed by zeros only.
    pub open spec fn is_halfway(self, p: nat) -> bool
        recommends
            p < self.prec,
    {
        self.is_normal() && self.signif % pow2((self.prec - p) as nat) == pow2(
            (self.prec - p - 1) as nat,
        )
    }

    /// Whether `self` is `other` or one of the two values next to it.
    pub open spec fn is_neighbour_of(self, other: FloatView) -> bool {
        self == other || self == other.add_ulp() || self == other.sub_ulp()
    }

    /// Whether `self` lies within one unit in the last place of `other`:
    /// not below the next value below it and not above the next value above
    /// it.
    pub open spec fn within_one_ulp(self, other: FloatView) -> bool {
        &&& self.comparable(other)
        &&& !self.below(other.next_below())
        &&& !other.next_above().below(self)
    }
}

} // verus!
