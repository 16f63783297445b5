//! Conversions: from integers, and from and to the fields of the binary
//! interchange formats.

use vstd::prelude::*;
use vstd::arithmetic::power2::{
    pow2,
    lemma_pow2_pos,
    lemma_pow2_unfold,
    lemma2_to64,
    lemma2_to64_rest,
};
use vstd::bits::{lemma_u64_pow2_no_overflow, lemma_u64_shl_is_mul};
use num_bigint::BigInt;
use num_bigint::BigUint;
use crate::big::{int_of, nat_of, big_bits, big_from_u64, big_into_parts, big_to_u64};
use crate::bits::{
    bit_length,
    lemma_bit_length_below,
    lemma_bit_length_bounds,
    lemma_bit_length_positive,
    lemma_bit_length_unique,
    lemma_pow2_increases,
};
use crate::float::Float;
use crate::model::{FloatView, Style};
use crate::sign::Sign;

verus! {

/// `2^k` as a machine integer.
pub fn pow2_u64(k: u32) -> (r: u64)
    requires
        k < 64,
    ensures
        r == pow2(k as nat),
{
    proof {
        lemma_u64_pow2_no_overflow(k as nat);
        lemma_u64_shl_is_mul(1, k as u64);
    }
    1u64 << (k as u64)
}

impl Float {
    /// The float of the given sign whose magnitude is the given integer,
    /// held exactly.
    pub(crate) fn from_parts(negative: bool, magnitude: BigUint) -> (r: Float)
        requires
            bit_length(nat_of(magnitude)) <= u32::MAX,
        ensures
            r@ == FloatView::from_int(
                if negative {
                    -(nat_of(magnitude) as int)
                } else {
                    nat_of(magnitude) as int
                },
            ),
            r@.wf(),
    {
        let bits = big_bits(&magnitude);
        proof {
            assert(bit_length(0) == 0);
            if nat_of(magnitude) > 0 {
                lemma_bit_length_bounds(nat_of(magnitude));
            }
        }
        if bits == 0 {
            Float::zero(1)
        } else {
            let sign = if negative {
                Sign::Neg
            } else {
                Sign::Pos
            };
            Float {
                prec: bits as u32,
                sign,
                exp: bits as i64 - 1,
                signif: magnitude,
                style: Style::Normal,
            }
        }
    }

    /// The float that holds a big integer exactly, at the precision that
    /// the integer needs. The integer must have no more bits than a
    /// precision can count.
    pub fn from(x: BigInt) -> (r: Float)
        requires
            bit_length(
                (if int_of(x) < 0 {
                    -int_of(x)
                } else {
                    int_of(x)
                }) as nat,
            ) <= u32::MAX,
        ensures
            r@ == FloatView::from_int(int_of(x)),
            r@.wf(),
    {
        let (negative, magnitude) = big_into_parts(x);
        Float::from_parts(negative, magnitude)
    }

    /// The float that holds a big integer exactly, or `None` where the
    /// integer has more bits than a precision can count.
    pub fn checked_from(x: BigInt) -> (r: Option<Float>)
        ensures
            ({
                let magnitude = (if int_of(x) < 0 {
                    -int_of(x)
                } else {
                    int_of(x)
                }) as nat;
                match r {
                    Some(f) => bit_length(magnitude) <= u32::MAX && f@ == FloatView::from_int(
                        int_of(x),
                    ) && f@.wf(),
                    None => bit_length(magnitude) > u32::MAX,
                }
            }),
    {
        let (negative, magnitude) = big_into_parts(x);
        if big_bits(&magnitude) <= u32::MAX as u64 {
            Some(Float::from_parts(negative, magnitude))
        } else {
            None
        }
    }

    /// The float that holds an unsigned machine integer exactly.
    pub fn from_u64(x: u64) -> (r: Float)
        ensures
            r@ == FloatView::from_int(x as int),
            r@.wf(),
    {
        let magnitude = big_from_u64(x);
        proof {
            lemma2_to64();
            lemma_bit_length_below(x as nat, 64);
        }
        Float::from_parts(false, magnitude)
    }

    /// The float that holds a signed machine integer exactly.
    pub fn from_i64(x: i64) -> (r: Float)
        ensures
            r@ == FloatView::from_int(x as int),
            r@.wf(),
    {
        let negative = x < 0;
        let size: u64 = if negative {
            (-(x as i128)) as u64
        } else {
            x as u64
        };
        let magnitude = big_from_u64(size);
        proof {
            lemma2_to64();
            lemma_bit_length_below(size as nat, 64);
        }
        Float::from_parts(negative, magnitude)
    }

    /// The float that the fields of a binary interchange format stand for:
    /// `prec` is the precision of the format, the hidden bit included,
    /// `exp_width` the width of its exponent field, `exp` the unbiased
    /// exponent and `signif` the significand field. Subnormal numbers have
    /// no counterpart here and are excluded.
    pub fn from_ieee754(prec: u32, exp_width: u32, is_negative: bool, exp: i64, signif: u64) -> (r:
        Float)
        requires
            0 < prec < 64,
            0 < exp_width < 64,
            signif < pow2((prec - 1) as nat),
            FloatView::ieee754_min_exp(exp_width as nat) <= exp <= FloatView::ieee754_max_exp(
                exp_width as nat,
            ),
            exp == FloatView::ieee754_min_exp(exp_width as nat) ==> signif == 0,
        ensures
            r@ == FloatView::from_ieee754(
                prec as nat,
                exp_width as nat,
                is_negative,
                exp as int,
                signif as nat,
            ),
            r@.wf(),
            r@.prec == prec,
    {
        let sign = if is_negative {
            Sign::Neg
        } else {
            Sign::Pos
        };
        proof {
            lemma2_to64_rest();
            lemma_pow2_increases((exp_width - 1) as nat, 62);
        }
        let max: i64 = pow2_u64(exp_width - 1) as i64;
        let min: i64 = 1 - max;
        if exp == min {
            Float::zero_(prec, sign)
        } else if exp == max {
            if signif == 0 {
                Float::inf(prec, sign)
            } else {
                Float::nan(prec)
            }
        } else {
            proof {
                lemma_pow2_unfold(prec as nat);
                lemma_pow2_increases(prec as nat, 63);
                lemma_bit_length_unique((signif + pow2((prec - 1) as nat)) as nat, prec as nat);
            }
            let hidden = pow2_u64(prec - 1);
            Float {
                prec,
                sign,
                exp,
                signif: big_from_u64(signif + hidden),
                style: Style::Normal,
            }
        }
    }

    /// The fields of a binary interchange format that stand for this float
    /// once it is rounded to the format's precision: whether it is
    /// negative, the unbiased exponent, and the significand field.
    pub fn to_ieee754(self, prec: u32, exp_width: u32) -> (r: (bool, i64, u64))
        requires
            self@.wf(),
            1 < prec < 64,
            0 < exp_width < 64,
        ensures
            ({
                let fields = self@.with_precision(prec as nat).to_ieee754(exp_width as nat);
                r.0 == fields.0 && r.1 == fields.1 && r.2 == fields.2
            }),
            r.2 < pow2((prec - 1) as nat),
            FloatView::ieee754_min_exp(exp_width as nat) <= r.1 <= FloatView::ieee754_max_exp(
                exp_width as nat,
            ),
    {
        let f = self.with_precision(prec);
        proof {
            lemma2_to64_rest();
            lemma_pow2_increases((exp_width - 1) as nat, 62);
            lemma_pow2_pos((exp_width - 1) as nat);
            lemma_pow2_pos((prec - 1) as nat);
            lemma_pow2_unfold((prec - 1) as nat);
            lemma_pow2_pos((prec - 2) as nat);
        }
        let max: i64 = pow2_u64(exp_width - 1) as i64;
        let min: i64 = 1 - max;
        let negative = f.sign == Sign::Neg;
        match f.style {
            Style::NaN => (false, max, pow2_u64(prec - 2)),
            Style::Infinity => (negative, max, 0),
            Style::Zero => (negative, min, 0),
            Style::Normal => {
                if f.exp >= max {
                    (negative, max, 0)
                } else if f.exp <= min {
                    (negative, min, 0)
                } else {
                    proof {
                        lemma_bit_length_positive(nat_of(f.signif));
                        lemma_bit_length_bounds(nat_of(f.signif));
                        lemma_pow2_unfold(prec as nat);
                        lemma_pow2_increases(prec as nat, 63);
                    }
                    let hidden = pow2_u64(prec - 1);
                    match big_to_u64(&f.signif) {
                        Some(raw) => (negative, f.exp, raw - hidden),
                        // Not taken: a significand of fewer than 64 bits fits.
                        None => (negative, f.exp, 0),
                    }
                }
            },
        }
    }
}

} // verus!
