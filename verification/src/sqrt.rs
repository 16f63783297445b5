//! Square root.

use vstd::prelude::*;
use vstd::arithmetic::power2::{
    pow2,
    lemma_pow2_pos,
    lemma_pow2_unfold,
    lemma_pow2_adds,
    lemma2_to64,
};
use crate::big::{nat_of, big_add, big_bits, big_from_u64, big_mul, big_shl, big_sqrt, big_sub};
use crate::bits::{
    bit_length,
    lemma_bit_length_bounds,
    lemma_bit_length_positive,
    lemma_bit_length_unique,
};
use crate::float::Float;
use crate::model::Style;
use crate::rounding::{
    floor_sqrt,
    round_div,
    round_sqrt,
    lemma_div_mod_of,
    lemma_floor_sqrt_times_four,
    lemma_floor_sqrt_unique,
    lemma_round_sqrt_bits,
};
use crate::sign::Sign;

verus! {

/// A significand of `p` bits, scaled by `2^(p-1)` or `2^p`, lies in the range
/// whose rounded square roots have `p` bits.
pub proof fn lemma_sqrt_range(m: nat, p: nat, odd: nat)
    requires
        p > 0,
        bit_length(m) == p,
        odd <= 1,
    ensures
        pow2((p - 1) as nat) * pow2((p - 1) as nat) <= m * pow2((p - 1 + odd) as nat) <= (pow2(p)
            - 1) * pow2(p),
{
    lemma_bit_length_positive(m);
    lemma_bit_length_bounds(m);
    let low = pow2((p - 1) as nat);
    let top = pow2(p);
    let scale = pow2((p - 1 + odd) as nat);
    lemma_pow2_pos((p - 1) as nat);
    lemma_pow2_unfold(p);
    assert(low <= scale <= top);
    assert(low * low <= m * scale <= (top - 1) * top) by (nonlinear_arith)
        requires
            0 < low <= scale,
            scale <= top,
            low <= m,
            m <= top - 1,
    ;
}

impl Float {
    /// The square root, correctly rounded.
    ///
    /// For a positive normal value the significand is shifted up by one bit
    /// more than the precision, and by one more where the exponent is odd;
    /// the integer square root of that holds the significand of the result
    /// and one bit below it, and its remainder says whether anything lies
    /// below that.
    pub fn sqrt(self) -> (r: Float)
        requires
            self@.wf(),
        ensures
            r@ == self@.sqrt(),
            r@.wf(),
            r@.prec == self@.prec,
    {
        let prec = self.prec;
        match self.style {
            Style::NaN => Float::nan(prec),
            Style::Infinity => {
                match self.sign {
                    Sign::Pos => Float::inf(prec, Sign::Pos),
                    Sign::Neg => Float::nan(prec),
                }
            },
            Style::Zero => Float::zero_(prec, self.sign),
            Style::Normal => {
                if self.sign == Sign::Neg {
                    return Float::nan(prec);
                }
                // Lifted above zero, the exponent keeps its parity.
                let lifted: u64 = (self.exp as i128 + 0x8000_0000_0000_0000) as u64;
                let c: u64 = lifted % 2;
                let exp: i128 = ((lifted - c) / 2) as i128 - 0x4000_0000_0000_0000;
                let shift: u64 = prec as u64 + 1 + c;
                let radicand = big_shl(&self.signif, shift);
                let root = big_sqrt(&radicand);
                let square = big_mul(&root, &root);
                let rest = big_sub(&radicand, &square);
                let bits = big_bits(&root);
                let inexact = big_bits(&rest) != 0;
                let doubled = big_shl(&root, 1);
                let one = big_from_u64(1);
                let marked = if inexact {
                    big_add(&doubled, &one)
                } else {
                    doubled
                };
                proof {
                    let p = prec as nat;
                    let m = nat_of(self.signif);
                    let odd = c as nat;
                    let x = m * pow2((p - 1 + odd) as nat);
                    lemma2_to64();
                    lemma_pow2_adds((p - 1 + odd) as nat, 2);
                    assert(nat_of(radicand) == 4 * x) by (nonlinear_arith)
                        requires
                            nat_of(radicand) == m * pow2((p + 1 + odd) as nat),
                            pow2((p + 1 + odd) as nat) == pow2((p - 1 + odd) as nat) * 4,
                            x == m * pow2((p - 1 + odd) as nat),
                    ;
                    lemma_sqrt_range(m, p, odd);
                    lemma_round_sqrt_bits(x, p);
                    lemma_floor_sqrt_times_four(x);
                    lemma_floor_sqrt_unique(4 * x, nat_of(root));
                    let f = floor_sqrt(x);
                    let g = nat_of(root);
                    lemma_pow2_unfold(p);
                    lemma_pow2_unfold(p + 1);
                    lemma_pow2_unfold(p + 2);
                    lemma_bit_length_unique(g, p + 1);
                    assert(bit_length(0) == 0);
                    if nat_of(rest) > 0 {
                        lemma_bit_length_bounds(nat_of(rest));
                    }
                    let sticky: nat = if inexact {
                        1
                    } else {
                        0
                    };
                    assert(nat_of(marked) == 2 * g + sticky);
                    lemma_bit_length_unique(nat_of(marked), p + 2);
                    let low = (2 * (g - 2 * f) + sticky) as nat;
                    lemma_div_mod_of(nat_of(marked) as int, 4, f as int, low as int);
                    assert(round_div(nat_of(marked), 4) == round_sqrt(x));
                    assert(self.exp % 2 == odd);
                    assert((self.exp - odd) / 2 == exp);
                }
                Float::rounded(prec, Sign::Pos, &marked, exp - bits as i128)
            },
        }
    }
}

} // verus!
