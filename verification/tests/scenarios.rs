// Worked examples: special values, rounding, saturation, the steps between
// neighbouring values, comparison and conversion.

use float::addsub::{
    can_use_unsigned_add, can_use_unsigned_op, can_use_unsigned_sub, unsigned_add, unsigned_sub,
};
use float::{add_overflow, sub_overflow, Float, Operation, Sign};
use num_bigint::{BigInt, BigUint};
use std::cmp::Ordering;

// The float `m * 2^e` at precision `p`, for an `m` of at most `p` bits.
fn make(p: u32, m: i64, e: i64) -> Float {
    Float::from_i64(m).with_precision(p).mul_exp2(e)
}

fn shown(f: &Float) -> String {
    f.debug_string()
}

#[test]
fn sign_negation_and_product() {
    assert_eq!(Sign::Pos.neg(), Sign::Neg);
    assert_eq!(Sign::Neg.neg(), Sign::Pos);
    assert_eq!(Sign::Pos.bitxor(Sign::Pos), Sign::Pos);
    assert_eq!(Sign::Pos.bitxor(Sign::Neg), Sign::Neg);
    assert_eq!(Sign::Neg.bitxor(Sign::Pos), Sign::Neg);
    assert_eq!(Sign::Neg.bitxor(Sign::Neg), Sign::Pos);
    assert_eq!(Sign::Pos.symbol(), '+');
    assert_eq!(Sign::Neg.symbol(), '-');
}

#[test]
fn overflow_reporting_sums() {
    assert_eq!(add_overflow(1, 2), (3, false));
    assert_eq!(add_overflow(i64::MAX, 1), (i64::MIN, true));
    assert_eq!(add_overflow(i64::MIN, -1), (i64::MAX, true));
    assert_eq!(add_overflow(i64::MAX, i64::MAX), (-2, true));
    assert_eq!(add_overflow(i64::MIN, i64::MIN), (0, true));
    assert_eq!(add_overflow(i64::MAX, i64::MIN), (-1, false));
    assert_eq!(sub_overflow(3, 5), (-2, false));
    assert_eq!(sub_overflow(i64::MIN, 1), (i64::MAX, true));
    assert_eq!(sub_overflow(i64::MAX, -1), (i64::MIN, true));
    assert_eq!(sub_overflow(0, i64::MIN), (i64::MIN, true));
    assert_eq!(sub_overflow(-1, i64::MIN), (i64::MAX, false));
}

#[test]
fn constructors() {
    assert_eq!(shown(&Float::zero(5)), "+0.0");
    assert_eq!(shown(&Float::neg_zero(5)), "-0.0");
    assert_eq!(shown(&Float::infinity(5)), "+inf");
    assert_eq!(shown(&Float::neg_infinity(5)), "-inf");
    assert_eq!(shown(&Float::nan(5)), "NaN");
    assert_eq!(shown(&Float::max(5)), format!("+11111 * 2^({})", i64::MAX as i128 - 1 - 4));
    assert_eq!(shown(&Float::min(5)), format!("-11111 * 2^({})", i64::MAX as i128 - 1 - 4));
    assert_eq!(
        shown(&Float::min_positive(5)),
        format!("+10000 * 2^({})", i64::MIN as i128 + 1 - 4)
    );
    assert_eq!(shown(&Float::max(1)), format!("+1 * 2^({})", i64::MAX - 1));
    assert_eq!(shown(&Float::min_positive(1)), format!("+1 * 2^({})", i64::MIN + 1));
    assert_eq!(Float::zero(7).precision(), 7);
    assert_eq!(Float::max(64).precision(), 64);
    assert_eq!(Float::zero(5).sign(), Some(Sign::Pos));
    assert_eq!(Float::neg_zero(5).sign(), Some(Sign::Neg));
    assert_eq!(Float::neg_infinity(5).sign(), Some(Sign::Neg));
    assert_eq!(Float::nan(5).sign(), None);
    assert_eq!(Float::min(5).sign(), Some(Sign::Neg));
}

#[test]
fn readable_form_of_normal_values() {
    assert_eq!(shown(&make(5, 1, 0)), "+10000 * 2^(-4)");
    assert_eq!(shown(&make(5, -3, 2)), "-11000 * 2^(-1)");
    assert_eq!(shown(&make(3, 5, 10)), "+101 * 2^(10)");
    assert_eq!(shown(&Float::from_u64(10)), "+1010 * 2^(0)");
}

#[test]
fn exact_add() {
    let two = make(5, 1, 0).add(&make(5, 1, 0));
    assert_eq!(shown(&two), "+10000 * 2^(-3)");
    assert!(two.eq(&make(5, 2, 0)));
}

#[test]
fn round_half_to_even_up() {
    // (1 + 2^-5) + 2^-6 lies half way between two values of six bits; the
    // lower one is odd, so the tie goes up.
    let a = make(6, 0b100001, -5);
    let b = make(6, 1, -6);
    let sum = a.add(&b);
    assert_eq!(shown(&sum), "+100010 * 2^(-5)");
    // The exact sum, reduced to five bits, lies above the half-way point.
    let exact = make(7, 0b100001, -5).add(&make(7, 1, -6));
    assert_eq!(shown(&exact), "+1000011 * 2^(-6)");
    assert_eq!(shown(&exact.with_precision(5)), "+10001 * 2^(-4)");
}

#[test]
fn round_half_to_even_down() {
    // 1 + 2^-5 at five bits: half way, the lower value is even.
    let sum = make(5, 1, 0).add(&make(5, 1, -5));
    assert_eq!(shown(&sum), "+10000 * 2^(-4)");
    // (1 + 2^-4) + 2^-5: half way, the lower value is odd.
    let sum = make(5, 0b10001, -4).add(&make(5, 1, -5));
    assert_eq!(shown(&sum), "+10010 * 2^(-4)");
    // A little more than half rounds up, a little less rounds down.
    let sum = make(5, 1, 0).add(&make(5, 0b10001, -9));
    assert_eq!(shown(&sum), "+10001 * 2^(-4)");
    let sum = make(5, 1, 0).add(&make(5, 0b11111, -10));
    assert_eq!(shown(&sum), "+10000 * 2^(-4)");
}

#[test]
fn cancellation() {
    let d = make(5, 1, 0).sub(&make(5, 0b11110, -5));
    assert_eq!(shown(&d), "+10000 * 2^(-8)");
    assert!(d.eq(&make(5, 1, -4)));
    let zero = make(5, 7, 3).sub(&make(5, 7, 3));
    assert_eq!(shown(&zero), "+0.0");
    let zero = make(5, -7, 3).add(&make(5, 7, 3));
    assert_eq!(shown(&zero), "+0.0");
    let neg = make(5, 0b11110, -5).sub(&make(5, 1, 0));
    assert_eq!(shown(&neg), "-10000 * 2^(-8)");
}

#[test]
fn far_apart_operands() {
    let big = make(5, 0b10000, 40);
    let small = make(5, 0b11111, 0);
    assert_eq!(shown(&big.clone().add(&small)), shown(&big));
    assert_eq!(shown(&big.clone().sub(&small)), shown(&big));
    assert_eq!(shown(&small.clone().add(&big)), shown(&big));
    assert_eq!(shown(&small.clone().sub(&big)), shown(&big.clone().neg()));
    // Every distance up to and beyond the last that is summed exactly: the
    // result is the exact result, rounded once.
    for gap in 0..12 {
        for mb in 16..32 {
            for ms in 16..32 {
                let big = make(5, mb, gap);
                let small = make(5, ms, 0);
                let wide_big = make(64, mb, gap);
                let wide_small = make(64, ms, 0);
                let sum = big.clone().add(&small);
                let exact_sum = wide_big.clone().add(&wide_small).with_precision(5);
                assert_eq!(shown(&sum), shown(&exact_sum));
                let difference = big.clone().sub(&small);
                let exact_difference = wide_big.sub(&wide_small).with_precision(5);
                assert_eq!(shown(&difference), shown(&exact_difference));
                let reverse = small.sub(&big);
                assert!(reverse.eq(&difference.clone().neg()));
                if shown(&difference) == "+0.0" {
                    assert_eq!(shown(&reverse), "+0.0");
                }
            }
        }
    }
    // Just above and just below the point half way to the next value down.
    let big = make(5, 0b10000, 10);
    assert_eq!(shown(&big.clone().sub(&make(5, 0b10001, 4))), shown(&big.clone().next_below()));
    assert_eq!(shown(&big.clone().sub(&make(5, 0b11110, 3))), shown(&big));
}

#[test]
fn sums_and_differences_of_magnitudes() {
    let small = make(5, 0b10001, 0);
    let big = make(5, 0b10100, 3);
    let neg_big = big.clone().neg();
    assert!(can_use_unsigned_add(&small, &big, Operation::Add));
    assert!(!can_use_unsigned_add(&big, &small, Operation::Add));
    assert!(!can_use_unsigned_add(&small, &neg_big, Operation::Add));
    assert!(can_use_unsigned_add(&small, &neg_big, Operation::Sub));
    assert!(can_use_unsigned_sub(&big, &small, Operation::Sub));
    assert!(!can_use_unsigned_sub(&small, &big, Operation::Sub));
    assert!(can_use_unsigned_sub(&neg_big, &small, Operation::Add));
    assert!(!can_use_unsigned_sub(&big, &small, Operation::Add));
    assert!(can_use_unsigned_op(&small, &big, Operation::Add));
    assert!(can_use_unsigned_op(&big, &small, Operation::Sub));
    assert!(!can_use_unsigned_op(&big, &small, Operation::Add));
    assert!(can_use_unsigned_op(&small, &small, Operation::Add));
    assert!(can_use_unsigned_op(&small, &small, Operation::Sub));
    assert_eq!(Operation::Add.apply(Sign::Neg), Sign::Neg);
    assert_eq!(Operation::Sub.apply(Sign::Neg), Sign::Pos);
    // 17 + 160 = 177, which five bits hold as 176.
    assert_eq!(shown(&unsigned_add(&small, &big, Sign::Pos)), "+10110 * 2^(3)");
    assert_eq!(shown(&unsigned_add(&small, &big, Sign::Neg)), "-10110 * 2^(3)");
    // 160 - 17 = 143, which five bits hold as 144.
    assert_eq!(shown(&unsigned_sub(&big, &small, Sign::Pos)), "+10010 * 2^(3)");
    assert_eq!(shown(&unsigned_sub(&big, &small, Sign::Neg)), "-10010 * 2^(3)");
    assert_eq!(shown(&unsigned_sub(&small, &small, Sign::Neg)), "+0.0");
    // Equal exponents, the second operand the larger: the sign turns.
    let more = make(5, 0b10011, 0);
    assert_eq!(shown(&unsigned_sub(&small, &more, Sign::Pos)), "-10000 * 2^(-3)");
}

#[test]
fn zero_plus_zero() {
    assert_eq!(shown(&Float::neg_zero(5).add(&Float::neg_zero(5))), "-0.0");
    assert_eq!(shown(&Float::neg_zero(5).add(&Float::zero(5))), "+0.0");
    assert_eq!(shown(&Float::zero(5).add(&Float::neg_zero(5))), "+0.0");
    assert_eq!(shown(&Float::zero(5).add(&Float::zero(5))), "+0.0");
    assert_eq!(shown(&Float::zero(5).sub(&Float::zero(5))), "+0.0");
    assert_eq!(shown(&Float::neg_zero(5).sub(&Float::zero(5))), "-0.0");
    assert_eq!(shown(&Float::zero(5).add(&make(5, -3, 0))), shown(&make(5, -3, 0)));
    assert_eq!(shown(&Float::zero(5).sub(&make(5, -3, 0))), shown(&make(5, 3, 0)));
    assert_eq!(shown(&make(5, -3, 0).add(&Float::neg_zero(5))), shown(&make(5, -3, 0)));
}

#[test]
fn inf_arithmetic() {
    assert_eq!(shown(&Float::infinity(5).add(&Float::neg_infinity(5))), "NaN");
    assert_eq!(shown(&Float::infinity(5).sub(&Float::infinity(5))), "NaN");
    assert_eq!(shown(&Float::infinity(5).add(&Float::infinity(5))), "+inf");
    assert_eq!(shown(&Float::neg_infinity(5).sub(&Float::infinity(5))), "-inf");
    assert_eq!(shown(&Float::infinity(5).add(&make(5, -3, 0))), "+inf");
    assert_eq!(shown(&make(5, 3, 0).add(&Float::neg_infinity(5))), "-inf");
    assert_eq!(shown(&make(5, 3, 0).sub(&Float::neg_infinity(5))), "+inf");
    assert_eq!(shown(&Float::zero(5).add(&Float::neg_infinity(5))), "-inf");
    assert_eq!(shown(&Float::infinity(5).mul(&make(5, -3, 0))), "-inf");
    assert_eq!(shown(&Float::neg_infinity(5).mul(&Float::neg_infinity(5))), "+inf");
    assert_eq!(shown(&Float::infinity(5).div(&Float::infinity(5))), "NaN");
    assert_eq!(shown(&Float::infinity(5).div(&make(5, -3, 0))), "-inf");
    assert_eq!(shown(&Float::infinity(5).div(&Float::neg_zero(5))), "-inf");
    assert_eq!(shown(&make(5, 3, 0).div(&Float::neg_infinity(5))), "-0.0");
    assert_eq!(shown(&make(5, -3, 0).div(&Float::infinity(5))), "+0.0");
}

#[test]
fn zero_times_inf() {
    assert_eq!(shown(&Float::zero(5).mul(&Float::infinity(5))), "NaN");
    assert_eq!(shown(&Float::infinity(5).mul(&Float::neg_zero(5))), "NaN");
    assert_eq!(shown(&Float::zero(5).div(&Float::zero(5))), "NaN");
}

#[test]
fn nan_is_contagious() {
    let nan = Float::nan(5);
    let one = make(5, 1, 0);
    assert_eq!(shown(&nan.clone().add(&one)), "NaN");
    assert_eq!(shown(&one.clone().add(&nan)), "NaN");
    assert_eq!(shown(&nan.clone().sub(&one)), "NaN");
    assert_eq!(shown(&one.clone().mul(&nan)), "NaN");
    assert_eq!(shown(&nan.clone().mul(&Float::zero(5))), "NaN");
    assert_eq!(shown(&one.clone().div(&nan)), "NaN");
    assert_eq!(shown(&nan.clone().div(&Float::zero(5))), "NaN");
    assert_eq!(shown(&nan.clone().sqrt()), "NaN");
    assert_eq!(shown(&nan.clone().neg()), "NaN");
    assert_eq!(shown(&nan.clone().abs()), "NaN");
    assert_eq!(shown(&nan.clone().with_precision(9)), "NaN");
    assert_eq!(nan.clone().with_precision(9).precision(), 9);
    assert_eq!(shown(&nan.clone().mul_exp2(3)), "NaN");
    assert_eq!(shown(&nan.clone().next_above()), "NaN");
    assert_eq!(shown(&nan.clone().next_below()), "NaN");
    assert_eq!(shown(&nan.clone().next_toward(&one)), "NaN");
    assert_eq!(shown(&one.clone().next_toward(&nan)), shown(&one));
}

#[test]
fn sign_of_zero_products_and_quotients() {
    assert_eq!(shown(&Float::zero(5).div(&make(5, -2, 0))), "-0.0");
    assert_eq!(shown(&Float::neg_zero(5).div(&make(5, -2, 0))), "+0.0");
    assert_eq!(shown(&Float::zero(5).div(&Float::neg_infinity(5))), "-0.0");
    assert_eq!(shown(&Float::zero(5).mul(&make(5, -2, 0))), "-0.0");
    assert_eq!(shown(&make(5, -2, 0).mul(&Float::neg_zero(5))), "+0.0");
    assert_eq!(shown(&Float::zero(5).mul(&Float::zero(5))), "+0.0");
    assert_eq!(shown(&make(5, -2, 0).div(&Float::zero(5))), "-inf");
    assert_eq!(shown(&make(5, -2, 0).div(&Float::neg_zero(5))), "+inf");
}

#[test]
fn square_root_of_two() {
    let root = make(10, 2, 0).sqrt();
    assert_eq!(shown(&root), "+1011010100 * 2^(-9)");
    assert_eq!(shown(&make(10, 4, 0).sqrt()), "+1000000000 * 2^(-8)");
    assert_eq!(shown(&make(10, 1, -1).sqrt()), "+1011010100 * 2^(-10)");
    assert_eq!(shown(&make(5, 9, 0).sqrt()), "+11000 * 2^(-3)");
    assert_eq!(shown(&make(1, 2, 0).sqrt()), "+1 * 2^(0)");
    assert_eq!(shown(&make(1, 1, -3).sqrt()), "+1 * 2^(-2)");
}

#[test]
fn square_root_of_special_values() {
    assert_eq!(shown(&Float::infinity(5).sqrt()), "+inf");
    assert_eq!(shown(&Float::neg_infinity(5).sqrt()), "NaN");
    assert_eq!(shown(&Float::zero(5).sqrt()), "+0.0");
    assert_eq!(shown(&Float::neg_zero(5).sqrt()), "-0.0");
    assert_eq!(shown(&make(5, -4, 0).sqrt()), "NaN");
    let root = Float::max(5).sqrt();
    assert_eq!(root.precision(), 5);
    assert!(root.clone().mul(&root).le(&Float::max(5)));
    let root = Float::min_positive(5).sqrt();
    assert!(root.gt(&Float::min_positive(5)));
}

#[test]
fn products_and_quotients() {
    assert_eq!(shown(&make(5, 3, 0).mul(&make(5, 5, 0))), "+11110 * 2^(-1)");
    assert_eq!(shown(&make(5, 31, 0).mul(&make(5, 31, 0))), "+11110 * 2^(5)");
    assert_eq!(shown(&make(5, 17, 0).mul(&make(5, -17, 0))), "-10010 * 2^(4)");
    assert_eq!(shown(&make(5, 1, 0).div(&make(5, 3, 0))), "+10101 * 2^(-6)");
    assert_eq!(shown(&make(5, 2, 0).div(&make(5, 3, 0))), "+10101 * 2^(-5)");
    assert_eq!(shown(&make(5, -6, 0).div(&make(5, 3, 0))), "-10000 * 2^(-3)");
    assert_eq!(shown(&make(5, 31, 0).div(&make(5, 16, 0))), "+11111 * 2^(-4)");
    assert_eq!(shown(&make(5, 16, 0).div(&make(5, 31, 0))), "+10001 * 2^(-5)");
    assert_eq!(shown(&make(1, 1, 3).div(&make(1, 1, 5))), "+1 * 2^(-2)");
    assert_eq!(shown(&make(70, 1, 0).div(&make(70, 3, 0)).with_precision(5)), "+10101 * 2^(-6)");
}

#[test]
fn division_overflow_and_underflow() {
    assert_eq!(shown(&Float::max(5).div(&Float::min_positive(5))), "+inf");
    assert_eq!(shown(&Float::min_positive(5).div(&Float::max(5))), "+0.0");
    assert_eq!(shown(&Float::min(5).div(&Float::min_positive(5))), "-inf");
    assert_eq!(shown(&Float::min_positive(5).div(&Float::min(5))), "-0.0");
}

#[test]
fn saturation_of_products_and_sums() {
    assert_eq!(shown(&Float::max(5).mul(&Float::max(5))), "+inf");
    assert_eq!(shown(&Float::max(5).mul(&Float::min(5))), "-inf");
    assert_eq!(shown(&Float::min_positive(5).mul(&Float::min_positive(5))), "+0.0");
    assert_eq!(shown(&Float::min_positive(5).mul(&Float::min_positive(5).neg())), "-0.0");
    assert_eq!(shown(&Float::max(5).add(&Float::max(5))), "+inf");
    assert_eq!(shown(&Float::min(5).add(&Float::min(5))), "-inf");
    assert_eq!(shown(&Float::min(5).sub(&Float::max(5))), "-inf");
    // The product of the largest value and one is the largest value.
    assert_eq!(shown(&Float::max(5).mul(&make(5, 1, 0))), shown(&Float::max(5)));
    // The difference of the two smallest values of one sign is below the
    // range.
    let two_steps = Float::min_positive(5).next_above();
    assert_eq!(shown(&two_steps.sub(&Float::min_positive(5))), "+0.0");
    // A product whose exponents cancel across the whole range.
    let large = make(5, 21, i64::MAX - 10);
    let small = make(5, 3, i64::MIN + 10);
    assert!(large.mul(&small).eq(&make(5, 63, -1)));
    // Exponents that add up to the smallest exponent, and one more.
    let a = make(5, 16, -4).mul_exp2(i64::MIN + 10);
    let b = make(5, 16, -4).mul_exp2(-9);
    assert_eq!(shown(&a.clone().mul(&b)), shown(&Float::min_positive(5)));
    assert_eq!(shown(&a.mul(&b.mul_exp2(-1))), "+0.0");
}

#[test]
fn scaling_by_powers_of_two() {
    assert_eq!(shown(&make(5, 1, 0).mul_exp2(3)), "+10000 * 2^(-1)");
    assert_eq!(shown(&make(5, 1, 0).mul_exp2(-3)), "+10000 * 2^(-7)");
    assert_eq!(shown(&make(5, 1, 0).mul_exp2(i64::MAX)), "+inf");
    assert_eq!(shown(&make(5, -1, 0).mul_exp2(i64::MAX)), "-inf");
    assert_eq!(shown(&make(5, 1, 0).mul_exp2(i64::MIN)), "+0.0");
    assert_eq!(shown(&make(5, -1, 0).mul_exp2(i64::MIN)), "-0.0");
    assert_eq!(
        shown(&make(5, 1, 0).mul_exp2(i64::MAX - 1)),
        format!("+10000 * 2^({})", i64::MAX - 5)
    );
    assert_eq!(shown(&Float::max(5).mul_exp2(1)), "+inf");
    assert_eq!(shown(&Float::max(5).mul_exp2(i64::MAX)), "+inf");
    assert_eq!(shown(&Float::min_positive(5).mul_exp2(-1)), "+0.0");
    assert_eq!(shown(&Float::min_positive(5).mul_exp2(i64::MIN)), "+0.0");
    assert_eq!(shown(&Float::zero(5).mul_exp2(9)), "+0.0");
    assert_eq!(shown(&Float::neg_infinity(5).mul_exp2(-9)), "-inf");
}

#[test]
fn changing_precision() {
    assert_eq!(shown(&make(5, 0b10011, 0).with_precision(8)), "+10011000 * 2^(-3)");
    assert_eq!(shown(&make(5, 0b10011, 0).with_precision(5)), "+10011 * 2^(0)");
    assert_eq!(shown(&make(5, 0b10011, 0).with_precision(4)), "+1010 * 2^(1)");
    assert_eq!(shown(&make(5, 0b10010, 0).with_precision(4)), "+1001 * 2^(1)");
    assert_eq!(shown(&make(5, 0b10101, 0).with_precision(3)), "+101 * 2^(2)");
    assert_eq!(shown(&make(5, 0b10110, 0).with_precision(3)), "+110 * 2^(2)");
    assert_eq!(shown(&make(5, 0b10100, 0).with_precision(3)), "+101 * 2^(2)");
    assert_eq!(shown(&make(5, 0b10110, 0).with_precision(4)), "+1011 * 2^(1)");
    assert_eq!(shown(&make(5, 0b11011, 0).with_precision(4)), "+1110 * 2^(1)");
    assert_eq!(shown(&make(5, 0b11001, 0).with_precision(4)), "+1100 * 2^(1)");
    assert_eq!(shown(&make(5, -0b11111, 0).with_precision(3)), "-100 * 2^(3)");
    assert_eq!(shown(&make(5, 0b11111, 0).with_precision(1)), "+1 * 2^(5)");
    assert_eq!(shown(&make(5, 0b10111, 0).with_precision(1)), "+1 * 2^(4)");
    assert_eq!(shown(&make(5, 0b11000, 0).with_precision(1)), "+1 * 2^(5)");
    assert_eq!(shown(&Float::max(5).with_precision(3)), "+inf");
    assert_eq!(shown(&Float::min(5).with_precision(4)), "-inf");
    assert_eq!(
        shown(&Float::max(5).with_precision(9)),
        format!("+111110000 * 2^({})", i64::MAX as i128 - 1 - 8)
    );
    assert_eq!(shown(&Float::neg_zero(5).with_precision(3)), "-0.0");
    assert_eq!(Float::neg_zero(5).with_precision(3).precision(), 3);
    assert_eq!(Float::infinity(5).with_precision(300).precision(), 300);
}

#[test]
fn neighbouring_values() {
    assert_eq!(shown(&make(5, 0b10000, 0).next_above()), "+10001 * 2^(0)");
    assert_eq!(shown(&make(5, 0b11111, 0).next_above()), "+10000 * 2^(1)");
    assert_eq!(shown(&make(5, 0b10000, 0).next_below()), "+11111 * 2^(-1)");
    assert_eq!(shown(&make(5, 0b10001, 0).next_below()), "+10000 * 2^(0)");
    assert_eq!(shown(&make(5, -0b10000, 0).next_above()), "-11111 * 2^(-1)");
    assert_eq!(shown(&make(5, -0b11111, 0).next_below()), "-10000 * 2^(1)");
    assert_eq!(shown(&make(1, 1, 0).next_above()), "+1 * 2^(1)");
    assert_eq!(shown(&make(1, 1, 0).next_below()), "+1 * 2^(-1)");
    assert_eq!(shown(&Float::max(5).next_above()), "+inf");
    assert_eq!(shown(&Float::min(5).next_below()), "-inf");
    assert_eq!(shown(&Float::min_positive(5).next_below()), "+0.0");
    assert_eq!(shown(&Float::min_positive(5).neg().next_above()), "-0.0");
    assert_eq!(shown(&Float::zero(5).next_above()), shown(&Float::min_positive(5)));
    assert_eq!(shown(&Float::zero(5).next_below()), shown(&Float::min_positive(5).neg()));
    assert_eq!(shown(&Float::neg_zero(5).next_above()), shown(&Float::min_positive(5)));
    assert_eq!(shown(&Float::neg_zero(5).next_below()), shown(&Float::min_positive(5).neg()));
    assert_eq!(shown(&Float::infinity(5).next_above()), "+inf");
    assert_eq!(shown(&Float::infinity(5).next_below()), shown(&Float::max(5)));
    assert_eq!(shown(&Float::neg_infinity(5).next_below()), "-inf");
    assert_eq!(shown(&Float::neg_infinity(5).next_above()), shown(&Float::min(5)));
}

#[test]
fn stepping_toward_a_target() {
    let one = make(5, 0b10000, -4);
    let two = make(5, 0b10000, -3);
    assert_eq!(shown(&one.clone().next_toward(&two)), "+10001 * 2^(-4)");
    assert_eq!(shown(&two.clone().next_toward(&one)), "+11111 * 2^(-4)");
    assert_eq!(shown(&one.clone().next_toward(&one)), shown(&one));
    assert_eq!(shown(&one.clone().next_toward(&Float::neg_infinity(5))), "+11111 * 2^(-5)");
    assert_eq!(shown(&one.clone().neg().next_toward(&Float::zero(5))), "-11111 * 2^(-5)");
    assert_eq!(shown(&Float::zero(5).next_toward(&Float::neg_zero(5))), "+0.0");
    assert_eq!(shown(&Float::zero(5).next_toward(&one)), shown(&Float::min_positive(5)));
    assert_eq!(
        shown(&Float::zero(5).next_toward(&one.clone().neg())),
        shown(&Float::min_positive(5).neg())
    );
}

#[test]
fn ordering() {
    let values = vec![
        Float::neg_infinity(5),
        Float::min(5),
        make(5, -0b10001, 3),
        make(5, -0b10000, 3),
        make(5, -0b11111, 2),
        make(5, -1, -9),
        Float::min_positive(5).neg(),
        Float::zero(5),
        Float::min_positive(5),
        make(5, 1, -9),
        make(5, 0b11111, 2),
        make(5, 0b10000, 3),
        make(5, 0b10001, 3),
        Float::max(5),
        Float::infinity(5),
    ];
    for (i, x) in values.iter().enumerate() {
        for (j, y) in values.iter().enumerate() {
            assert_eq!(x.partial_cmp(y), Some(i.cmp(&j)), "{} ? {}", shown(x), shown(y));
            assert_eq!(x.eq(y), i == j);
            assert_eq!(x.ne(y), i != j);
            assert_eq!(x.lt(y), i < j);
            assert_eq!(x.le(y), i <= j);
            assert_eq!(x.gt(y), i > j);
            assert_eq!(x.ge(y), i >= j);
            assert!(x.comparable(y));
        }
    }
    assert_eq!(Float::zero(5).partial_cmp(&Float::neg_zero(5)), Some(Ordering::Equal));
    assert!(Float::neg_zero(5).eq(&Float::zero(5)));
    assert_eq!(make(5, -1, 0).partial_cmp(&Float::neg_zero(5)), Some(Ordering::Less));
    assert_eq!(Float::neg_zero(5).partial_cmp(&make(5, -1, 0)), Some(Ordering::Greater));
    assert_eq!(make(5, 1, 0).partial_cmp(&Float::neg_zero(5)), Some(Ordering::Greater));
}

#[test]
fn nan_is_incomparable() {
    let nan = Float::nan(5);
    for other in [Float::nan(5), Float::zero(5), Float::infinity(5), make(5, 3, 0)] {
        assert_eq!(nan.partial_cmp(&other), None);
        assert_eq!(other.partial_cmp(&nan), None);
        assert!(!nan.eq(&other));
        assert!(!nan.ne(&other));
        assert!(!nan.lt(&other));
        assert!(!nan.le(&other));
        assert!(!nan.gt(&other));
        assert!(!nan.ge(&other));
        assert!(!other.le(&nan));
        assert!(!nan.comparable(&other));
    }
}

#[test]
fn comparison_with_integers() {
    let five = make(5, 5, 0);
    assert_eq!(five.partial_cmp_i64(5), Some(Ordering::Equal));
    assert_eq!(five.partial_cmp_i64(-5), Some(Ordering::Greater));
    assert_eq!(five.partial_cmp_u64(6), Some(Ordering::Less));
    assert_eq!(five.partial_cmp_i64(0), Some(Ordering::Greater));
    assert!(five.eq_i64(5));
    assert!(five.eq_u64(5));
    assert!(!five.eq_u64(4));
    assert!(Float::zero(5).eq_i64(0));
    assert_eq!(Float::nan(5).partial_cmp_i64(1), None);
    assert!(!Float::nan(5).eq_u64(1));
    // The integer is rounded to the float's precision before it is compared.
    let sixteen = make(3, 16, 0);
    assert!(sixteen.eq_i64(0b1111));
    assert!(!make(3, 7, 1).eq_i64(0b1111));
    assert_eq!(make(3, 7, 1).partial_cmp_u64(0b1111), Some(Ordering::Less));
    assert_eq!(make(5, 1, 63).partial_cmp_u64(u64::MAX), Some(Ordering::Less));
    assert_eq!(make(5, 1, 64).partial_cmp_u64(u64::MAX), Some(Ordering::Equal));
    assert_eq!(make(5, -1, 63).partial_cmp_i64(i64::MIN), Some(Ordering::Equal));
}

#[test]
fn from_machine_integers() {
    assert_eq!(shown(&Float::from_u64(0)), "+0.0");
    assert_eq!(Float::from_u64(0).precision(), 1);
    assert_eq!(shown(&Float::from_i64(0)), "+0.0");
    assert_eq!(shown(&Float::from_u64(1)), "+1 * 2^(0)");
    assert_eq!(shown(&Float::from_i64(-1)), "-1 * 2^(0)");
    assert_eq!(shown(&Float::from_i64(-6)), "-110 * 2^(0)");
    assert_eq!(Float::from_i64(-6).precision(), 3);
    assert_eq!(Float::from_u64(u64::MAX).precision(), 64);
    assert_eq!(Float::from_i64(i64::MIN).precision(), 64);
    assert_eq!(shown(&Float::from_i64(i64::MIN).with_precision(2)), "-10 * 2^(62)");
    assert_eq!(Float::from_i64(i64::MAX).precision(), 63);
    assert!(Float::from_u64(12).with_precision(9).eq(&make(9, 3, 2)));
}

#[test]
fn from_big_integers() {
    assert_eq!(shown(&Float::from(BigInt::from(0))), "+0.0");
    assert_eq!(Float::from(BigInt::from(0)).precision(), 1);
    assert_eq!(shown(&Float::from(BigInt::from(10))), "+1010 * 2^(0)");
    assert_eq!(shown(&Float::from(BigInt::from(-10))), "-1010 * 2^(0)");
    let wide = BigInt::from(1) << 100usize;
    let f = Float::from(wide.clone() + BigInt::from(1));
    assert_eq!(f.precision(), 101);
    assert!(f.clone().with_precision(5).eq(&make(5, 1, 100)));
    assert!(Float::from(-wide).with_precision(5).eq(&make(5, -1, 100)));
    let checked = Float::checked_from(BigInt::from(-3));
    assert_eq!(checked.map(|f| f.debug_string()), Some("-11 * 2^(0)".to_string()));
}

#[test]
fn big_integer_with_too_many_bits() {
    let huge = BigInt::from(-1) << (u32::MAX as u64);
    assert!(Float::checked_from(huge).is_none());
}

#[test]
fn from_random_bits() {
    assert_eq!(shown(&Float::rand(BigUint::from(0u32), 5)), "+0.0");
    assert_eq!(Float::rand(BigUint::from(0u32), 5).precision(), 5);
    assert_eq!(shown(&Float::rand(BigUint::from(1u32), 5)), "+10000 * 2^(-9)");
    assert_eq!(shown(&Float::rand(BigUint::from(16u32), 5)), "+10000 * 2^(-5)");
    assert_eq!(shown(&Float::rand(BigUint::from(31u32), 5)), "+11111 * 2^(-5)");
    assert_eq!(shown(&Float::rand(BigUint::from(5u32), 5)), "+10100 * 2^(-7)");
    for n in 0u32..32 {
        let f = Float::rand(BigUint::from(n), 5);
        assert!(f.ge(&Float::zero(5)));
        assert!(f.lt(&make(5, 1, 0)));
        assert!(f.eq(&make(5, n as i64, -5)));
    }
}

#[test]
fn random_bits_out_of_range() {
    assert!(Float::checked_rand(BigUint::from(31u32), 5).is_some());
    assert!(Float::checked_rand(BigUint::from(32u32), 5).is_none());
    assert!(Float::checked_rand(BigUint::from(1u32), 1).is_some());
    assert!(Float::checked_rand(BigUint::from(2u32), 1).is_none());
    let f = Float::checked_rand(BigUint::from(5u32), 5);
    assert_eq!(f.map(|f| f.debug_string()), Some("+10100 * 2^(-7)".to_string()));
}

#[test]
fn validity_of_results() {
    let values = [
        Float::nan(5),
        Float::neg_infinity(5),
        Float::min(5),
        make(5, -21, 7),
        Float::min_positive(5).neg(),
        Float::neg_zero(5),
        Float::zero(5),
        Float::min_positive(5),
        make(5, 21, -7),
        Float::max(5),
        Float::infinity(5),
    ];
    for x in &values {
        assert!(x.is_valid());
        assert!(x.clone().neg().is_valid());
        assert!(x.clone().abs().is_valid());
        assert!(x.clone().sqrt().is_valid());
        assert!(x.clone().next_above().is_valid());
        assert!(x.clone().next_below().is_valid());
        assert!(x.clone().with_precision(2).is_valid());
        assert!(x.clone().with_precision(9).is_valid());
        assert!(x.clone().mul_exp2(i64::MAX).is_valid());
        assert!(x.clone().mul_exp2(-3).is_valid());
        for y in &values {
            assert!(x.clone().add(y).is_valid());
            assert!(x.clone().sub(y).is_valid());
            assert!(x.clone().mul(y).is_valid());
            assert!(x.clone().div(y).is_valid());
            assert!(x.clone().next_toward(y).is_valid());
        }
    }
    assert!(Float::from_i64(-77).is_valid());
    assert!(Float::from_ieee754(24, 8, true, 3, 77).is_valid());
    assert!(Float::rand(BigUint::from(77u32), 9).is_valid());
}

#[test]
fn order_of_signs() {
    assert!(Sign::Neg < Sign::Pos);
    assert_eq!(Sign::Pos.cmp(&Sign::Pos), Ordering::Equal);
    assert_eq!(Sign::Pos.max(Sign::Neg), Sign::Pos);
}

#[test]
fn interchange_fields() {
    let one = Float::from_ieee754(53, 11, false, 0, 0);
    assert!(one.eq(&make(53, 1, 0)));
    let x = Float::from_ieee754(24, 8, true, -1, 0x66666);
    assert_eq!(shown(&x), "-100001100110011001100110 * 2^(-24)");
    assert_eq!(x.to_ieee754(24, 8), (true, -1, 0x66666));
    assert_eq!(shown(&Float::from_ieee754(53, 11, false, 1024, 0)), "+inf");
    assert_eq!(shown(&Float::from_ieee754(53, 11, true, 1024, 0)), "-inf");
    assert_eq!(shown(&Float::from_ieee754(53, 11, false, 1024, 5)), "NaN");
    assert_eq!(shown(&Float::from_ieee754(53, 11, true, -1023, 0)), "-0.0");
    assert_eq!(shown(&Float::from_ieee754(24, 8, false, -127, 0)), "+0.0");
    assert_eq!(shown(&Float::from_ieee754(24, 8, false, 128, 0)), "+inf");
    assert_eq!(Float::from_ieee754(24, 8, false, 127, 0).precision(), 24);

    assert_eq!(Float::infinity(9).to_ieee754(53, 11), (false, 1024, 0));
    assert_eq!(Float::neg_infinity(9).to_ieee754(24, 8), (true, 128, 0));
    assert_eq!(Float::neg_zero(9).to_ieee754(53, 11), (true, -1023, 0));
    assert_eq!(Float::nan(9).to_ieee754(53, 11), (false, 1024, 1 << 51));
    assert_eq!(Float::nan(9).to_ieee754(24, 8), (false, 128, 1 << 22));
    assert_eq!(make(5, 3, 0).to_ieee754(53, 11), (false, 1, 1 << 51));
    assert_eq!(make(5, -3, 0).to_ieee754(24, 8), (true, 1, 1 << 22));
    // Exponents that the format cannot hold.
    assert_eq!(make(5, 1, 1024).to_ieee754(53, 11), (false, 1024, 0));
    assert_eq!(make(5, 1, 1023).to_ieee754(53, 11), (false, 1023, 0));
    assert_eq!(make(5, -1, -1022).to_ieee754(53, 11), (true, -1022, 0));
    assert_eq!(make(5, -1, -1023).to_ieee754(53, 11), (true, -1023, 0));
    assert_eq!(Float::max(5).to_ieee754(24, 8), (false, 128, 0));
    assert_eq!(Float::min_positive(5).to_ieee754(24, 8), (false, -127, 0));
    // Rounding to the format's precision may carry into the next binade.
    let all_ones = Float::from_u64((1 << 60) - 1);
    assert_eq!(all_ones.to_ieee754(53, 11), (false, 60, 0));
    let top = make(30, (1 << 30) - 1, 98);
    assert_eq!(top.to_ieee754(24, 8), (false, 128, 0));
}

#[test]
fn sign_laws() {
    let values = [
        Float::nan(5),
        Float::neg_infinity(5),
        make(5, -21, 7),
        Float::neg_zero(5),
        Float::zero(5),
        make(5, 21, -7),
        Float::infinity(5),
    ];
    for x in &values {
        assert_eq!(shown(&x.clone().neg().neg()), shown(x));
        assert_eq!(shown(&x.clone().abs().abs()), shown(&x.clone().abs()));
        assert_eq!(shown(&x.clone().with_precision(5)), shown(x));
        if x.sign().is_some() {
            assert!(x.clone().abs().ge(&Float::zero(5)));
            assert_eq!(x.clone().abs().sign(), Some(Sign::Pos));
            assert_eq!(x.clone().neg().sign(), x.sign().map(|s| s.neg()));
        }
        for y in &values {
            let (sx, sy) = match (x.sign(), y.sign()) {
                (Some(sx), Some(sy)) => (sx, sy),
                _ => continue,
            };
            let product = x.clone().mul(y);
            if product.sign().is_some() {
                assert_eq!(product.sign(), Some(sx.bitxor(sy)));
            }
            assert_eq!(x.precision(), product.precision());
            assert_eq!(x.clone().add(y).precision(), 5);
            assert_eq!(x.clone().sub(y).precision(), 5);
            assert_eq!(x.clone().div(y).precision(), 5);
        }
    }
}
