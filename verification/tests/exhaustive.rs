// Every operation, over all values of a small precision, against the
// machine's double-precision arithmetic.

use float::Float;
use ieee754::Ieee754;

fn from_f64(x: f64) -> Float {
    let (sign, exp, signif) = x.decompose();
    Float::from_ieee754(53, 11, sign, exp as i64, signif)
}

fn to_f64(f: Float) -> f64 {
    let (negative, exp, signif) = f.to_ieee754(53, 11);
    f64::recompose(negative, exp as i16, signif)
}

#[derive(Copy, Clone, PartialEq)]
enum Region {
    NegPos,
    Pos,
}

// The significands of precision `p`, as numbers in [1, 2).
fn at_precision(p: u32) -> Vec<f64> {
    assert!(p >= 1);
    let mut all = Vec::new();
    let mut val: u32 = 1 << (p - 1);
    while val < (1 << p) {
        all.push((val as f64) / (1u32 << (p - 1)) as f64);
        val += 1;
    }
    all
}

fn floats(p: u32, region: Region, zero: bool, exps: &[i64]) -> Vec<Float> {
    let mut all = Vec::new();
    if zero {
        all.push(Float::zero(p));
    }
    for raw_x in at_precision(p) {
        for &exp in exps {
            let x = from_f64(raw_x).with_precision(p).mul_exp2(exp);
            match region {
                Region::NegPos => {
                    all.push(x.clone().neg());
                    all.push(x);
                }
                Region::Pos => all.push(x),
            }
        }
    }
    all
}

fn range(from: i64, to: i64) -> Vec<i64> {
    (from..to).collect()
}

fn un_op(
    p: u32,
    exps: &[i64],
    region: Region,
    zero: bool,
    op: fn(Float) -> Float,
    op_f64: fn(f64) -> f64,
) {
    for x in floats(p, region, zero, exps) {
        let est = op(x.clone());
        let x_f64 = to_f64(x);
        let real = from_f64(op_f64(x_f64)).with_precision(p);
        assert!(
            est.eq(&real),
            "{} => {} != {}",
            x_f64,
            est.debug_string(),
            real.debug_string()
        );
    }
}

fn bin_op(
    p: u32,
    exps1: &[i64],
    zero1: bool,
    exps2: &[i64],
    zero2: bool,
    op: fn(Float, &Float) -> Float,
    op_f64: fn(f64, f64) -> f64,
) {
    let ys = floats(p, Region::NegPos, zero2, exps2);
    for x in floats(p, Region::NegPos, zero1, exps1) {
        for y in &ys {
            let est = op(x.clone(), y);
            let x_f64 = to_f64(x.clone());
            let y_f64 = to_f64(y.clone());
            let real = from_f64(op_f64(x_f64, y_f64)).with_precision(p);
            assert!(
                est.eq(&real),
                "{} ({}), {} ({}) => {} != {}",
                x.debug_string(),
                x_f64,
                y.debug_string(),
                y_f64,
                est.debug_string(),
                real.debug_string()
            );
        }
    }
}

// The operation on operands at the edge of the exponent range must agree
// with the operation on the same operands moved into the middle of the
// range, moved back afterwards.
fn bin_op_extreme(
    p: u32,
    exps1: &[i64],
    zero1: bool,
    mul1: i64,
    exps2: &[i64],
    zero2: bool,
    mul2: i64,
    unmul: i64,
    op: fn(Float, &Float) -> Float,
) {
    let ys = floats(p, Region::NegPos, zero2, exps2);
    for x in floats(p, Region::NegPos, zero1, exps1) {
        for y in &ys {
            let scaled = op(x.clone().mul_exp2(mul1), &y.clone().mul_exp2(mul2));
            let expected = scaled.mul_exp2(unmul);
            let est = op(x.clone(), y);
            assert!(
                est.eq(&expected) || (est.sign().is_none() && expected.sign().is_none()),
                "{}, {} => {} != {}",
                x.debug_string(),
                y.debug_string(),
                est.debug_string(),
                expected.debug_string()
            );
        }
    }
}

fn negated(exps: &[i64]) -> Vec<i64> {
    exps.iter().map(|e| -e).collect()
}

const HALF_EXP: i64 = i64::MAX / 2;

fn mul_extreme_exps() -> Vec<i64> {
    let mut exps = range(i64::MAX - 4, i64::MAX);
    exps.extend(range(HALF_EXP - 4, HALF_EXP + 5));
    exps.extend(range(1, 4));
    exps
}

fn div_extreme_x_exps() -> Vec<i64> {
    let mut exps = range(i64::MAX - 4, i64::MAX);
    exps.extend(range(HALF_EXP - 4, HALF_EXP + 5));
    exps.extend(range(0, 4));
    exps
}

fn div_extreme_y_exps() -> Vec<i64> {
    let mut exps = range(i64::MIN + 1, i64::MIN + 5);
    exps.extend(range(-HALF_EXP - 5, -HALF_EXP + 5));
    exps.extend(range(-4, 0));
    exps
}

fn add(x: Float, y: &Float) -> Float {
    x.add(y)
}

fn sub(x: Float, y: &Float) -> Float {
    x.sub(y)
}

fn mul(x: Float, y: &Float) -> Float {
    x.mul(y)
}

fn div(x: Float, y: &Float) -> Float {
    x.div(y)
}

fn add_in_place(x: Float, y: &Float) -> Float {
    let mut x = x;
    x.add_assign(y);
    x
}

fn sub_in_place(x: Float, y: &Float) -> Float {
    let mut x = x;
    x.sub_assign(y);
    x
}

fn mul_in_place(x: Float, y: &Float) -> Float {
    let mut x = x;
    x.mul_assign(y);
    x
}

fn div_in_place(x: Float, y: &Float) -> Float {
    let mut x = x;
    x.div_assign(y);
    x
}

#[test]
fn sqrt() {
    un_op(10, &range(-10, 10 + 1), Region::Pos, true, |x| x.sqrt(), |y| y.sqrt())
}

#[test]
fn add_exhaustive() {
    let exps = range(-5, 5 + 1);
    bin_op(5, &exps, true, &exps, true, add, |x, y| x + y)
}

#[test]
fn add_assign_exhaustive() {
    let exps = range(-5, 5 + 1);
    bin_op(5, &exps, true, &exps, true, add_in_place, |x, y| x + y)
}

#[test]
fn sub_exhaustive() {
    let exps = range(-5, 5 + 1);
    bin_op(5, &exps, true, &exps, true, sub, |x, y| x - y)
}

#[test]
fn sub_assign_exhaustive() {
    let exps = range(-5, 5 + 1);
    bin_op(5, &exps, true, &exps, true, sub_in_place, |x, y| x - y)
}

#[test]
fn mul_exhaustive() {
    let exps = range(-5, 5 + 1);
    bin_op(5, &exps, true, &exps, true, mul, |x, y| x * y)
}

#[test]
fn mul_assign_exhaustive() {
    let exps = range(-5, 5 + 1);
    bin_op(5, &exps, true, &exps, true, mul_in_place, |x, y| x * y)
}

#[test]
fn div_exhaustive() {
    let exps = range(-5, 5 + 1);
    bin_op(5, &exps, true, &exps, false, div, |x, y| x / y)
}

#[test]
fn div_assign_exhaustive() {
    let exps = range(-5, 5 + 1);
    bin_op(5, &exps, true, &exps, false, div_in_place, |x, y| x / y)
}

#[test]
fn exhaustive_wide_exponents() {
    let exps = range(-10, 10 + 1);
    let few = range(-1, 2);
    bin_op(5, &exps, true, &few, true, add, |x, y| x + y);
    bin_op(5, &exps, true, &few, true, sub, |x, y| x - y);
    bin_op(5, &exps, true, &few, true, mul, |x, y| x * y);
    bin_op(5, &exps, true, &few, false, div, |x, y| x / y);
    bin_op(5, &few, true, &exps, false, div, |x, y| x / y);
}

#[test]
fn add_overflow_extreme() {
    let exps = range(i64::MAX - 6, i64::MAX);
    bin_op_extreme(5, &exps, true, -i64::MAX, &exps, true, -i64::MAX, i64::MAX, add)
}

#[test]
fn add_underflow_extreme() {
    let exps = negated(&range(i64::MAX - 6, i64::MAX));
    bin_op_extreme(5, &exps, true, i64::MAX, &exps, true, i64::MAX, -i64::MAX, add)
}

#[test]
fn sub_overflow_extreme() {
    let exps = range(i64::MAX - 6, i64::MAX);
    bin_op_extreme(5, &exps, true, -i64::MAX, &exps, true, -i64::MAX, i64::MAX, sub)
}

#[test]
fn sub_underflow_extreme() {
    let exps = negated(&range(i64::MAX - 6, i64::MAX));
    bin_op_extreme(5, &exps, true, i64::MAX, &exps, true, i64::MAX, -i64::MAX, sub)
}

#[test]
fn mul_overflow_extreme() {
    let exps = mul_extreme_exps();
    bin_op_extreme(5, &exps, true, -HALF_EXP, &exps, true, -HALF_EXP, HALF_EXP * 2, mul)
}

#[test]
fn mul_underflow_extreme() {
    let exps = negated(&mul_extreme_exps());
    bin_op_extreme(5, &exps, true, HALF_EXP, &exps, true, HALF_EXP, -(HALF_EXP * 2), mul)
}

#[test]
fn div_overflow_extreme() {
    let xs = div_extreme_x_exps();
    let ys = div_extreme_y_exps();
    bin_op_extreme(5, &xs, true, -HALF_EXP, &ys, false, HALF_EXP, HALF_EXP * 2, div)
}

#[test]
fn div_underflow_extreme() {
    let xs = negated(&div_extreme_x_exps());
    let ys = negated(&div_extreme_y_exps());
    bin_op_extreme(5, &xs, true, HALF_EXP, &ys, false, -HALF_EXP, -(HALF_EXP * 2), div)
}
