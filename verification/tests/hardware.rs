// Agreement with the machine's floating-point arithmetic at its own
// precisions, and relations between results at different precisions.

use float::Float;
use ieee754::Ieee754;

fn double_in(x: f64) -> Float {
    let (sign, exp, signif) = x.decompose();
    Float::from_ieee754(53, 11, sign, exp as i64, signif)
}

fn double_out(f: Float) -> f64 {
    let (negative, exp, signif) = f.to_ieee754(53, 11);
    f64::recompose(negative, exp as i16, signif)
}

fn single_in(x: f32) -> Float {
    let (sign, exp, signif) = x.decompose();
    Float::from_ieee754(24, 8, sign, exp as i64, signif as u64)
}

fn single_out(f: Float) -> f32 {
    let (negative, exp, signif) = f.to_ieee754(24, 8);
    f32::recompose(negative, exp as i16, signif as u32)
}

// A fixed sequence of well-mixed 64-bit numbers.
struct Bits(u64);

impl Bits {
    fn next(&mut self) -> u64 {
        self.0 = self.0.wrapping_add(0x9e37_79b9_7f4a_7c15);
        let mut z = self.0;
        z = (z ^ (z >> 30)).wrapping_mul(0xbf58_476d_1ce4_e5b9);
        z = (z ^ (z >> 27)).wrapping_mul(0x94d0_49bb_1331_11eb);
        z ^ (z >> 31)
    }

    // A finite double that is not subnormal, with an exponent near zero.
    fn double(&mut self) -> f64 {
        let signif = self.next() >> 12;
        let exp = (self.next() % 41) as i16 - 20;
        let sign = self.next() % 2 == 1;
        f64::recompose(sign, exp, signif)
    }

    fn single(&mut self) -> f32 {
        let signif = (self.next() >> 41) as u32;
        let exp = (self.next() % 41) as i16 - 20;
        let sign = self.next() % 2 == 1;
        f32::recompose(sign, exp, signif)
    }

    fn float(&mut self, p: u32) -> Float {
        let mut x = Float::from_u64(self.next() | 1).with_precision(p);
        let mut filled = 64;
        while filled < p {
            let more =
                Float::from_u64(self.next() | 1).with_precision(p).mul_exp2(-(filled as i64));
            x = x.add(&more);
            filled += 64;
        }
        let exp = (self.next() % 41) as i64 - 20;
        let x = x.mul_exp2(exp - 63);
        if self.next() % 2 == 1 {
            x.neg()
        } else {
            x
        }
    }
}

fn same_double(a: f64, b: f64) -> bool {
    a.to_bits() == b.to_bits()
}

fn same_single(a: f32, b: f32) -> bool {
    a.to_bits() == b.to_bits()
}

fn within_one_ulp(a: &Float, b: &Float) -> bool {
    a.ge(&b.clone().next_below()) && a.le(&b.clone().next_above())
}

// Whether a normal value of precision `2p` lies half way between two values
// of precision `p`: its significand ends in a one and `p - 1` zeros.
fn is_tie(wide: &Float, p: u32) -> bool {
    let text = wide.debug_string();
    let digits: Vec<char> = text.chars().skip(1).take_while(|c| *c == '0' || *c == '1').collect();
    if digits.len() != 2 * p as usize {
        return false;
    }
    digits[p as usize] == '1' && digits[p as usize + 1..].iter().all(|c| *c == '0')
}

#[test]
fn doubles_round_trip() {
    let mut bits = Bits(1);
    for _ in 0..2000 {
        let x = bits.double();
        assert!(same_double(double_out(double_in(x)), x));
    }
    for x in [0.0, -0.0, 1.0, -1.5, f64::INFINITY, f64::NEG_INFINITY, f64::MAX, f64::MIN_POSITIVE] {
        assert!(same_double(double_out(double_in(x)), x));
    }
    assert!(double_out(double_in(f64::NAN)).is_nan());
}

#[test]
fn singles_round_trip() {
    let mut bits = Bits(2);
    for _ in 0..2000 {
        let x = bits.single();
        assert!(same_single(single_out(single_in(x)), x));
    }
    for x in [0.0, -0.0, 1.0, -1.5, f32::INFINITY, f32::NEG_INFINITY, f32::MAX, f32::MIN_POSITIVE] {
        assert!(same_single(single_out(single_in(x)), x));
    }
    assert!(single_out(single_in(f32::NAN)).is_nan());
    // A double above the single range becomes an infinity, one below a zero.
    assert!(same_single(single_out(double_in(1e300)), f32::INFINITY));
    assert!(same_single(single_out(double_in(-1e300)), f32::NEG_INFINITY));
    assert!(same_single(single_out(double_in(-1e-300)), -0.0));
    assert!(same_single(single_out(double_in(0.1)), 0.1f32));
}

#[test]
fn agrees_with_doubles() {
    let mut bits = Bits(3);
    for _ in 0..3000 {
        let x = bits.double();
        let y = bits.double();
        let (fx, fy) = (double_in(x), double_in(y));
        assert!(same_double(double_out(fx.clone().add(&fy)), x + y), "{} + {}", x, y);
        assert!(same_double(double_out(fx.clone().sub(&fy)), x - y), "{} - {}", x, y);
        assert!(same_double(double_out(fx.clone().mul(&fy)), x * y), "{} * {}", x, y);
        assert!(same_double(double_out(fx.clone().div(&fy)), x / y), "{} / {}", x, y);
        assert!(same_double(double_out(fx.abs().sqrt()), x.abs().sqrt()), "sqrt {}", x);
    }
}

#[test]
fn agrees_with_singles() {
    let mut bits = Bits(4);
    for _ in 0..3000 {
        let x = bits.single();
        let y = bits.single();
        let (fx, fy) = (single_in(x), single_in(y));
        assert!(same_single(single_out(fx.clone().add(&fy)), x + y), "{} + {}", x, y);
        assert!(same_single(single_out(fx.clone().sub(&fy)), x - y), "{} - {}", x, y);
        assert!(same_single(single_out(fx.clone().mul(&fy)), x * y), "{} * {}", x, y);
        assert!(same_single(single_out(fx.clone().div(&fy)), x / y), "{} / {}", x, y);
        assert!(same_single(single_out(fx.abs().sqrt()), x.abs().sqrt()), "sqrt {}", x);
    }
}

#[test]
fn agrees_with_doubles_on_close_operands() {
    // Operands a few units in the last place apart: sums carry, differences
    // cancel.
    let mut bits = Bits(5);
    for _ in 0..2000 {
        let x = bits.double();
        let step = (bits.next() % 9) as i64 - 4;
        let y = f64::from_bits((x.to_bits() as i64 + step) as u64);
        let (fx, fy) = (double_in(x), double_in(y));
        assert!(same_double(double_out(fx.clone().add(&fy)), x + y));
        assert!(same_double(double_out(fx.clone().sub(&fy)), x - y));
        assert!(same_double(double_out(fx.clone().div(&fy)), x / y));
        assert!(same_double(double_out(fx.clone().mul(&fy)), x * y));
    }
}

#[test]
fn mixed_precision() {
    // The result at twice the precision, reduced, is the direct result or
    // its neighbour, and is the direct result where the wide result does not
    // end in a one followed by zeros only.
    let mut bits = Bits(6);
    for p in [1u32, 2, 5, 24, 53, 64, 100, 131] {
        for _ in 0..150 {
            let x = bits.float(p);
            let y = bits.float(p);
            let wide_x = x.clone().with_precision(2 * p);
            let wide_y = y.clone().with_precision(2 * p);
            assert!(wide_x.clone().with_precision(p).eq(&x));
            let cases = [
                (x.clone().add(&y), wide_x.clone().add(&wide_y)),
                (x.clone().sub(&y), wide_x.clone().sub(&wide_y)),
                (x.clone().mul(&y), wide_x.clone().mul(&wide_y)),
                (x.clone().div(&y), wide_x.clone().div(&wide_y)),
                (x.clone().abs().sqrt(), wide_x.clone().abs().sqrt()),
            ];
            for (direct, wide) in cases {
                let reduced = wide.clone().with_precision(p);
                assert!(within_one_ulp(&reduced, &direct));
                if !is_tie(&wide, p) {
                    assert!(
                        reduced.eq(&direct),
                        "{} vs {}",
                        reduced.debug_string(),
                        direct.debug_string()
                    );
                }
            }
        }
    }
}

#[test]
fn round_trips_within_one_ulp() {
    let mut bits = Bits(7);
    for p in [2u32, 5, 24, 53, 80, 200] {
        for _ in 0..150 {
            let x = bits.float(p);
            let y = bits.float(p);
            let root = x.clone().abs().sqrt();
            assert!(within_one_ulp(&root.clone().mul(&root), &x.clone().abs()));
            let square = x.clone().mul(&x);
            assert!(square.sqrt().eq(&x.clone().abs()));
            assert!(within_one_ulp(&x.clone().div(&y).mul(&y), &x));
            assert!(within_one_ulp(&x.clone().mul(&y).div(&y), &x));
        }
    }
}

#[test]
fn high_precision_matches_exact_integers() {
    // Products and sums of integers that fit the precision are exact.
    let mut bits = Bits(8);
    for _ in 0..500 {
        let a = bits.next() >> 34;
        let b = bits.next() >> 34;
        let fa = Float::from_u64(a).with_precision(64);
        let fb = Float::from_u64(b).with_precision(64);
        assert!(fa.clone().mul(&fb).eq_u64(a * b));
        assert!(fa.clone().add(&fb).eq_u64(a + b));
        if a >= b {
            assert!(fa.clone().sub(&fb).eq_u64(a - b));
        } else {
            assert!(fa.clone().sub(&fb).eq_i64(-((b - a) as i64)));
        }
        if b != 0 && a % b == 0 {
            assert!(fa.clone().div(&fb).eq_u64(a / b));
        }
        let square = Float::from_u64(a * a).with_precision(64);
        assert!(square.sqrt().eq_u64(a));
    }
}

fn is_neighbour(r: &Float, x: &Float) -> bool {
    let text = r.debug_string();
    text == x.debug_string()
        || text == x.clone().next_above().debug_string()
        || text == x.clone().next_below().debug_string()
}

#[test]
fn round_trips_at_small_precisions() {
    for p in 1u32..7 {
        for mx in (1i64 << (p - 1))..(1i64 << p) {
            for sign in [1i64, -1] {
                for e in [-3i64, 0, 4] {
                    let x = Float::from_i64(sign * mx).with_precision(p).mul_exp2(e);
                    let square = x.clone().mul(&x);
                    assert_eq!(square.sqrt().debug_string(), x.clone().abs().debug_string());
                    let root = x.clone().abs().sqrt();
                    assert!(is_neighbour(&root.clone().mul(&root), &x.clone().abs()));
                    for my in (1i64 << (p - 1))..(1i64 << p) {
                        let y = Float::from_i64(-my).with_precision(p).mul_exp2(-e);
                        assert!(is_neighbour(&x.clone().mul(&y).div(&y), &x));
                        assert!(is_neighbour(&x.clone().div(&y).mul(&y), &x));
                    }
                }
            }
        }
    }
}

#[test]
fn mixed_precision_at_small_precisions() {
    for p in 1u32..6 {
        for mx in (1i64 << (p - 1))..(1i64 << p) {
            for my in (1i64 << (p - 1))..(1i64 << p) {
                for e in -7i64..8 {
                    let x = Float::from_i64(mx).with_precision(p).mul_exp2(e);
                    let y = Float::from_i64(-my).with_precision(p);
                    let wide_x = x.clone().with_precision(2 * p);
                    let wide_y = y.clone().with_precision(2 * p);
                    let cases = [
                        (x.clone().add(&y), wide_x.clone().add(&wide_y)),
                        (x.clone().sub(&y), wide_x.clone().sub(&wide_y)),
                        (x.clone().mul(&y), wide_x.clone().mul(&wide_y)),
                        (x.clone().div(&y), wide_x.clone().div(&wide_y)),
                        (x.clone().sqrt(), wide_x.clone().sqrt()),
                    ];
                    for (direct, wide) in cases {
                        let reduced = wide.clone().with_precision(p);
                        assert!(is_neighbour(&reduced, &direct));
                        if !is_tie(&wide, p) {
                            assert_eq!(reduced.debug_string(), direct.debug_string());
                        }
                    }
                }
            }
        }
    }
}

#[test]
fn mixed_precision_at_the_lower_edge() {
    // The product at four bits carries into the smallest binade; at eight
    // bits it is exact and lies below the range.
    let x = Float::from_i64(9).with_precision(4).mul_exp2(-4);
    let y = Float::from_i64(14).with_precision(4).mul_exp2(-3).mul_exp2(i64::MIN + 1);
    let direct = x.clone().mul(&y);
    assert_eq!(direct.debug_string(), Float::min_positive(4).debug_string());
    let wide = x.with_precision(8).mul(&y.with_precision(8));
    assert_eq!(wide.debug_string(), "+0.0");
}
