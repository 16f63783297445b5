//! A readable form of a float, for diagnostics.

use vstd::prelude::*;
use vstd::string::StringExecFns;
use num_bigint::BigUint;
use crate::big::nat_of;
use crate::float::Float;
use crate::model::{FloatView, Style};
use crate::sign::Sign;

verus! {

/// The character of a digit below ten.
pub open spec fn digit_char(d: nat) -> char
    recommends
        d < 10,
{
    if d == 0 {
        '0'
    } else if d == 1 {
        '1'
    } else if d == 2 {
        '2'
    } else if d == 3 {
        '3'
    } else if d == 4 {
        '4'
    } else if d == 5 {
        '5'
    } else if d == 6 {
        '6'
    } else if d == 7 {
        '7'
    } else if d == 8 {
        '8'
    } else {
        '9'
    }
}

/// The binary digits of `n`, most significant first, without leading zeros;
/// zero is the single digit `0`.
pub open spec fn binary_text(n: nat) -> Seq<char>
    decreases n,
{
    if n < 2 {
        seq![digit_char(n)]
    } else {
        binary_text(n / 2).push(digit_char(n % 2))
    }
}

/// The decimal digits of `n`, most significant first, without leading
/// zeros; zero is the single digit `0`.
pub open spec fn digits_text(n: nat) -> Seq<char>
    decreases n,
{
    if n < 10 {
        seq![digit_char(n)]
    } else {
        digits_text(n / 10).push(digit_char(n % 10))
    }
}

/// An integer in decimal, with a minus sign where it is negative.
pub open spec fn decimal_text(v: int) -> Seq<char> {
    if v < 0 {
        seq!['-'] + digits_text((-v) as nat)
    } else {
        digits_text(v as nat)
    }
}

/// `BigUint::to_str_radix` with radix two: the binary digits of the number.
#[verifier::external_body]
pub(crate) fn big_to_binary(a: &BigUint) -> (r: String)
    ensures
        r@ == binary_text(nat_of(*a)),
{
    a.to_str_radix(2)
}

/// `ToString::to_string` on an `i128`: the integer in decimal.
#[verifier::external_body]
pub(crate) fn int_to_decimal(v: i128) -> (r: String)
    ensures
        r@ == decimal_text(v as int),
{
    v.to_string()
}

impl FloatView {
    /// The readable form of the value: `NaN`; a sign and `0.0`; a sign and
    /// `inf`; or, for a normal value, the sign, the significand in binary,
    /// and the power of two that its last bit stands for.
    pub open spec fn debug_text(self) -> Seq<char> {
        let sign = seq![if self.sign == Sign::Pos { '+' } else { '-' }];
        match self.style {
            Style::NaN => "NaN"@,
            Style::Zero => sign + "0.0"@,
            Style::Infinity => sign + "inf"@,
            Style::Normal => sign + binary_text(self.signif) + " * 2^("@ + decimal_text(
                self.exp - (self.prec - 1),
            ) + ")"@,
        }
    }
}

impl Float {
    /// The readable form of the float.
    pub fn debug_string(&self) -> (r: String)
        requires
            self@.wf(),
        ensures
            r@ == self@.debug_text(),
    {
        let sign = match self.sign {
            Sign::Pos => "+",
            Sign::Neg => "-",
        };
        proof {
            reveal_strlit("+");
            reveal_strlit("-");
            assert("+"@ =~= seq!['+']);
            assert("-"@ =~= seq!['-']);
        }
        match self.style {
            Style::NaN => String::from_str("NaN"),
            Style::Zero => String::from_str(sign).concat("0.0"),
            Style::Infinity => String::from_str(sign).concat("inf"),
            Style::Normal => {
                let digits = big_to_binary(&self.signif);
                let scale = int_to_decimal(self.exp as i128 - (self.prec as i128 - 1));
                String::from_str(sign).concat(digits.as_str()).concat(" * 2^(").concat(
                    scale.as_str(),
                ).concat(")")
            },
        }
    }
}

} // verus!
