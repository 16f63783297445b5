//! The big-integer backend. Significands are `num_bigint::BigUint` values;
//! this module names the natural number that such a value holds and states,
//! for each operation the library calls, what the backend does to it. None of
//! these statements is proved here: they describe the backend.

use vstd::prelude::*;
use vstd::arithmetic::power2::pow2;
use num_bigint::BigUint;
use num_bigint::BigInt;
use crate::bits::{bit_at, bit_length};
use crate::rounding::is_floor_sqrt;

verus! {

/// `num_bigint::BigUint`, an unsigned integer of any size. Nothing is known
/// of a value but what the functions below say of it.
#[verifier::external_type_specification]
#[verifier::external_body]
pub struct ExBigUint(BigUint);

/// `num_bigint::BigInt`, a signed integer of any size.
#[verifier::external_type_specification]
#[verifier::external_body]
pub struct ExBigInt(BigInt);

/// The natural number that an unsigned big integer holds.
pub uninterp spec fn nat_of(x: BigUint) -> nat;

/// The integer that a signed big integer holds.
pub uninterp spec fn int_of(x: BigInt) -> int;

/// The largest shift distance handed to the backend: enough for two
/// significands of the greatest precision side by side, with room to spare.
pub const MAX_SHIFT: u64 = 0x4_0000_0000;

/// `BigUint::from` on a `u64`: the big integer that holds `x`.
#[verifier::external_body]
pub(crate) fn big_from_u64(x: u64) -> (r: BigUint)
    ensures
        nat_of(r) == x,
{
    BigUint::from(x)
}

/// `Clone::clone` on a `BigUint`: a copy that holds the same number.
#[verifier::external_body]
pub(crate) fn big_clone(a: &BigUint) -> (r: BigUint)
    ensures
        nat_of(r) == nat_of(*a),
{
    a.clone()
}

/// `+` on two `BigUint` references: their sum.
#[verifier::external_body]
pub(crate) fn big_add(a: &BigUint, b: &BigUint) -> (r: BigUint)
    ensures
        nat_of(r) == nat_of(*a) + nat_of(*b),
{
    a + b
}

/// `-` on two `BigUint` references: their difference. The backend panics
/// where the result would be negative, so that case is excluded.
#[verifier::external_body]
pub(crate) fn big_sub(a: &BigUint, b: &BigUint) -> (r: BigUint)
    requires
        nat_of(*a) >= nat_of(*b),
    ensures
        nat_of(r) == nat_of(*a) - nat_of(*b),
{
    a - b
}

/// `*` on two `BigUint` references: their product.
#[verifier::external_body]
pub(crate) fn big_mul(a: &BigUint, b: &BigUint) -> (r: BigUint)
    ensures
        nat_of(r) == nat_of(*a) * nat_of(*b),
{
    a * b
}

/// `<<` on a `BigUint` reference and a `u64`: the number times `2^k`.
#[verifier::external_body]
pub(crate) fn big_shl(a: &BigUint, k: u64) -> (r: BigUint)
    requires
        k <= MAX_SHIFT,
    ensures
        nat_of(r) == nat_of(*a) * pow2(k as nat),
{
    a << k
}

/// `>>` on a `BigUint` reference and a `u64`: the number divided by `2^k`,
/// rounded down.
#[verifier::external_body]
pub(crate) fn big_shr(a: &BigUint, k: u64) -> (r: BigUint)
    ensures
        nat_of(r) == nat_of(*a) / pow2(k as nat),
{
    a >> k
}

/// `BigUint::bits`: the fewest bits that express the number, zero for zero.
#[verifier::external_body]
pub(crate) fn big_bits(a: &BigUint) -> (r: u64)
    ensures
        r == bit_length(nat_of(*a)),
{
    a.bits()
}

/// `BigUint::bit`: whether the bit of weight `2^i` is set.
#[verifier::external_body]
pub(crate) fn big_bit(a: &BigUint, i: u64) -> (r: bool)
    ensures
        r == bit_at(nat_of(*a), i as nat),
{
    a.bit(i)
}

/// `BigUint::trailing_zeros`: the position of the lowest set bit, or `None`
/// for zero.
#[verifier::external_body]
pub(crate) fn big_trailing_zeros(a: &BigUint) -> (r: Option<u64>)
    ensures
        match r {
            None => nat_of(*a) == 0,
            Some(k) => nat_of(*a) > 0 && nat_of(*a) % pow2(k as nat) == 0 && bit_at(
                nat_of(*a),
                k as nat,
            ),
        },
{
    a.trailing_zeros()
}

/// `num_integer::Integer::div_rem` on two `BigUint` references: quotient and
/// remainder. The backend panics on a zero divisor, so that case is excluded.
#[verifier::external_body]
pub(crate) fn big_div_rem(a: &BigUint, b: &BigUint) -> (r: (BigUint, BigUint))
    requires
        nat_of(*b) > 0,
    ensures
        nat_of(r.0) == nat_of(*a) / nat_of(*b),
        nat_of(r.1) == nat_of(*a) % nat_of(*b),
{
    num_integer::Integer::div_rem(a, b)
}

/// `BigUint::sqrt`: the square root rounded down.
#[verifier::external_body]
pub(crate) fn big_sqrt(a: &BigUint) -> (r: BigUint)
    ensures
        is_floor_sqrt(nat_of(*a), nat_of(r)),
{
    a.sqrt()
}

/// `<` on two `BigUint` references: whether the first number is smaller.
#[verifier::external_body]
pub(crate) fn big_lt(a: &BigUint, b: &BigUint) -> (r: bool)
    ensures
        r == (nat_of(*a) < nat_of(*b)),
{
    a < b
}

/// `==` on two `BigUint` references: whether the numbers are equal.
#[verifier::external_body]
pub(crate) fn big_eq(a: &BigUint, b: &BigUint) -> (r: bool)
    ensures
        r == (nat_of(*a) == nat_of(*b)),
{
    a == b
}

/// `num_traits::ToPrimitive::to_u64` on a `BigUint`: the number as a `u64`
/// where it fits, `None` where it does not.
#[verifier::external_body]
pub(crate) fn big_to_u64(a: &BigUint) -> (r: Option<u64>)
    ensures
        r == (if nat_of(*a) <= u64::MAX {
            Some(nat_of(*a) as u64)
        } else {
            None
        }),
{
    num_traits::ToPrimitive::to_u64(a)
}

/// `BigInt::into_parts`: whether the integer is negative, and its magnitude.
#[verifier::external_body]
pub(crate) fn big_into_parts(x: BigInt) -> (r: (bool, BigUint))
    ensures
        r.0 == (int_of(x) < 0),
        nat_of(r.1) == (if int_of(x) < 0 {
            -int_of(x)
        } else {
            int_of(x)
        }),
{
    let (sign, magnitude) = x.into_parts();
    let negative = match sign {
        num_bigint::Sign::Minus => true,
        num_bigint::Sign::NoSign => false,
        num_bigint::Sign::Plus => false,
    };
    (negative, magnitude)
}

} // verus!
