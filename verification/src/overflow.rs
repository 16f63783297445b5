//! Sums and differences of exponents with a report of overflow.
//!
//! An exponent computed in two steps may leave the 64-bit range in the first
//! step and come back in the second. Each step reports whether it wrapped;
//! the final value is right exactly when both steps wrapped or neither did.

use vstd::prelude::*;

verus! {

/// The integer that `x` wraps to in 64 signed bits.
pub open spec fn wrapped(x: int) -> int {
    if x > i64::MAX {
        x - 0x1_0000_0000_0000_0000
    } else if x < i64::MIN {
        x + 0x1_0000_0000_0000_0000
    } else {
        x
    }
}

/// Whether `x` lies outside the range of 64 signed bits.
pub open spec fn overflows(x: int) -> bool {
    x > i64::MAX || x < i64::MIN
}

/// The sum of `a` and `b` wrapped to 64 bits, and whether it wrapped.
pub fn add_overflow(a: i64, b: i64) -> (r: (i64, bool))
    ensures
        r.0 == wrapped(a + b),
        r.1 == overflows(a + b),
{
    let wide: i128 = a as i128 + b as i128;
    if wide > i64::MAX as i128 {
        ((wide - 0x1_0000_0000_0000_0000) as i64, true)
    } else if wide < i64::MIN as i128 {
        ((wide + 0x1_0000_0000_0000_0000) as i64, true)
    } else {
        (wide as i64, false)
    }
}

/// The difference of `a` and `b` wrapped to 64 bits, and whether it wrapped.
pub fn sub_overflow(a: i64, b: i64) -> (r: (i64, bool))
    ensures
        r.0 == wrapped(a - b),
        r.1 == overflows(a - b),
{
    let wide: i128 = a as i128 - b as i128;
    if wide > i64::MAX as i128 {
        ((wide - 0x1_0000_0000_0000_0000) as i64, true)
    } else if wide < i64::MIN as i128 {
        ((wide + 0x1_0000_0000_0000_0000) as i64, true)
    } else {
        (wide as i64, false)
    }
}

} // verus!
