//! Binary floating-point numbers of arbitrary precision.
//!
//! A [`Float`] carries its precision, the number of bits of its significand,
//! with it. Addition, subtraction, multiplication, division and square root
//! are correctly rounded: the result is the value of the given precision
//! nearest to the exact result, a tie going to the value with the even
//! significand. Zeros and infinities carry a sign, NaN spreads through every
//! operation, and there are no subnormal numbers: what lies beyond the
//! exponent range becomes an infinity or a zero.
//!
//! Every operation is specified over [`FloatView`], the mathematical record
//! of a float, and proved against that specification. The significands are
//! big integers of the `num-bigint` crate; what that crate computes is
//! stated in [`big`] and taken on trust.
//!
//! - [`sign`], [`model`]: signs, the model of a float and of each operation
//! - [`bits`], [`rounding`]: binary digits and rounding over the integers
//! - [`big`]: the big-integer backend
//! - [`float`]: the float, its constructors, neighbours and rounding step
//! - [`addsub`], [`muldiv`], [`sqrt`]: the arithmetic
//! - [`compare`], [`conv`], [`show`]: ordering, conversion, readable form
//! - [`overflow`]: exponent sums with a report of overflow
//! - [`twice`]: rounding in two steps
//! - [`laws`], [`mixed`], [`roundtrip`]: laws proved of the operations

pub mod addsub;
pub mod big;
pub mod bits;
pub mod compare;
pub mod conv;
pub mod float;
pub mod laws;
pub mod mixed;
pub mod model;
pub mod muldiv;
pub mod overflow;
pub mod rounding;
pub mod roundtrip;
pub mod show;
pub mod sign;
pub mod sqrt;
pub mod twice;

pub use addsub::Operation;
pub use float::Float;
pub use model::{FloatView, Style};
pub use overflow::{add_overflow, sub_overflow};
pub use sign::Sign;
