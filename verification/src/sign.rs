//! The sign of a number.

use vstd::prelude::*;

verus! {

/// The sign of a number: positive or negative. The negative sign orders
/// before the positive one.
#[derive(Copy, Clone, Debug, PartialEq, Eq, PartialOrd, Ord, Hash, Structural)]
pub enum Sign {
    Neg,
    Pos,
}

impl Sign {
    /// The opposite sign, as a specification.
    pub open spec fn flip(self) -> Sign {
        match self {
            Sign::Neg => Sign::Pos,
            Sign::Pos => Sign::Neg,
        }
    }

    /// The sign of a product or quotient, as a specification: positive
    /// exactly when the two signs agree.
    pub open spec fn xor(self, other: Sign) -> Sign {
        if self == other {
            Sign::Pos
        } else {
            Sign::Neg
        }
    }

    /// The opposite sign.
    pub fn neg(self) -> (r: Sign)
        ensures
            r == self.flip(),
    {
        match self {
            Sign::Neg => Sign::Pos,
            Sign::Pos => Sign::Neg,
        }
    }

    /// The sign of a product or quotient of two numbers with these signs.
    pub fn bitxor(self, other: Sign) -> (r: Sign)
        ensures
            r == self.xor(other),
    {
        if self == other {
            Sign::Pos
        } else {
            Sign::Neg
        }
    }

    /// The character that shows this sign: `+` or `-`.
    pub fn symbol(self) -> (r: char)
        ensures
            r == (if self == Sign::Pos { '+' } else { '-' }),
    {
        match self {
            Sign::Pos => '+',
            Sign::Neg => '-',
        }
    }
}

} // verus!
