//! Ordering of floats. NaN is ordered with nothing, itself included; the two
//! zeros are equal.

use vstd::prelude::*;
use std::cmp::Ordering;
use crate::big::big_lt;
use crate::float::Float;
use crate::model::{FloatView, Style};
use crate::sign::Sign;

verus! {

impl Float {
    /// Whether neither of the two values is NaN.
    pub fn comparable(&self, other: &Float) -> (r: bool)
        ensures
            r == self@.comparable(other@),
    {
        let left = match self.style {
            Style::NaN => false,
            _ => true,
        };
        let right = match other.style {
            Style::NaN => false,
            _ => true,
        };
        left && right
    }

    /// Whether `self` is strictly below `other`.
    pub fn lt(&self, other: &Float) -> (r: bool)
        requires
            self@.wf(),
            other@.wf(),
            self@.prec == other@.prec,
        ensures
            r == self@.below(other@),
    {
        match (self.style, other.style) {
            (Style::NaN, _) => false,
            (_, Style::NaN) => false,
            (Style::Infinity, Style::Infinity) => self.sign == Sign::Neg && other.sign
                == Sign::Pos,
            (Style::Infinity, _) => self.sign == Sign::Neg,
            (_, Style::Infinity) => other.sign == Sign::Pos,
            (Style::Zero, Style::Zero) => false,
            (Style::Normal, Style::Zero) => self.sign == Sign::Neg,
            (Style::Zero, Style::Normal) => other.sign == Sign::Pos,
            (Style::Normal, Style::Normal) => match (self.sign, other.sign) {
                (Sign::Neg, Sign::Pos) => true,
                (Sign::Pos, Sign::Neg) => false,
                (Sign::Pos, Sign::Pos) => self.exp < other.exp || (self.exp == other.exp
                    && big_lt(&self.signif, &other.signif)),
                (Sign::Neg, Sign::Neg) => other.exp < self.exp || (other.exp == self.exp
                    && big_lt(&other.signif, &self.signif)),
            },
        }
    }

    /// How `self` stands to `other`: `None` where either is NaN, and else
    /// the order of the two numbers.
    pub fn partial_cmp(&self, other: &Float) -> (r: Option<Ordering>)
        requires
            self@.wf(),
            other@.wf(),
            self@.prec == other@.prec,
        ensures
            r == self@.partial_cmp(other@),
    {
        if !self.comparable(other) {
            None
        } else if self.lt(other) {
            Some(Ordering::Less)
        } else if other.lt(self) {
            Some(Ordering::Greater)
        } else {
            Some(Ordering::Equal)
        }
    }

    /// Whether the two values are equal as numbers.
    pub fn eq(&self, other: &Float) -> (r: bool)
        requires
            self@.wf(),
            other@.wf(),
            self@.prec == other@.prec,
        ensures
            r == self@.eq(other@),
            r == (self@.partial_cmp(other@) == Some(Ordering::Equal)),
    {
        self.comparable(other) && !self.lt(other) && !other.lt(self)
    }

    /// Whether the two values can be ordered and differ.
    pub fn ne(&self, other: &Float) -> (r: bool)
        requires
            self@.wf(),
            other@.wf(),
            self@.prec == other@.prec,
        ensures
            r == (self@.comparable(other@) && !self@.eq(other@)),
    {
        self.comparable(other) && (self.lt(other) || other.lt(self))
    }

    /// Whether `self` is below `other` or equal to it.
    pub fn le(&self, other: &Float) -> (r: bool)
        requires
            self@.wf(),
            other@.wf(),
            self@.prec == other@.prec,
        ensures
            r == (self@.below(other@) || self@.eq(other@)),
    {
        self.comparable(other) && !other.lt(self)
    }

    /// Whether `self` is strictly above `other`.
    pub fn gt(&self, other: &Float) -> (r: bool)
        requires
            self@.wf(),
            other@.wf(),
            self@.prec == other@.prec,
        ensures
            r == other@.below(self@),
    {
        other.lt(self)
    }

    /// Whether `self` is above `other` or equal to it.
    pub fn ge(&self, other: &Float) -> (r: bool)
        requires
            self@.wf(),
            other@.wf(),
            self@.prec == other@.prec,
        ensures
            r == (other@.below(self@) || self@.eq(other@)),
    {
        self.comparable(other) && !self.lt(other)
    }

    /// One step from `self` towards `target`: up where `self` is below it,
    /// down where it is above, and `self` where the two are equal or cannot
    /// be ordered.
    pub fn next_toward(self, target: &Float) -> (r: Float)
        requires
            self@.wf(),
            target@.wf(),
            self@.prec == target@.prec,
        ensures
            r@ == self@.next_toward(target@),
            r@.wf(),
            r@.prec == self@.prec,
    {
        match self.partial_cmp(target) {
            None => self,
            Some(Ordering::Equal) => self,
            Some(Ordering::Less) => self.next_above(),
            Some(Ordering::Greater) => self.next_below(),
        }
    }

    /// How `self` stands to a signed integer. The integer is first brought
    /// to the precision of `self`, which rounds it where it has more bits.
    pub fn partial_cmp_i64(&self, other: i64) -> (r: Option<Ordering>)
        requires
            self@.wf(),
        ensures
            r == self@.partial_cmp(FloatView::from_i64(other).with_precision(self@.prec)),
    {
        let promoted = Float::from_i64(other).with_precision(self.precision());
        self.partial_cmp(&promoted)
    }

    /// How `self` stands to an unsigned integer. The integer is first
    /// brought to the precision of `self`, which rounds it where it has more
    /// bits.
    pub fn partial_cmp_u64(&self, other: u64) -> (r: Option<Ordering>)
        requires
            self@.wf(),
        ensures
            r == self@.partial_cmp(FloatView::from_u64(other).with_precision(self@.prec)),
    {
        let promoted = Float::from_u64(other).with_precision(self.precision());
        self.partial_cmp(&promoted)
    }

    /// Whether `self` equals a signed integer brought to its precision.
    pub fn eq_i64(&self, other: i64) -> (r: bool)
        requires
            self@.wf(),
        ensures
            r == self@.eq(FloatView::from_i64(other).with_precision(self@.prec)),
    {
        let promoted = Float::from_i64(other).with_precision(self.precision());
        self.eq(&promoted)
    }

    /// Whether `self` equals an unsigned integer brought to its precision.
    pub fn eq_u64(&self, other: u64) -> (r: bool)
        requires
            self@.wf(),
        ensures
            r == self@.eq(FloatView::from_u64(other).with_precision(self@.prec)),
    {
        let promoted = Float::from_u64(other).with_precision(self.precision());
        self.eq(&promoted)
    }
}

} // verus!
