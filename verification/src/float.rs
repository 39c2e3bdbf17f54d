//! The numbers that the solver computes with: an ordered field with a
//! tolerance and two infinities.
use vstd::prelude::*;

verus! {

/// A real number, or one of the two infinities.
pub enum Extended {
    /// Below every real number.
    NegInf,
    /// A real number.
    Finite(real),
    /// Above every real number.
    PosInf,
}

impl Extended {
    /// Whether this is a real number.
    pub open spec fn is_finite(self) -> bool {
        self is Finite
    }

    /// The real number that this is; 0 stands in for the infinities.
    pub open spec fn value(self) -> real {
        match self {
            Extended::Finite(v) => v,
            _ => 0real,
        }
    }

    /// Strictly below `other`.
    pub open spec fn lt(self, other: Extended) -> bool {
        match (self, other) {
            (Extended::Finite(a), Extended::Finite(b)) => a < b,
            (Extended::NegInf, Extended::NegInf) => false,
            (Extended::NegInf, _) => true,
            (Extended::Finite(_), Extended::PosInf) => true,
            _ => false,
        }
    }

    /// Below `other` or equal to it.
    pub open spec fn le(self, other: Extended) -> bool {
        !other.lt(self)
    }

    /// The number mirrored at 0.
    pub open spec fn neg(self) -> Extended {
        match self {
            Extended::NegInf => Extended::PosInf,
            Extended::Finite(v) => Extended::Finite(-v),
            Extended::PosInf => Extended::NegInf,
        }
    }

    /// The distance from 0.
    pub open spec fn abs(self) -> Extended {
        if self.lt(Extended::Finite(0real)) {
            self.neg()
        } else {
            self
        }
    }

    /// The smaller of the two.
    pub open spec fn min(self, other: Extended) -> Extended {
        if self.lt(other) {
            self
        } else {
            other
        }
    }

    /// The number of `[min, max]` next to this one.
    pub open spec fn clip(self, min: Extended, max: Extended) -> Extended {
        let low = if self.lt(min) {
            min
        } else {
            self
        };
        if max.lt(low) {
            max
        } else {
            low
        }
    }
}

/// All that the fused lasso needs of its numbers.
///
/// A value stands for a real number or an infinity, its view. Sums,
/// differences, products and quotients of real numbers are exact.
pub trait Float: Sized {
    /// The number that the value stands for.
    spec fn view(&self) -> Extended;

    /// The tolerance: a slope within it of 0 counts as flat.
    spec fn tolerance() -> Extended;

    /// The tolerance, a real number that is not negative.
    fn eps() -> (e: Self)
        ensures
            e@ == Self::tolerance(),
            Self::tolerance().is_finite(),
            Self::tolerance().value() >= 0real,
    ;

    /// Above every real number.
    fn infinity() -> (inf: Self)
        ensures
            inf@ == Extended::PosInf,
    ;

    /// The whole number `v`.
    fn from_i16(v: i16) -> (x: Self)
        ensures
            x@ == Extended::Finite(v as real),
    ;

    /// The same number once more.
    fn copy(&self) -> (x: Self)
        ensures
            x@ == self@,
    ;

    /// The sum of two real numbers.
    fn plus(&self, rhs: &Self) -> (x: Self)
        requires
            self@.is_finite(),
            rhs@.is_finite(),
        ensures
            x@ == Extended::Finite(self@.value() + rhs@.value()),
    ;

    /// The difference of two real numbers.
    fn minus(&self, rhs: &Self) -> (x: Self)
        requires
            self@.is_finite(),
            rhs@.is_finite(),
        ensures
            x@ == Extended::Finite(self@.value() - rhs@.value()),
    ;

    /// The product of two real numbers.
    fn times(&self, rhs: &Self) -> (x: Self)
        requires
            self@.is_finite(),
            rhs@.is_finite(),
        ensures
            x@ == Extended::Finite(self@.value() * rhs@.value()),
    ;

    /// The quotient of two real numbers, the second of them not 0.
    fn over(&self, rhs: &Self) -> (x: Self)
        requires
            self@.is_finite(),
            rhs@.is_finite(),
            rhs@.value() != 0real,
        ensures
            x@ == Extended::Finite(self@.value() / rhs@.value()),
    ;

    /// The number mirrored at 0.
    fn negated(&self) -> (x: Self)
        ensures
            x@ == self@.neg(),
    ;

    /// Whether the number is strictly below `rhs`.
    fn less(&self, rhs: &Self) -> (b: bool)
        ensures
            b == self@.lt(rhs@),
    ;

    /// The distance from 0.
    fn abs(&self) -> (x: Self)
        ensures
            x@ == self@.abs(),
    {
        let zero = Self::from_i16(0);
        if self.less(&zero) {
            self.negated()
        } else {
            self.copy()
        }
    }

    /// The number of `[min, max]` next to this one.
    fn clip(&self, min: &Self, max: &Self) -> (x: Self)
        ensures
            x@ == self@.clip(min@, max@),
    {
        let low = if self.less(min) {
            min.copy()
        } else {
            self.copy()
        };
        if max.less(&low) {
            max.copy()
        } else {
            low
        }
    }

    /// The smaller of the two.
    fn min(&self, other: &Self) -> (x: Self)
        ensures
            x@ == self@.min(other@),
    {
        if self.less(other) {
            self.copy()
        } else {
            other.copy()
        }
    }
}

} // verus!
