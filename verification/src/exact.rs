//! Exact numbers: fractions of whole numbers of any size, and the two
//! infinities.
use crate::float::{Extended, Float};
use rug::Rational;
use vstd::prelude::*;

verus! {

/// `rug::Rational`: a fraction of two whole numbers of any size.
#[verifier::external_type_specification]
#[verifier::external_body]
pub struct ExRational(Rational);

/// The real number that a fraction holds.
pub uninterp spec fn rational_value(q: Rational) -> real;

/// `Rational::from` on a whole number: the fraction with that value.
#[verifier::external_body]
fn rational_from_i16(v: i16) -> (q: Rational)
    ensures
        rational_value(q) == v as real,
{
    Rational::from(v)
}

/// `Rational::from` on a pair: the fraction `num / den`. It panics on a
/// denominator of 0, which is left out.
#[verifier::external_body]
fn rational_from_pair(num: i64, den: i64) -> (q: Rational)
    requires
        den != 0,
    ensures
        rational_value(q) == num as real / den as real,
{
    Rational::from((num, den))
}

/// `Clone::clone` of a fraction: a fraction of the same value.
#[verifier::external_body]
fn rational_clone(a: &Rational) -> (q: Rational)
    ensures
        rational_value(q) == rational_value(*a),
{
    a.clone()
}

/// `Add::add` of two fractions: their sum, exactly.
#[verifier::external_body]
fn rational_add(a: &Rational, b: &Rational) -> (q: Rational)
    ensures
        rational_value(q) == rational_value(*a) + rational_value(*b),
{
    Rational::from(a + b)
}

/// `Sub::sub` of two fractions: their difference, exactly.
#[verifier::external_body]
fn rational_sub(a: &Rational, b: &Rational) -> (q: Rational)
    ensures
        rational_value(q) == rational_value(*a) - rational_value(*b),
{
    Rational::from(a - b)
}

/// `Mul::mul` of two fractions: their product, exactly.
#[verifier::external_body]
fn rational_mul(a: &Rational, b: &Rational) -> (q: Rational)
    ensures
        rational_value(q) == rational_value(*a) * rational_value(*b),
{
    Rational::from(a * b)
}

/// `Div::div` of two fractions: their quotient, exactly. It panics on a
/// divisor of 0, which is left out.
#[verifier::external_body]
fn rational_div(a: &Rational, b: &Rational) -> (q: Rational)
    requires
        rational_value(*b) != 0real,
    ensures
        rational_value(q) == rational_value(*a) / rational_value(*b),
{
    Rational::from(a / b)
}

/// `Neg::neg` of a fraction: the fraction mirrored at 0.
#[verifier::external_body]
fn rational_neg(a: &Rational) -> (q: Rational)
    ensures
        rational_value(q) == -rational_value(*a),
{
    Rational::from(-a)
}

/// `PartialOrd::lt` of two fractions: whether the first value is below the
/// second.
#[verifier::external_body]
fn rational_lt(a: &Rational, b: &Rational) -> (below: bool)
    ensures
        below == (rational_value(*a) < rational_value(*b)),
{
    a < b
}

/// An exact number: a fraction or an infinity.
#[derive(Debug, PartialEq)]
pub enum Exact {
    /// Below every fraction.
    NegInf,
    /// A fraction.
    Finite(Rational),
    /// Above every fraction.
    PosInf,
}

impl Exact {
    /// The fraction `q`.
    pub fn from_rational(q: Rational) -> (x: Self)
        ensures
            x@ == Extended::Finite(rational_value(q)),
    {
        Exact::Finite(q)
    }

    /// The fraction `num / den`, where `den` is not 0.
    pub fn ratio(num: i64, den: i64) -> (x: Option<Self>)
        ensures
            den == 0 <==> x is None,
            den != 0 ==> x->Some_0@ == Extended::Finite(num as real / den as real),
    {
        if den == 0 {
            None
        } else {
            Some(Exact::Finite(rational_from_pair(num, den)))
        }
    }

    /// The fraction that this is, unless it is an infinity.
    pub fn to_rational(&self) -> (q: Option<Rational>)
        ensures
            self@.is_finite() <==> q is Some,
            self@.is_finite() ==> rational_value(q->Some_0) == self@.value(),
    {
        match self {
            Exact::Finite(q) => Some(rational_clone(q)),
            _ => None,
        }
    }

    /// Whether this is a fraction.
    pub fn is_finite(&self) -> (b: bool)
        ensures
            b == self@.is_finite(),
    {
        match self {
            Exact::Finite(_) => true,
            _ => false,
        }
    }
}

impl Float for Exact {
    open spec fn view(&self) -> Extended {
        match self {
            Exact::NegInf => Extended::NegInf,
            Exact::Finite(q) => Extended::Finite(rational_value(*q)),
            Exact::PosInf => Extended::PosInf,
        }
    }

    /// Exact numbers need no tolerance.
    open spec fn tolerance() -> Extended {
        Extended::Finite(0real)
    }

    fn eps() -> (e: Self) {
        Exact::Finite(rational_from_i16(0))
    }

    fn infinity() -> (inf: Self) {
        Exact::PosInf
    }

    fn from_i16(v: i16) -> (x: Self) {
        Exact::Finite(rational_from_i16(v))
    }

    fn copy(&self) -> (x: Self) {
        match self {
            Exact::NegInf => Exact::NegInf,
            Exact::Finite(q) => Exact::Finite(rational_clone(q)),
            Exact::PosInf => Exact::PosInf,
        }
    }

    fn plus(&self, rhs: &Self) -> (x: Self) {
        match (self, rhs) {
            (Exact::Finite(a), Exact::Finite(b)) => Exact::Finite(rational_add(a, b)),
            _ => Exact::PosInf,
        }
    }

    fn minus(&self, rhs: &Self) -> (x: Self) {
        match (self, rhs) {
            (Exact::Finite(a), Exact::Finite(b)) => Exact::Finite(rational_sub(a, b)),
            _ => Exact::PosInf,
        }
    }

    fn times(&self, rhs: &Self) -> (x: Self) {
        match (self, rhs) {
            (Exact::Finite(a), Exact::Finite(b)) => Exact::Finite(rational_mul(a, b)),
            _ => Exact::PosInf,
        }
    }

    fn over(&self, rhs: &Self) -> (x: Self) {
        match (self, rhs) {
            (Exact::Finite(a), Exact::Finite(b)) => Exact::Finite(rational_div(a, b)),
            _ => Exact::PosInf,
        }
    }

    fn negated(&self) -> (x: Self) {
        match self {
            Exact::NegInf => Exact::PosInf,
            Exact::Finite(q) => Exact::Finite(rational_neg(q)),
            Exact::PosInf => Exact::NegInf,
        }
    }

    fn less(&self, rhs: &Self) -> (b: bool) {
        match (self, rhs) {
            (Exact::Finite(a), Exact::Finite(b)) => rational_lt(a, b),
            (Exact::NegInf, Exact::NegInf) => false,
            (Exact::NegInf, _) => true,
            (Exact::Finite(_), Exact::PosInf) => true,
            _ => false,
        }
    }
}

} // verus!
