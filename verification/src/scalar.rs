//! The numbers the engine computes with.
use vstd::prelude::*;

verus! {

/// A number type with the arithmetic the engine needs.
///
/// Every operation comes as a pair: a specification function that names the
/// mathematical result, and an executable method that must return exactly
/// that result. The engine's contracts are stated over the specification
/// functions, so they hold for any implementation whose operations are
/// functions of their arguments alone.
pub trait Scalar: Sized {
    /// The additive identity.
    spec fn zero_value() -> Self;

    /// The multiplicative identity.
    spec fn one_value() -> Self;

    /// `self + other`.
    spec fn sum(self, other: Self) -> Self;

    /// `self - other`.
    spec fn difference(self, other: Self) -> Self;

    /// `self * other`.
    spec fn product(self, other: Self) -> Self;

    /// `self` raised to `exponent`.
    spec fn power(self, exponent: Self) -> Self;

    /// The hyperbolic tangent of `self`.
    spec fn tanh_value(self) -> Self;

    fn zero() -> (r: Self)
        ensures
            r == Self::zero_value(),
    ;

    fn one() -> (r: Self)
        ensures
            r == Self::one_value(),
    ;

    fn plus(&self, other: &Self) -> (r: Self)
        ensures
            r == self.sum(*other),
    ;

    fn minus(&self, other: &Self) -> (r: Self)
        ensures
            r == self.difference(*other),
    ;

    fn times(&self, other: &Self) -> (r: Self)
        ensures
            r == self.product(*other),
    ;

    fn powf(&self, exponent: &Self) -> (r: Self)
        ensures
            r == self.power(*exponent),
    ;

    fn tanh(&self) -> (r: Self)
        ensures
            r == self.tanh_value(),
    ;

    /// A copy of `self`.
    fn duplicate(&self) -> (r: Self)
        ensures
            r == *self,
    ;

    /// `self` as it is written in a label. Nothing is required of the
    /// text.
    fn render(&self) -> String;
}

} // verus!
