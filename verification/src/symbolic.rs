//! Formulas as scalars.
//!
//! A [`Term`] is a number that has not been computed: each operation builds
//! the formula of its result. Running the engine over terms shows which
//! expression every value and every gradient stands for.
use vstd::prelude::*;
use crate::scalar::Scalar;
use crate::text::append;

verus! {

/// An arithmetic formula over numbered unknowns.
#[derive(Debug, PartialEq, Eq)]
pub enum Term {
    Zero,
    One,
    /// The unknown with the given number.
    Unknown(usize),
    Sum(Box<Term>, Box<Term>),
    Difference(Box<Term>, Box<Term>),
    Product(Box<Term>, Box<Term>),
    Power(Box<Term>, Box<Term>),
    Tanh(Box<Term>),
}

impl Scalar for Term {
    open spec fn zero_value() -> Self {
        Term::Zero
    }

    open spec fn one_value() -> Self {
        Term::One
    }

    open spec fn sum(self, other: Self) -> Self {
        Term::Sum(Box::new(self), Box::new(other))
    }

    open spec fn difference(self, other: Self) -> Self {
        Term::Difference(Box::new(self), Box::new(other))
    }

    open spec fn product(self, other: Self) -> Self {
        Term::Product(Box::new(self), Box::new(other))
    }

    open spec fn power(self, exponent: Self) -> Self {
        Term::Power(Box::new(self), Box::new(exponent))
    }

    open spec fn tanh_value(self) -> Self {
        Term::Tanh(Box::new(self))
    }

    fn zero() -> (r: Self) {
        Term::Zero
    }

    fn one() -> (r: Self) {
        Term::One
    }

    fn plus(&self, other: &Self) -> (r: Self) {
        Term::Sum(Box::new(self.duplicate()), Box::new(other.duplicate()))
    }

    fn minus(&self, other: &Self) -> (r: Self) {
        Term::Difference(Box::new(self.duplicate()), Box::new(other.duplicate()))
    }

    fn times(&self, other: &Self) -> (r: Self) {
        Term::Product(Box::new(self.duplicate()), Box::new(other.duplicate()))
    }

    fn powf(&self, exponent: &Self) -> (r: Self) {
        Term::Power(Box::new(self.duplicate()), Box::new(exponent.duplicate()))
    }

    fn tanh(&self) -> (r: Self) {
        Term::Tanh(Box::new(self.duplicate()))
    }

    fn duplicate(&self) -> (r: Self)
        decreases *self,
    {
        match self {
            Term::Zero => Term::Zero,
            Term::One => Term::One,
            Term::Unknown(n) => Term::Unknown(*n),
            Term::Sum(a, b) => Term::Sum(Box::new(a.duplicate()), Box::new(b.duplicate())),
            Term::Difference(a, b) => Term::Difference(
                Box::new(a.duplicate()),
                Box::new(b.duplicate()),
            ),
            Term::Product(a, b) => Term::Product(Box::new(a.duplicate()), Box::new(b.duplicate())),
            Term::Power(a, b) => Term::Power(Box::new(a.duplicate()), Box::new(b.duplicate())),
            Term::Tanh(a) => Term::Tanh(Box::new(a.duplicate())),
        }
    }

    fn render(&self) -> (r: String)
        ensures
            r@ == term_text(*self),
        decreases *self,
    {
        match self {
            Term::Zero => "0".to_owned(),
            Term::One => "1".to_owned(),
            Term::Unknown(n) => {
                let mut r = String::new();
                append(&mut r, "u");
                crate::text::append_decimal(&mut r, *n);
                assert(r@ =~= "u"@ + crate::text::decimal_text(*n as nat));
                r
            },
            Term::Sum(a, b) => crate::text::binary_label(
                a.render().as_str(),
                " + ",
                b.render().as_str(),
            ),
            Term::Difference(a, b) => crate::text::binary_label(
                a.render().as_str(),
                " - ",
                b.render().as_str(),
            ),
            Term::Product(a, b) => crate::text::binary_label(
                a.render().as_str(),
                " * ",
                b.render().as_str(),
            ),
            Term::Power(a, b) => crate::text::power_label(a.render().as_str(), b.render().as_str()),
            Term::Tanh(a) => crate::text::tanh_label(a.render().as_str()),
        }
    }
}

/// How a term is written: `0`, `1`, `u` and the decimal number of an
/// unknown, sums, differences and products in brackets around their sign,
/// a power as base, caret and exponent, and `tanh(..)`.
pub open spec fn term_text(t: Term) -> Seq<char>
    decreases t,
{
    match t {
        Term::Zero => "0"@,
        Term::One => "1"@,
        Term::Unknown(n) => "u"@ + crate::text::decimal_text(n as nat),
        Term::Sum(a, b) => crate::text::binary_text(term_text(*a), " + "@, term_text(*b)),
        Term::Difference(a, b) => crate::text::binary_text(term_text(*a), " - "@, term_text(*b)),
        Term::Product(a, b) => crate::text::binary_text(term_text(*a), " * "@, term_text(*b)),
        Term::Power(a, b) => crate::text::power_text(term_text(*a), term_text(*b)),
        Term::Tanh(a) => crate::text::tanh_text(term_text(*a)),
    }
}

} // verus!
