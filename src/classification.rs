use vstd::prelude::*;

use crate::expr::Elementary;

verus! {

/// The coarse shape of an expression, which selects a simplification
/// strategy.
#[derive(PartialEq, Eq, Structural, Clone, Copy, Debug)]
pub enum Category {
    Constant,
    Exponential,
    Polynomial,
    Trigonometric,
    Unclassified,
}

/// No occurrence of the free variable.
pub open spec fn constant_spec(e: Elementary) -> bool
    decreases e,
{
    match e {
        Elementary::Sin(f) => constant_spec(*f),
        Elementary::Cos(f) => constant_spec(*f),
        Elementary::Tan(f) => constant_spec(*f),
        Elementary::Sec(f) => constant_spec(*f),
        Elementary::Csc(f) => constant_spec(*f),
        Elementary::Cot(f) => constant_spec(*f),
        Elementary::Asin(f) => constant_spec(*f),
        Elementary::Acos(f) => constant_spec(*f),
        Elementary::Atan(f) => constant_spec(*f),
        Elementary::Sinh(f) => constant_spec(*f),
        Elementary::Cosh(f) => constant_spec(*f),
        Elementary::Tanh(f) => constant_spec(*f),
        Elementary::Add(a, b) => constant_spec(*a) && constant_spec(*b),
        Elementary::Sub(a, b) => constant_spec(*a) && constant_spec(*b),
        Elementary::Mul(a, b) => constant_spec(*a) && constant_spec(*b),
        Elementary::Div(a, b) => constant_spec(*a) && constant_spec(*b),
        Elementary::Pow(a, b) => constant_spec(*a) && constant_spec(*b),
        Elementary::Log(a, b) => constant_spec(*a) && constant_spec(*b),
        Elementary::Factorial(f) => constant_spec(*f),
        Elementary::Gamma(f) => constant_spec(*f),
        Elementary::Polygamma(f, _) => constant_spec(*f),
        Elementary::Abs(f) => constant_spec(*f),
        Elementary::Con(_) => true,
        Elementary::E => true,
        Elementary::Pi => true,
        Elementary::X => false,
    }
}

/// `c * x`, `x * c` (nested), or `x` itself.
pub open spec fn linear_spec(e: Elementary) -> bool
    decreases e,
{
    match e {
        Elementary::X => true,
        Elementary::Mul(a, b) => (constant_spec(*a) && linear_spec(*b)) || (constant_spec(*b)
            && linear_spec(*a)),
        _ => false,
    }
}

/// A constant node holding an integer.
pub open spec fn digit_spec(e: Elementary) -> bool {
    match e {
        Elementary::Con(c) => c.den == 1,
        _ => false,
    }
}

/// `a^(linear)` with a constant base, or such a term times constants.
pub open spec fn exponential_spec(e: Elementary) -> bool
    decreases e,
{
    match e {
        Elementary::Pow(base, exp) => constant_spec(*base) && linear_spec(*exp),
        Elementary::Mul(a, b) => (exponential_spec(*a) && constant_spec(*b)) || (constant_spec(*a)
            && exponential_spec(*b)),
        _ => false,
    }
}

/// Built from `x` and rational constants by `+`, `-`, `*`, powers with a
/// non-negative integer exponent, and division by a constant.
pub open spec fn polynomial_spec(e: Elementary) -> bool
    decreases e,
{
    match e {
        Elementary::X => true,
        Elementary::Con(_) => true,
        Elementary::Add(a, b) => polynomial_spec(*a) && polynomial_spec(*b),
        Elementary::Sub(a, b) => polynomial_spec(*a) && polynomial_spec(*b),
        Elementary::Mul(a, b) => polynomial_spec(*a) && polynomial_spec(*b),
        Elementary::Pow(a, b) => polynomial_spec(*a) && match *b {
            Elementary::Con(c) => c.den == 1 && c.num >= 0,
            _ => false,
        },
        Elementary::Div(a, b) => polynomial_spec(*a) && constant_spec(*b),
        _ => false,
    }
}

pub open spec fn is_trig_function(e: Elementary) -> bool {
    match e {
        Elementary::Sin(_) | Elementary::Cos(_) | Elementary::Tan(_) | Elementary::Sec(_)
        | Elementary::Csc(_) | Elementary::Cot(_) | Elementary::Asin(_) | Elementary::Acos(_)
        | Elementary::Atan(_) | Elementary::Sinh(_) | Elementary::Cosh(_) | Elementary::Tanh(
            _,
        ) => true,
        _ => false,
    }
}

/// Trigonometric, hyperbolic and arcus functions, combined by `+`, `-`,
/// by `*` and `/` with each other or with constants, raised to constant
/// powers, or under a logarithm with a constant base.
pub open spec fn trig_spec(e: Elementary) -> bool
    decreases e,
{
    match e {
        Elementary::Add(a, b) => trig_spec(*a) && trig_spec(*b),
        Elementary::Sub(a, b) => trig_spec(*a) && trig_spec(*b),
        Elementary::Mul(a, b) => (trig_spec(*a) && trig_spec(*b)) || (trig_spec(*a)
            && constant_spec(*b)) || (trig_spec(*b) && constant_spec(*a)),
        Elementary::Div(a, b) => (trig_spec(*a) && trig_spec(*b)) || (trig_spec(*a)
            && constant_spec(*b)) || (trig_spec(*b) && constant_spec(*a)),
        Elementary::Pow(a, b) => trig_spec(*a) && constant_spec(*b),
        Elementary::Log(a, b) => constant_spec(*a) && trig_spec(*b),
        _ => is_trig_function(e),
    }
}

/// The first category that applies, in the order constant, exponential,
/// polynomial, trigonometric.
pub open spec fn category_of(e: Elementary) -> Category {
    if constant_spec(e) {
        Category::Constant
    } else if exponential_spec(e) {
        Category::Exponential
    } else if polynomial_spec(e) {
        Category::Polynomial
    } else if trig_spec(e) {
        Category::Trigonometric
    } else {
        Category::Unclassified
    }
}

impl Elementary {
    pub fn classify(&self) -> (r: Category)
        ensures
            r == category_of(*self),
    {
        if self.is_constant() {
            Category::Constant
        } else if self.is_exponential() {
            Category::Exponential
        } else if self.is_polynomial() {
            Category::Polynomial
        } else if self.is_trig() {
            Category::Trigonometric
        } else {
            Category::Unclassified
        }
    }

    pub fn is_constant(&self) -> (r: bool)
        ensures
            r == constant_spec(*self),
        decreases self,
    {
        match self {
            Elementary::Sin(f) => f.is_constant(),
            Elementary::Cos(f) => f.is_constant(),
            Elementary::Tan(f) => f.is_constant(),
            Elementary::Sec(f) => f.is_constant(),
            Elementary::Csc(f) => f.is_constant(),
            Elementary::Cot(f) => f.is_constant(),
            Elementary::Asin(f) => f.is_constant(),
            Elementary::Acos(f) => f.is_constant(),
            Elementary::Atan(f) => f.is_constant(),
            Elementary::Sinh(f) => f.is_constant(),
            Elementary::Cosh(f) => f.is_constant(),
            Elementary::Tanh(f) => f.is_constant(),
            Elementary::Add(a, b) => a.is_constant() && b.is_constant(),
            Elementary::Sub(a, b) => a.is_constant() && b.is_constant(),
            Elementary::Mul(a, b) => a.is_constant() && b.is_constant(),
            Elementary::Div(a, b) => a.is_constant() && b.is_constant(),
            Elementary::Pow(a, b) => a.is_constant() && b.is_constant(),
            Elementary::Log(a, b) => a.is_constant() && b.is_constant(),
            Elementary::Factorial(f) => f.is_constant(),
            Elementary::Gamma(f) => f.is_constant(),
            Elementary::Polygamma(f, _) => f.is_constant(),
            Elementary::Abs(f) => f.is_constant(),
            Elementary::Con(_) => true,
            Elementary::E => true,
            Elementary::Pi => true,
            Elementary::X => false,
        }
    }

    pub fn is_linear(&self) -> (r: bool)
        ensures
            r == linear_spec(*self),
        decreases self,
    {
        match self {
            Elementary::X => true,
            Elementary::Mul(a, b) => (a.is_constant() && b.is_linear()) || (b.is_constant()
                && a.is_linear()),
            _ => false,
        }
    }

    pub fn is_digit(&self) -> (r: bool)
        ensures
            r == digit_spec(*self),
    {
        match self {
            Elementary::Con(c) => c.is_integer(),
            _ => false,
        }
    }

    pub fn is_exponential(&self) -> (r: bool)
        ensures
            r == exponential_spec(*self),
        decreases self,
    {
        match self {
            Elementary::Pow(base, exp) => base.is_constant() && exp.is_linear(),
            Elementary::Mul(a, b) => (a.is_exponential() && b.is_constant()) || (a.is_constant()
                && b.is_exponential()),
            _ => false,
        }
    }

    pub fn is_polynomial(&self) -> (r: bool)
        ensures
            r == polynomial_spec(*self),
        decreases self,
    {
        match self {
            Elementary::X => true,
            Elementary::Con(_) => true,
            Elementary::Add(a, b) => a.is_polynomial() && b.is_polynomial(),
            Elementary::Sub(a, b) => a.is_polynomial() && b.is_polynomial(),
            Elementary::Mul(a, b) => a.is_polynomial() && b.is_polynomial(),
            Elementary::Pow(a, b) => a.is_polynomial() && match &**b {
                Elementary::Con(c) => c.den == 1 && c.num >= 0,
                _ => false,
            },
            Elementary::Div(a, b) => a.is_polynomial() && b.is_constant(),
            _ => false,
        }
    }

    pub fn is_trig(&self) -> (r: bool)
        ensures
            r == trig_spec(*self),
        decreases self,
    {
        match self {
            Elementary::Add(a, b) => a.is_trig() && b.is_trig(),
            Elementary::Sub(a, b) => a.is_trig() && b.is_trig(),
            Elementary::Mul(a, b) => (a.is_trig() && b.is_trig()) || (a.is_trig()
                && b.is_constant()) || (b.is_trig() && a.is_constant()),
            Elementary::Div(a, b) => (a.is_trig() && b.is_trig()) || (a.is_trig()
                && b.is_constant()) || (b.is_trig() && a.is_constant()),
            Elementary::Pow(a, b) => a.is_trig() && b.is_constant(),
            Elementary::Log(a, b) => a.is_constant() && b.is_trig(),
            Elementary::Sin(_) | Elementary::Cos(_) | Elementary::Tan(_) | Elementary::Sec(_)
            | Elementary::Csc(_) | Elementary::Cot(_) | Elementary::Asin(_) | Elementary::Acos(_)
            | Elementary::Atan(_) | Elementary::Sinh(_) | Elementary::Cosh(_) | Elementary::Tanh(
                _,
            ) => true,
            _ => false,
        }
    }
}

} // verus!
