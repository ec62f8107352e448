use std::sync::Arc;
use vstd::prelude::*;

use crate::number::Number;

verus! {

/// An expression of one real variable.  Children are shared, read-only
/// subtrees.
#[derive(Debug)]
pub enum Elementary {
    Sin(Arc<Elementary>),
    Cos(Arc<Elementary>),
    Tan(Arc<Elementary>),
    Sec(Arc<Elementary>),
    Csc(Arc<Elementary>),
    Cot(Arc<Elementary>),
    Asin(Arc<Elementary>),
    Acos(Arc<Elementary>),
    Atan(Arc<Elementary>),
    Sinh(Arc<Elementary>),
    Cosh(Arc<Elementary>),
    Tanh(Arc<Elementary>),
    Add(Arc<Elementary>, Arc<Elementary>),
    Sub(Arc<Elementary>, Arc<Elementary>),
    Mul(Arc<Elementary>, Arc<Elementary>),
    Div(Arc<Elementary>, Arc<Elementary>),
    /// `Pow(base, exponent)`
    Pow(Arc<Elementary>, Arc<Elementary>),
    /// `Log(base, argument)`
    Log(Arc<Elementary>, Arc<Elementary>),
    Factorial(Arc<Elementary>),
    Gamma(Arc<Elementary>),
    /// `Polygamma(argument, order)`
    Polygamma(Arc<Elementary>, usize),
    Abs(Arc<Elementary>),
    /// A rational constant.
    Con(Number),
    /// Euler's number.
    E,
    /// The circle constant.
    Pi,
    /// The free variable.
    X,
}

/// Relies on `Arc::clone`: the new pointer refers to the same value.
#[verifier::external_body]
pub(crate) fn share(a: &Arc<Elementary>) -> (r: Arc<Elementary>)
    ensures
        *r == **a,
{
    Arc::clone(a)
}

/// The expression behind a shared pointer.
pub open spec fn inner(a: Arc<Elementary>) -> Elementary {
    *a
}

pub fn node(e: Elementary) -> (r: Arc<Elementary>)
    ensures
        *r == e,
{
    Arc::new(e)
}

impl Elementary {
    /// Every constant in the tree is a well-formed rational.
    pub open spec fn wf(&self) -> bool
        decreases self,
    {
        match self {
            Elementary::Sin(f) => f.wf(),
            Elementary::Cos(f) => f.wf(),
            Elementary::Tan(f) => f.wf(),
            Elementary::Sec(f) => f.wf(),
            Elementary::Csc(f) => f.wf(),
            Elementary::Cot(f) => f.wf(),
            Elementary::Asin(f) => f.wf(),
            Elementary::Acos(f) => f.wf(),
            Elementary::Atan(f) => f.wf(),
            Elementary::Sinh(f) => f.wf(),
            Elementary::Cosh(f) => f.wf(),
            Elementary::Tanh(f) => f.wf(),
            Elementary::Add(a, b) => a.wf() && b.wf(),
            Elementary::Sub(a, b) => a.wf() && b.wf(),
            Elementary::Mul(a, b) => a.wf() && b.wf(),
            Elementary::Div(a, b) => a.wf() && b.wf(),
            Elementary::Pow(a, b) => a.wf() && b.wf(),
            Elementary::Log(a, b) => a.wf() && b.wf(),
            Elementary::Factorial(f) => f.wf(),
            Elementary::Gamma(f) => f.wf(),
            Elementary::Polygamma(f, _) => f.wf(),
            Elementary::Abs(f) => f.wf(),
            Elementary::Con(c) => c.wf(),
            Elementary::E => true,
            Elementary::Pi => true,
            Elementary::X => true,
        }
    }

    /// A constant node holding the integer `i`.
    pub fn integer(i: i64) -> (r: Elementary)
        requires
            i > i64::MIN,
        ensures
            r == Elementary::Con(Number { num: i, den: 1 }),
            r.wf(),
    {
        Elementary::Con(Number::from_int(i))
    }

    /// The constant one half.
    pub fn half() -> (r: Elementary)
        ensures
            r == Elementary::Con(Number { num: 1, den: 2 }),
            r.wf(),
    {
        proof {
            reveal_with_fuel(crate::number::gcd, 3);
            assert(crate::number::gcd(1, 2) == 1);
            vstd::arithmetic::div_mod::lemma_div_basics(1);
            vstd::arithmetic::div_mod::lemma_div_basics(2);
        }
        Elementary::Con(Number { num: 1, den: 2 })
    }

    /// Structural equality.
    pub fn same(&self, o: &Elementary) -> (r: bool)
        ensures
            r == (*self == *o),
        decreases self,
    {
        match (self, o) {
            (Elementary::Sin(a), Elementary::Sin(b)) => a.same(b),
            (Elementary::Cos(a), Elementary::Cos(b)) => a.same(b),
            (Elementary::Tan(a), Elementary::Tan(b)) => a.same(b),
            (Elementary::Sec(a), Elementary::Sec(b)) => a.same(b),
            (Elementary::Csc(a), Elementary::Csc(b)) => a.same(b),
            (Elementary::Cot(a), Elementary::Cot(b)) => a.same(b),
            (Elementary::Asin(a), Elementary::Asin(b)) => a.same(b),
            (Elementary::Acos(a), Elementary::Acos(b)) => a.same(b),
            (Elementary::Atan(a), Elementary::Atan(b)) => a.same(b),
            (Elementary::Sinh(a), Elementary::Sinh(b)) => a.same(b),
            (Elementary::Cosh(a), Elementary::Cosh(b)) => a.same(b),
            (Elementary::Tanh(a), Elementary::Tanh(b)) => a.same(b),
            (Elementary::Add(a1, a2), Elementary::Add(b1, b2)) => a1.same(b1) && a2.same(b2),
            (Elementary::Sub(a1, a2), Elementary::Sub(b1, b2)) => a1.same(b1) && a2.same(b2),
            (Elementary::Mul(a1, a2), Elementary::Mul(b1, b2)) => a1.same(b1) && a2.same(b2),
            (Elementary::Div(a1, a2), Elementary::Div(b1, b2)) => a1.same(b1) && a2.same(b2),
            (Elementary::Pow(a1, a2), Elementary::Pow(b1, b2)) => a1.same(b1) && a2.same(b2),
            (Elementary::Log(a1, a2), Elementary::Log(b1, b2)) => a1.same(b1) && a2.same(b2),
            (Elementary::Factorial(a), Elementary::Factorial(b)) => a.same(b),
            (Elementary::Gamma(a), Elementary::Gamma(b)) => a.same(b),
            (Elementary::Polygamma(a, m), Elementary::Polygamma(b, n)) => *m == *n && a.same(b),
            (Elementary::Abs(a), Elementary::Abs(b)) => a.same(b),
            (Elementary::Con(c), Elementary::Con(d)) => *c == *d,
            (Elementary::E, Elementary::E) => true,
            (Elementary::Pi, Elementary::Pi) => true,
            (Elementary::X, Elementary::X) => true,
            _ => false,
        }
    }
}

impl PartialEq for Elementary {
    fn eq(&self, other: &Elementary) -> (r: bool) {
        self.same(other)
    }
}

impl vstd::std_specs::cmp::PartialEqSpecImpl for Elementary {
    open spec fn obeys_eq_spec() -> bool {
        true
    }

    open spec fn eq_spec(&self, other: &Elementary) -> bool {
        *self == *other
    }
}

impl Clone for Elementary {
    fn clone(&self) -> (r: Self)
        ensures
            r == *self,
    {
        match self {
            Elementary::Sin(a) => Elementary::Sin(share(a)),
            Elementary::Cos(a) => Elementary::Cos(share(a)),
            Elementary::Tan(a) => Elementary::Tan(share(a)),
            Elementary::Sec(a) => Elementary::Sec(share(a)),
            Elementary::Csc(a) => Elementary::Csc(share(a)),
            Elementary::Cot(a) => Elementary::Cot(share(a)),
            Elementary::Asin(a) => Elementary::Asin(share(a)),
            Elementary::Acos(a) => Elementary::Acos(share(a)),
            Elementary::Atan(a) => Elementary::Atan(share(a)),
            Elementary::Sinh(a) => Elementary::Sinh(share(a)),
            Elementary::Cosh(a) => Elementary::Cosh(share(a)),
            Elementary::Tanh(a) => Elementary::Tanh(share(a)),
            Elementary::Add(a, b) => Elementary::Add(share(a), share(b)),
            Elementary::Sub(a, b) => Elementary::Sub(share(a), share(b)),
            Elementary::Mul(a, b) => Elementary::Mul(share(a), share(b)),
            Elementary::Div(a, b) => Elementary::Div(share(a), share(b)),
            Elementary::Pow(a, b) => Elementary::Pow(share(a), share(b)),
            Elementary::Log(a, b) => Elementary::Log(share(a), share(b)),
            Elementary::Factorial(a) => Elementary::Factorial(share(a)),
            Elementary::Gamma(a) => Elementary::Gamma(share(a)),
            Elementary::Polygamma(a, m) => Elementary::Polygamma(share(a), *m),
            Elementary::Abs(a) => Elementary::Abs(share(a)),
            Elementary::Con(c) => Elementary::Con(*c),
            Elementary::E => Elementary::E,
            Elementary::Pi => Elementary::Pi,
            Elementary::X => Elementary::X,
        }
    }
}

} // verus!
