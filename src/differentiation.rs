use std::sync::Arc;
use vstd::prelude::*;

use crate::expr::{inner, node, share, Elementary};
use crate::number::Number;

verus! {

pub open spec fn rc(e: Elementary) -> Arc<Elementary> {
    Arc::new(e)
}

/// The integer constant `i`.
pub open spec fn cint(i: int) -> Elementary {
    Elementary::Con(Number { num: i as i64, den: 1 })
}

pub open spec fn chalf() -> Elementary {
    Elementary::Con(Number { num: 1, den: 2 })
}

/// The product `a * b`, where a constant factor one is dropped and a
/// constant factor zero absorbs the other (the left factor is examined first).
pub open spec fn times(a: Elementary, b: Elementary) -> Elementary {
    match a {
        Elementary::Con(n) => if n.num == 1 && n.den == 1 {
            b
        } else if n.num == 0 {
            a
        } else {
            Elementary::Mul(rc(a), rc(b))
        },
        _ => match b {
            Elementary::Con(n) => if n.num == 1 && n.den == 1 {
                a
            } else if n.num == 0 {
                b
            } else {
                Elementary::Mul(rc(a), rc(b))
            },
            _ => Elementary::Mul(rc(a), rc(b)),
        },
    }
}

/// The sum `a + b`, where a constant term zero is dropped (the left term is
/// examined first).
pub open spec fn plus(a: Elementary, b: Elementary) -> Elementary {
    match a {
        Elementary::Con(n) => if n.num == 0 {
            b
        } else {
            Elementary::Add(rc(a), rc(b))
        },
        _ => match b {
            Elementary::Con(n) => if n.num == 0 {
                a
            } else {
                Elementary::Add(rc(a), rc(b))
            },
            _ => Elementary::Add(rc(a), rc(b)),
        },
    }
}

/// `ln(f)`, the logarithm to base e.
pub open spec fn ln_of(f: Elementary) -> Elementary {
    Elementary::Log(rc(Elementary::E), rc(f))
}

pub open spec fn squared(f: Elementary) -> Elementary {
    Elementary::Pow(rc(f), rc(cint(2)))
}

/// `sqrt(1 - f^2)`
pub open spec fn sqrt_one_minus_square(f: Elementary) -> Elementary {
    Elementary::Pow(rc(Elementary::Sub(rc(cint(1)), rc(squared(f)))), rc(chalf()))
}

/// The derivative with respect to the free variable, by the rules of
/// calculus, without any simplification.
pub open spec fn derivative_tree(e: Elementary) -> Elementary
    decreases e,
{
    match e {
        Elementary::Sin(f) => Elementary::Mul(rc(Elementary::Cos(f)), rc(derivative_tree(*f))),
        Elementary::Cos(f) => Elementary::Mul(
            rc(Elementary::Mul(rc(Elementary::Sin(f)), rc(cint(-1)))),
            rc(derivative_tree(*f)),
        ),
        Elementary::Tan(f) => Elementary::Mul(
            rc(Elementary::Div(rc(cint(1)), rc(squared(Elementary::Cos(f))))),
            rc(derivative_tree(*f)),
        ),
        Elementary::Sec(f) => times(
            times(derivative_tree(*f), Elementary::Tan(f)),
            Elementary::Sec(f),
        ),
        Elementary::Csc(f) => Elementary::Mul(
            rc(times(times(derivative_tree(*f), Elementary::Cot(f)), Elementary::Csc(f))),
            rc(cint(-1)),
        ),
        Elementary::Cot(f) => times(
            Elementary::Mul(rc(derivative_tree(*f)), rc(cint(-1))),
            squared(Elementary::Csc(f)),
        ),
        Elementary::Asin(f) => Elementary::Div(
            rc(derivative_tree(*f)),
            rc(sqrt_one_minus_square(*f)),
        ),
        Elementary::Acos(f) => Elementary::Mul(
            rc(Elementary::Div(rc(derivative_tree(*f)), rc(sqrt_one_minus_square(*f)))),
            rc(cint(-1)),
        ),
        Elementary::Atan(f) => Elementary::Div(
            rc(derivative_tree(*f)),
            rc(Elementary::Add(rc(squared(*f)), rc(cint(1)))),
        ),
        Elementary::Sinh(f) => Elementary::Mul(rc(Elementary::Cosh(f)), rc(derivative_tree(*f))),
        Elementary::Cosh(f) => Elementary::Mul(rc(Elementary::Sinh(f)), rc(derivative_tree(*f))),
        Elementary::Tanh(f) => Elementary::Div(
            rc(derivative_tree(*f)),
            rc(squared(Elementary::Cosh(f))),
        ),
        Elementary::Add(a, b) => Elementary::Add(rc(derivative_tree(*a)), rc(derivative_tree(*b))),
        Elementary::Sub(a, b) => Elementary::Sub(rc(derivative_tree(*a)), rc(derivative_tree(*b))),
        Elementary::Mul(a, b) => Elementary::Add(
            rc(Elementary::Mul(rc(derivative_tree(*a)), b)),
            rc(Elementary::Mul(rc(derivative_tree(*b)), a)),
        ),
        Elementary::Div(a, b) => Elementary::Div(
            rc(
                Elementary::Sub(
                    rc(Elementary::Mul(rc(derivative_tree(*a)), b)),
                    rc(Elementary::Mul(rc(derivative_tree(*b)), a)),
                ),
            ),
            rc(squared(*b)),
        ),
        Elementary::Pow(a, b) => Elementary::Mul(
            rc(Elementary::Pow(a, rc(Elementary::Sub(b, rc(cint(1)))))),
            rc(
                Elementary::Add(
                    rc(Elementary::Mul(b, rc(derivative_tree(*a)))),
                    rc(
                        Elementary::Mul(
                            a,
                            rc(Elementary::Mul(rc(ln_of(*a)), rc(derivative_tree(*b)))),
                        ),
                    ),
                ),
            ),
        ),
        Elementary::Log(a, b) => Elementary::Div(
            rc(
                Elementary::Sub(
                    rc(
                        Elementary::Div(
                            rc(Elementary::Mul(rc(ln_of(*a)), rc(derivative_tree(*b)))),
                            b,
                        ),
                    ),
                    rc(
                        Elementary::Div(
                            rc(Elementary::Mul(rc(ln_of(*b)), rc(derivative_tree(*a)))),
                            a,
                        ),
                    ),
                ),
            ),
            rc(squared(ln_of(*a))),
        ),
        Elementary::Factorial(f) => times(
            times(derivative_tree(*f), Elementary::Factorial(f)),
            Elementary::Polygamma(rc(plus(*f, cint(1))), 0),
        ),
        Elementary::Gamma(f) => times(
            times(derivative_tree(*f), Elementary::Gamma(f)),
            Elementary::Polygamma(f, 0),
        ),
        Elementary::Polygamma(f, m) => times(
            derivative_tree(*f),
            Elementary::Polygamma(f, next_order(m)),
        ),
        Elementary::Abs(f) => Elementary::Div(
            rc(Elementary::Mul(f, rc(derivative_tree(*f)))),
            rc(Elementary::Abs(f)),
        ),
        Elementary::Con(_) => cint(0),
        Elementary::E => cint(0),
        Elementary::Pi => cint(0),
        Elementary::X => cint(1),
    }
}

/// The order of the next polygamma function; the order saturates at the
/// largest `usize`.
pub open spec fn next_order(m: usize) -> usize {
    if m < usize::MAX {
        (m + 1) as usize
    } else {
        m
    }
}

pub proof fn lemma_times_wf(a: Elementary, b: Elementary)
    requires
        a.wf(),
        b.wf(),
    ensures
        times(a, b).wf(),
{
}

pub proof fn lemma_plus_wf(a: Elementary, b: Elementary)
    requires
        a.wf(),
        b.wf(),
    ensures
        plus(a, b).wf(),
{
}

pub proof fn lemma_cint_wf(i: int)
    requires
        -0x7fff_ffff_ffff_ffff <= i <= 0x7fff_ffff_ffff_ffff,
    ensures
        cint(i).wf(),
{
    crate::number::lemma_gcd_one(crate::number::abs_int(i));
    vstd::arithmetic::div_mod::lemma_div_basics(crate::number::abs_int(i) as int);
    vstd::arithmetic::div_mod::lemma_div_basics(1);
    assert(crate::number::reduce(i, 1) == crate::number::Ratio { n: i, d: 1 });
}

proof fn lemma_chalf_wf()
    ensures
        chalf().wf(),
{
    reveal_with_fuel(crate::number::gcd, 3);
    assert(crate::number::gcd(1, 2) == 1);
    vstd::arithmetic::div_mod::lemma_div_basics(1);
    vstd::arithmetic::div_mod::lemma_div_basics(2);
}

proof fn lemma_unary_parts_wf(f: Arc<Elementary>)
    requires
        f.wf(),
        derivative_tree(inner(f)).wf(),
    ensures
        ({
            let d = derivative_tree(inner(f));
            &&& Elementary::Mul(rc(Elementary::Cos(f)), rc(d)).wf()
            &&& Elementary::Mul(rc(Elementary::Mul(rc(Elementary::Sin(f)), rc(cint(-1)))), rc(d)).wf()
            &&& Elementary::Mul(
                rc(Elementary::Div(rc(cint(1)), rc(squared(Elementary::Cos(f))))),
                rc(d),
            ).wf()
            &&& Elementary::Mul(rc(Elementary::Cosh(f)), rc(d)).wf()
            &&& Elementary::Mul(rc(Elementary::Sinh(f)), rc(d)).wf()
            &&& Elementary::Div(rc(d), rc(squared(Elementary::Cosh(f)))).wf()
            &&& Elementary::Div(rc(d), rc(sqrt_one_minus_square(inner(f)))).wf()
            &&& Elementary::Mul(
                rc(Elementary::Div(rc(d), rc(sqrt_one_minus_square(inner(f))))),
                rc(cint(-1)),
            ).wf()
            &&& Elementary::Div(rc(d), rc(Elementary::Add(rc(squared(inner(f))), rc(cint(1))))).wf()
            &&& Elementary::Div(rc(Elementary::Mul(f, rc(d))), rc(Elementary::Abs(f))).wf()
        }),
{
    lemma_cint_wf(-1);
    lemma_cint_wf(1);
    lemma_cint_wf(2);
    lemma_chalf_wf();
    let d = derivative_tree(inner(f));
    assert(Elementary::Cos(f).wf());
    assert(Elementary::Cosh(f).wf());
    assert(Elementary::Sin(f).wf());
    assert(Elementary::Sinh(f).wf());
    assert(Elementary::Abs(f).wf());
    assert(squared(inner(f)).wf());
    assert(squared(Elementary::Cos(f)).wf());
    assert(squared(Elementary::Cosh(f)).wf());
    assert(Elementary::Sub(rc(cint(1)), rc(squared(inner(f)))).wf());
    assert(sqrt_one_minus_square(inner(f)).wf());
    assert(Elementary::Mul(rc(Elementary::Sin(f)), rc(cint(-1))).wf());
    assert(Elementary::Div(rc(cint(1)), rc(squared(Elementary::Cos(f)))).wf());
    assert(Elementary::Div(rc(d), rc(sqrt_one_minus_square(inner(f)))).wf());
    assert(Elementary::Add(rc(squared(inner(f))), rc(cint(1))).wf());
    assert(Elementary::Mul(f, rc(d)).wf());
}

proof fn lemma_binary_parts_wf(a: Arc<Elementary>, b: Arc<Elementary>)
    requires
        a.wf(),
        b.wf(),
        derivative_tree(inner(a)).wf(),
        derivative_tree(inner(b)).wf(),
    ensures
        derivative_tree(Elementary::Add(a, b)).wf(),
        derivative_tree(Elementary::Sub(a, b)).wf(),
        derivative_tree(Elementary::Mul(a, b)).wf(),
        derivative_tree(Elementary::Div(a, b)).wf(),
        derivative_tree(Elementary::Pow(a, b)).wf(),
        derivative_tree(Elementary::Log(a, b)).wf(),
{
    lemma_cint_wf(1);
    lemma_cint_wf(2);
    assert(Elementary::E.wf());
    let da = derivative_tree(inner(a));
    let db = derivative_tree(inner(b));
    let ma = Elementary::Mul(rc(da), b);
    let mb = Elementary::Mul(rc(db), a);
    assert(ma.wf());
    assert(mb.wf());
    assert(Elementary::Sub(rc(ma), rc(mb)).wf());
    assert(squared(inner(b)).wf());
    let la = ln_of(inner(a));
    let lb = ln_of(inner(b));
    assert(la.wf());
    assert(lb.wf());
    assert(squared(la).wf());
    assert(Elementary::Sub(b, rc(cint(1))).wf());
    assert(Elementary::Pow(a, rc(Elementary::Sub(b, rc(cint(1))))).wf());
    let g = Elementary::Mul(rc(la), rc(db));
    assert(g.wf());
    assert(Elementary::Mul(a, rc(g)).wf());
    assert(Elementary::Mul(b, rc(da)).wf());
    assert(Elementary::Add(rc(Elementary::Mul(b, rc(da))), rc(Elementary::Mul(a, rc(g)))).wf());
    let h = Elementary::Mul(rc(lb), rc(da));
    assert(h.wf());
    assert(Elementary::Div(rc(g), b).wf());
    assert(Elementary::Div(rc(h), a).wf());
    assert(Elementary::Sub(rc(Elementary::Div(rc(g), b)), rc(Elementary::Div(rc(h), a))).wf());
}

/// Differentiation keeps every constant well formed.
#[verifier::spinoff_prover]
#[verifier::rlimit(60)]
pub proof fn lemma_derivative_wf(e: Elementary)
    requires
        e.wf(),
    ensures
        derivative_tree(e).wf(),
    decreases e,
{
    lemma_cint_wf(-1);
    lemma_cint_wf(0);
    lemma_cint_wf(1);
    lemma_cint_wf(2);
    lemma_chalf_wf();
    assert(Elementary::E.wf());
    match e {
        Elementary::Sin(f) => {
            lemma_derivative_wf(inner(f));
            lemma_unary_parts_wf(f);
            assert(derivative_tree(e) == Elementary::Mul(
                rc(Elementary::Cos(f)),
                rc(derivative_tree(inner(f))),
            ));
        },
        Elementary::Cos(f) => {
            lemma_derivative_wf(inner(f));
            lemma_unary_parts_wf(f);
        },
        Elementary::Tan(f) => {
            lemma_derivative_wf(inner(f));
            lemma_unary_parts_wf(f);
        },
        Elementary::Sinh(f) => {
            lemma_derivative_wf(inner(f));
            lemma_unary_parts_wf(f);
        },
        Elementary::Cosh(f) => {
            lemma_derivative_wf(inner(f));
            lemma_unary_parts_wf(f);
        },
        Elementary::Tanh(f) => {
            lemma_derivative_wf(inner(f));
            lemma_unary_parts_wf(f);
        },
        Elementary::Asin(f) => {
            lemma_derivative_wf(inner(f));
            lemma_unary_parts_wf(f);
        },
        Elementary::Acos(f) => {
            lemma_derivative_wf(inner(f));
            lemma_unary_parts_wf(f);
        },
        Elementary::Atan(f) => {
            lemma_derivative_wf(inner(f));
            lemma_unary_parts_wf(f);
        },
        Elementary::Abs(f) => {
            lemma_derivative_wf(inner(f));
            lemma_unary_parts_wf(f);
        },
        Elementary::Sec(f) | Elementary::Csc(f) | Elementary::Cot(f) => {
            lemma_derivative_wf(inner(f));
            let d = derivative_tree(inner(f));
            lemma_times_wf(d, Elementary::Tan(f));
            lemma_times_wf(times(d, Elementary::Tan(f)), Elementary::Sec(f));
            lemma_times_wf(d, Elementary::Cot(f));
            lemma_times_wf(times(d, Elementary::Cot(f)), Elementary::Csc(f));
            assert(Elementary::Csc(f).wf());
            assert(squared(Elementary::Csc(f)).wf());
            lemma_times_wf(Elementary::Mul(rc(d), rc(cint(-1))), squared(Elementary::Csc(f)));
        },
        Elementary::Factorial(f) | Elementary::Gamma(f) => {
            lemma_derivative_wf(inner(f));
            let d = derivative_tree(inner(f));
            lemma_times_wf(d, Elementary::Factorial(f));
            lemma_times_wf(d, Elementary::Gamma(f));
            lemma_plus_wf(inner(f), cint(1));
            lemma_times_wf(
                times(d, Elementary::Factorial(f)),
                Elementary::Polygamma(rc(plus(inner(f), cint(1))), 0),
            );
            lemma_times_wf(times(d, Elementary::Gamma(f)), Elementary::Polygamma(f, 0));
        },
        Elementary::Polygamma(f, m) => {
            lemma_derivative_wf(inner(f));
            lemma_times_wf(derivative_tree(inner(f)), Elementary::Polygamma(f, next_order(m)));
        },
        Elementary::Add(a, b) => {
            lemma_derivative_wf(inner(a));
            lemma_derivative_wf(inner(b));
            lemma_binary_parts_wf(a, b);
        },
        Elementary::Sub(a, b) => {
            lemma_derivative_wf(inner(a));
            lemma_derivative_wf(inner(b));
            lemma_binary_parts_wf(a, b);
        },
        Elementary::Mul(a, b) => {
            lemma_derivative_wf(inner(a));
            lemma_derivative_wf(inner(b));
            lemma_binary_parts_wf(a, b);
        },
        Elementary::Div(a, b) => {
            lemma_derivative_wf(inner(a));
            lemma_derivative_wf(inner(b));
            lemma_binary_parts_wf(a, b);
        },
        Elementary::Pow(a, b) => {
            lemma_derivative_wf(inner(a));
            lemma_derivative_wf(inner(b));
            lemma_binary_parts_wf(a, b);
        },
        Elementary::Log(a, b) => {
            lemma_derivative_wf(inner(a));
            lemma_derivative_wf(inner(b));
            lemma_binary_parts_wf(a, b);
        },
        _ => {},
    }
}

/// `a * b` with the constant factors one and zero folded away.
pub fn mul_folding(a: Elementary, b: Elementary) -> (r: Elementary)
    ensures
        r == times(a, b),
{
    match &a {
        Elementary::Con(n) => {
            if n.num == 1 && n.den == 1 {
                return b;
            } else if n.num == 0 {
                return a;
            }
        },
        _ => {
            if let Elementary::Con(n) = &b {
                if n.num == 1 && n.den == 1 {
                    return a;
                } else if n.num == 0 {
                    return b;
                }
            }
        },
    }
    Elementary::Mul(node(a), node(b))
}

/// `a + b` with a constant term zero folded away.
pub fn add_folding(a: Elementary, b: Elementary) -> (r: Elementary)
    ensures
        r == plus(a, b),
{
    match &a {
        Elementary::Con(n) => {
            if n.num == 0 {
                return b;
            }
        },
        _ => {
            if let Elementary::Con(n) = &b {
                if n.num == 0 {
                    return a;
                }
            }
        },
    }
    Elementary::Add(node(a), node(b))
}

fn ln_node(f: &Arc<Elementary>) -> (r: Elementary)
    ensures
        r == ln_of(**f),
{
    Elementary::Log(node(Elementary::E), share(f))
}

fn squared_node(f: Elementary) -> (r: Elementary)
    ensures
        r == squared(f),
{
    Elementary::Pow(node(f), node(Elementary::integer(2)))
}

fn sqrt_one_minus_square_node(f: &Arc<Elementary>) -> (r: Elementary)
    ensures
        r == sqrt_one_minus_square(**f),
{
    Elementary::Pow(
        node(Elementary::Sub(node(Elementary::integer(1)), node(squared_node((**f).clone())))),
        node(Elementary::half()),
    )
}

impl Elementary {
    /// The unsimplified derivative with respect to the free variable.
    pub fn differentiate(&self) -> (r: Elementary)
        ensures
            r == derivative_tree(*self),
        decreases self,
    {
        match self {
            Elementary::Sin(f) => Elementary::Mul(
                node(Elementary::Cos(share(f))),
                node(f.differentiate()),
            ),
            Elementary::Cos(f) => Elementary::Mul(
                node(Elementary::Mul(node(Elementary::Sin(share(f))), node(Elementary::integer(-1)))),
                node(f.differentiate()),
            ),
            Elementary::Tan(f) => Elementary::Mul(
                node(
                    Elementary::Div(
                        node(Elementary::integer(1)),
                        node(squared_node(Elementary::Cos(share(f)))),
                    ),
                ),
                node(f.differentiate()),
            ),
            Elementary::Sec(f) => mul_folding(
                mul_folding(f.differentiate(), Elementary::Tan(share(f))),
                Elementary::Sec(share(f)),
            ),
            Elementary::Csc(f) => Elementary::Mul(
                node(
                    mul_folding(
                        mul_folding(f.differentiate(), Elementary::Cot(share(f))),
                        Elementary::Csc(share(f)),
                    ),
                ),
                node(Elementary::integer(-1)),
            ),
            Elementary::Cot(f) => mul_folding(
                Elementary::Mul(node(f.differentiate()), node(Elementary::integer(-1))),
                squared_node(Elementary::Csc(share(f))),
            ),
            Elementary::Asin(f) => Elementary::Div(
                node(f.differentiate()),
                node(sqrt_one_minus_square_node(f)),
            ),
            Elementary::Acos(f) => Elementary::Mul(
                node(
                    Elementary::Div(node(f.differentiate()), node(sqrt_one_minus_square_node(f))),
                ),
                node(Elementary::integer(-1)),
            ),
            Elementary::Atan(f) => Elementary::Div(
                node(f.differentiate()),
                node(
                    Elementary::Add(
                        node(squared_node((**f).clone())),
                        node(Elementary::integer(1)),
                    ),
                ),
            ),
            Elementary::Sinh(f) => Elementary::Mul(
                node(Elementary::Cosh(share(f))),
                node(f.differentiate()),
            ),
            Elementary::Cosh(f) => Elementary::Mul(
                node(Elementary::Sinh(share(f))),
                node(f.differentiate()),
            ),
            Elementary::Tanh(f) => Elementary::Div(
                node(f.differentiate()),
                node(squared_node(Elementary::Cosh(share(f)))),
            ),
            Elementary::Add(a, b) => Elementary::Add(
                node(a.differentiate()),
                node(b.differentiate()),
            ),
            Elementary::Sub(a, b) => Elementary::Sub(
                node(a.differentiate()),
                node(b.differentiate()),
            ),
            Elementary::Mul(a, b) => Elementary::Add(
                node(Elementary::Mul(node(a.differentiate()), share(b))),
                node(Elementary::Mul(node(b.differentiate()), share(a))),
            ),
            Elementary::Div(a, b) => Elementary::Div(
                node(
                    Elementary::Sub(
                        node(Elementary::Mul(node(a.differentiate()), share(b))),
                        node(Elementary::Mul(node(b.differentiate()), share(a))),
                    ),
                ),
                node(squared_node((**b).clone())),
            ),
            Elementary::Pow(a, b) => Elementary::Mul(
                node(
                    Elementary::Pow(
                        share(a),
                        node(Elementary::Sub(share(b), node(Elementary::integer(1)))),
                    ),
                ),
                node(
                    Elementary::Add(
                        node(Elementary::Mul(share(b), node(a.differentiate()))),
                        node(
                            Elementary::Mul(
                                share(a),
                                node(Elementary::Mul(node(ln_node(a)), node(b.differentiate()))),
                            ),
                        ),
                    ),
                ),
            ),
            Elementary::Log(a, b) => Elementary::Div(
                node(
                    Elementary::Sub(
                        node(
                            Elementary::Div(
                                node(Elementary::Mul(node(ln_node(a)), node(b.differentiate()))),
                                share(b),
                            ),
                        ),
                        node(
                            Elementary::Div(
                                node(Elementary::Mul(node(ln_node(b)), node(a.differentiate()))),
                                share(a),
                            ),
                        ),
                    ),
                ),
                node(squared_node(ln_node(a))),
            ),
            Elementary::Factorial(f) => mul_folding(
                mul_folding(f.differentiate(), Elementary::Factorial(share(f))),
                Elementary::Polygamma(
                    node(add_folding((**f).clone(), Elementary::integer(1))),
                    0,
                ),
            ),
            Elementary::Gamma(f) => mul_folding(
                mul_folding(f.differentiate(), Elementary::Gamma(share(f))),
                Elementary::Polygamma(share(f), 0),
            ),
            Elementary::Polygamma(f, m) => {
                let next = if *m < usize::MAX {
                    *m + 1
                } else {
                    *m
                };
                mul_folding(f.differentiate(), Elementary::Polygamma(share(f), next))
            },
            Elementary::Abs(f) => Elementary::Div(
                node(Elementary::Mul(share(f), node(f.differentiate()))),
                node(Elementary::Abs(share(f))),
            ),
            Elementary::Con(_) => Elementary::integer(0),
            Elementary::E => Elementary::integer(0),
            Elementary::Pi => Elementary::integer(0),
            Elementary::X => Elementary::integer(1),
        }
    }

    /// The unsimplified derivative, as a new tree.
    pub fn derivative_unsimplified(&self) -> (r: Elementary)
        ensures
            r == derivative_tree(*self),
    {
        self.differentiate()
    }
}

} // verus!
