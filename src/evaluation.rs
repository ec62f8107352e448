use vstd::prelude::*;

use crate::combinatorics::{factorial, factorial_integer};
use crate::expr::{inner, Elementary};
use crate::number::{abs_int, fits, radd, rdiv, rmul, rsub, Number, Ratio};

verus! {

/// The largest magnitude of an exponent that exact evaluation takes on.
pub const MAX_EXPONENT: i64 = 4096;

/// The largest argument of an exactly evaluated factorial (`20!` is the
/// largest factorial within 64 bits).
pub const MAX_FACTORIAL: i64 = 20;

pub open spec fn one_r() -> Ratio {
    Ratio { n: 1, d: 1 }
}

pub open spec fn checked_r(r: Ratio) -> Option<Ratio> {
    if fits(r) {
        Some(r)
    } else {
        None
    }
}

/// `a^k` by repeated multiplication, every partial power within 64 bits.
pub open spec fn rpow_nat(a: Ratio, k: nat) -> Option<Ratio>
    decreases k,
{
    if k == 0 {
        Some(one_r())
    } else {
        match rpow_nat(a, (k - 1) as nat) {
            Some(p) => checked_r(rmul(p, a)),
            None => None,
        }
    }
}

/// `a^k` for an integer `k`; a negative power is the reciprocal.
pub open spec fn rpow_int(a: Ratio, k: int) -> Option<Ratio> {
    if k >= 0 {
        rpow_nat(a, k as nat)
    } else {
        match rpow_nat(a, (-k) as nat) {
            Some(p) => if p.n != 0 {
                checked_r(rdiv(one_r(), p))
            } else {
                None
            },
            None => None,
        }
    }
}

/// The exact rational value of `e` at `x`, where it is rational and each
/// intermediate result fits in 64 bits: constants, the variable, the four
/// operations (not dividing by zero), integer powers up to `MAX_EXPONENT`,
/// absolute values, factorials of small naturals, and the trigonometric,
/// hyperbolic and arcus functions at zero (`sin 0 = 0`, `cos 0 = 1`, ...).
/// Other values of transcendental functions, logarithms and the constants e
/// and pi have no such value.
pub open spec fn exact_value(e: Elementary, x: Ratio) -> Option<Ratio>
    decreases e,
{
    match e {
        Elementary::Con(c) => Some(c.ratio()),
        Elementary::X => Some(x),
        Elementary::Add(a, b) => match (exact_value(*a, x), exact_value(*b, x)) {
            (Some(u), Some(v)) => checked_r(radd(u, v)),
            _ => None,
        },
        Elementary::Sub(a, b) => match (exact_value(*a, x), exact_value(*b, x)) {
            (Some(u), Some(v)) => checked_r(rsub(u, v)),
            _ => None,
        },
        Elementary::Mul(a, b) => match (exact_value(*a, x), exact_value(*b, x)) {
            (Some(u), Some(v)) => checked_r(rmul(u, v)),
            _ => None,
        },
        Elementary::Div(a, b) => match (exact_value(*a, x), exact_value(*b, x)) {
            (Some(u), Some(v)) => if v.n != 0 {
                checked_r(rdiv(u, v))
            } else {
                None
            },
            _ => None,
        },
        Elementary::Pow(a, b) => match (exact_value(*a, x), exact_value(*b, x)) {
            (Some(u), Some(v)) => if v.d == 1 && -MAX_EXPONENT <= v.n <= MAX_EXPONENT {
                rpow_int(u, v.n)
            } else {
                None
            },
            _ => None,
        },
        Elementary::Abs(a) => match exact_value(*a, x) {
            Some(u) => Some(Ratio { n: abs_int(u.n) as int, d: u.d }),
            None => None,
        },
        Elementary::Factorial(a) => match exact_value(*a, x) {
            Some(u) => if u.d == 1 && 0 <= u.n <= MAX_FACTORIAL {
                Some(Ratio { n: factorial(u.n as nat) as int, d: 1 })
            } else {
                None
            },
            None => None,
        },
        Elementary::Sin(a) | Elementary::Tan(a) | Elementary::Asin(a) | Elementary::Atan(a)
        | Elementary::Sinh(a) | Elementary::Tanh(a) => match exact_value(*a, x) {
            Some(u) => if u.n == 0 {
                Some(Ratio { n: 0, d: 1 })
            } else {
                None
            },
            None => None,
        },
        Elementary::Cos(a) | Elementary::Sec(a) | Elementary::Cosh(a) => match exact_value(*a, x) {
            Some(u) => if u.n == 0 {
                Some(one_r())
            } else {
                None
            },
            None => None,
        },
        _ => None,
    }
}

proof fn lemma_rpow_fits(a: Ratio, k: nat)
    requires
        rpow_nat(a, k) is Some,
    ensures
        fits(rpow_nat(a, k)->0),
    decreases k,
{
    if k > 0 {
        lemma_rpow_fits(a, (k - 1) as nat);
    }
}

/// An exact value is always within 64 bits.
pub proof fn lemma_exact_value_fits(e: Elementary, x: Ratio)
    requires
        e.wf(),
        fits(x),
        exact_value(e, x) is Some,
    ensures
        fits(exact_value(e, x)->0),
    decreases e,
{
    match e {
        Elementary::Add(a, b) | Elementary::Sub(a, b) | Elementary::Mul(a, b) | Elementary::Div(
            a,
            b,
        ) => {},
        Elementary::Pow(a, b) => {
            let u = exact_value(inner(a), x)->0;
            let v = exact_value(inner(b), x)->0;
            if v.n >= 0 {
                lemma_rpow_fits(u, v.n as nat);
            }
        },
        Elementary::Abs(a) => {
            lemma_exact_value_fits(inner(a), x);
        },
        Elementary::Sin(_) | Elementary::Tan(_) | Elementary::Asin(_) | Elementary::Atan(_)
        | Elementary::Sinh(_) | Elementary::Tanh(_) | Elementary::Cos(_) | Elementary::Sec(_)
        | Elementary::Cosh(_) => {},
        Elementary::Factorial(a) => {
            let u = exact_value(inner(a), x)->0;
            crate::combinatorics::lemma_factorial_monotone(u.n as nat, 20);
            crate::combinatorics::lemma_factorial_pos(u.n as nat);
            crate::combinatorics::lemma_factorial_values();
        },
        _ => {},
    }
}

proof fn lemma_rpow_none_stays(a: Ratio, i: nat, k: nat)
    requires
        i <= k,
        rpow_nat(a, i) is None,
    ensures
        rpow_nat(a, k) is None,
    decreases k,
{
    if i < k {
        lemma_rpow_none_stays(a, i, (k - 1) as nat);
    }
}

/// `a^k` for a natural `k`, or `None` when a partial power leaves 64 bits.
pub fn pow_nat(a: &Number, k: u64) -> (r: Option<Number>)
    requires
        a.wf(),
    ensures
        match r {
            Some(v) => v.wf() && rpow_nat(a.ratio(), k as nat) == Some(v.ratio()),
            None => rpow_nat(a.ratio(), k as nat) is None,
        },
{
    let mut acc = Number::one();
    let mut i: u64 = 0;
    while i < k
        invariant
            0 <= i <= k,
            a.wf(),
            acc.wf(),
            rpow_nat(a.ratio(), i as nat) == Some(acc.ratio()),
        decreases k - i,
    {
        match acc.mul(a) {
            Some(v) => {
                acc = v;
            },
            None => {
                proof {
                    assert(rpow_nat(a.ratio(), (i + 1) as nat) is None);
                    lemma_rpow_none_stays(a.ratio(), (i + 1) as nat, k as nat);
                }
                return None;
            },
        }
        i = i + 1;
    }
    Some(acc)
}

/// `a^k` for an integer `k`.
pub fn pow_int(a: &Number, k: i64) -> (r: Option<Number>)
    requires
        a.wf(),
        -MAX_EXPONENT <= k <= MAX_EXPONENT,
    ensures
        match r {
            Some(v) => v.wf() && rpow_int(a.ratio(), k as int) == Some(v.ratio()),
            None => rpow_int(a.ratio(), k as int) is None,
        },
{
    if k >= 0 {
        pow_nat(a, k as u64)
    } else {
        match pow_nat(a, (-k) as u64) {
            Some(p) => {
                if p.num == 0 {
                    None
                } else {
                    Number::one().div(&p)
                }
            },
            None => None,
        }
    }
}

impl Elementary {
    /// The exact value at `x`, where it is rational and fits (see
    /// `exact_value`).
    pub fn evaluate_exact(&self, x: &Number) -> (r: Option<Number>)
        requires
            self.wf(),
            x.wf(),
        ensures
            match r {
                Some(v) => v.wf() && exact_value(*self, x.ratio()) == Some(v.ratio()),
                None => exact_value(*self, x.ratio()) is None,
            },
        decreases self,
    {
        match self {
            Elementary::Con(c) => Some(*c),
            Elementary::X => Some(*x),
            Elementary::Add(a, b) => match (a.evaluate_exact(x), b.evaluate_exact(x)) {
                (Some(u), Some(v)) => u.add(&v),
                _ => None,
            },
            Elementary::Sub(a, b) => match (a.evaluate_exact(x), b.evaluate_exact(x)) {
                (Some(u), Some(v)) => u.sub(&v),
                _ => None,
            },
            Elementary::Mul(a, b) => match (a.evaluate_exact(x), b.evaluate_exact(x)) {
                (Some(u), Some(v)) => u.mul(&v),
                _ => None,
            },
            Elementary::Div(a, b) => match (a.evaluate_exact(x), b.evaluate_exact(x)) {
                (Some(u), Some(v)) => u.div(&v),
                _ => None,
            },
            Elementary::Pow(a, b) => match (a.evaluate_exact(x), b.evaluate_exact(x)) {
                (Some(u), Some(v)) => {
                    if v.den == 1 && -MAX_EXPONENT <= v.num && v.num <= MAX_EXPONENT {
                        pow_int(&u, v.num)
                    } else {
                        None
                    }
                },
                _ => None,
            },
            Elementary::Abs(a) => match a.evaluate_exact(x) {
                Some(u) => {
                    proof {
                        assert(abs_int(abs_int(u.num as int) as int) == abs_int(u.num as int));
                    }
                    Some(Number { num: if u.num < 0 { -u.num } else { u.num }, den: u.den })
                },
                None => None,
            },
            Elementary::Sin(a) | Elementary::Tan(a) | Elementary::Asin(a) | Elementary::Atan(a)
            | Elementary::Sinh(a) | Elementary::Tanh(a) => match a.evaluate_exact(x) {
                Some(u) => {
                    if u.num == 0 {
                        Some(Number::zero())
                    } else {
                        None
                    }
                },
                None => None,
            },
            Elementary::Cos(a) | Elementary::Sec(a) | Elementary::Cosh(a) => match a.evaluate_exact(x) {
                Some(u) => {
                    if u.num == 0 {
                        Some(Number::one())
                    } else {
                        None
                    }
                },
                None => None,
            },
            Elementary::Factorial(a) => match a.evaluate_exact(x) {
                Some(u) => {
                    if u.den == 1 && 0 <= u.num && u.num <= MAX_FACTORIAL {
                        let f = factorial_integer(u.num as u128);
                        proof {
                            crate::combinatorics::lemma_factorial_monotone(u.num as nat, 20);
                            crate::combinatorics::lemma_factorial_pos(u.num as nat);
                            crate::combinatorics::lemma_factorial_values();
                        }
                        Some(Number::from_int(f as i64))
                    } else {
                        None
                    }
                },
                None => None,
            },
            _ => None,
        }
    }
}

/// Somewhere in `e` a zero is divided by zero at `x`: the value is not a
/// number at all.
pub open spec fn zero_by_zero(e: Elementary, x: Ratio) -> bool
    decreases e,
{
    match e {
        Elementary::Div(a, b) => (exact_value(*a, x) matches Some(u) && u.n == 0) && (exact_value(
            *b,
            x,
        ) matches Some(v) && v.n == 0) || zero_by_zero(*a, x) || zero_by_zero(*b, x),
        Elementary::Sin(f) => zero_by_zero(*f, x),
        Elementary::Cos(f) => zero_by_zero(*f, x),
        Elementary::Tan(f) => zero_by_zero(*f, x),
        Elementary::Sec(f) => zero_by_zero(*f, x),
        Elementary::Csc(f) => zero_by_zero(*f, x),
        Elementary::Cot(f) => zero_by_zero(*f, x),
        Elementary::Asin(f) => zero_by_zero(*f, x),
        Elementary::Acos(f) => zero_by_zero(*f, x),
        Elementary::Atan(f) => zero_by_zero(*f, x),
        Elementary::Sinh(f) => zero_by_zero(*f, x),
        Elementary::Cosh(f) => zero_by_zero(*f, x),
        Elementary::Tanh(f) => zero_by_zero(*f, x),
        Elementary::Factorial(f) => zero_by_zero(*f, x),
        Elementary::Gamma(f) => zero_by_zero(*f, x),
        Elementary::Abs(f) => zero_by_zero(*f, x),
        Elementary::Add(a, b) => zero_by_zero(*a, x) || zero_by_zero(*b, x),
        Elementary::Sub(a, b) => zero_by_zero(*a, x) || zero_by_zero(*b, x),
        Elementary::Mul(a, b) => zero_by_zero(*a, x) || zero_by_zero(*b, x),
        Elementary::Pow(a, b) => zero_by_zero(*a, x) || zero_by_zero(*b, x),
        Elementary::Log(a, b) => zero_by_zero(*a, x) || zero_by_zero(*b, x),
        Elementary::Polygamma(f, _) => zero_by_zero(*f, x),
        _ => false,
    }
}

impl Elementary {
    /// Whether a zero is divided by zero somewhere at `x`.
    pub fn has_zero_by_zero(&self, x: &Number) -> (r: bool)
        requires
            self.wf(),
            x.wf(),
        ensures
            r == zero_by_zero(*self, x.ratio()),
        decreases self,
    {
        match self {
            Elementary::Div(a, b) => {
                let both = match (a.evaluate_exact(x), b.evaluate_exact(x)) {
                    (Some(u), Some(v)) => u.num == 0 && v.num == 0,
                    _ => false,
                };
                both || a.has_zero_by_zero(x) || b.has_zero_by_zero(x)
            },
            Elementary::Sin(f) => f.has_zero_by_zero(x),
            Elementary::Cos(f) => f.has_zero_by_zero(x),
            Elementary::Tan(f) => f.has_zero_by_zero(x),
            Elementary::Sec(f) => f.has_zero_by_zero(x),
            Elementary::Csc(f) => f.has_zero_by_zero(x),
            Elementary::Cot(f) => f.has_zero_by_zero(x),
            Elementary::Asin(f) => f.has_zero_by_zero(x),
            Elementary::Acos(f) => f.has_zero_by_zero(x),
            Elementary::Atan(f) => f.has_zero_by_zero(x),
            Elementary::Sinh(f) => f.has_zero_by_zero(x),
            Elementary::Cosh(f) => f.has_zero_by_zero(x),
            Elementary::Tanh(f) => f.has_zero_by_zero(x),
            Elementary::Factorial(f) => f.has_zero_by_zero(x),
            Elementary::Gamma(f) => f.has_zero_by_zero(x),
            Elementary::Abs(f) => f.has_zero_by_zero(x),
            Elementary::Add(a, b) => a.has_zero_by_zero(x) || b.has_zero_by_zero(x),
            Elementary::Sub(a, b) => a.has_zero_by_zero(x) || b.has_zero_by_zero(x),
            Elementary::Mul(a, b) => a.has_zero_by_zero(x) || b.has_zero_by_zero(x),
            Elementary::Pow(a, b) => a.has_zero_by_zero(x) || b.has_zero_by_zero(x),
            Elementary::Log(a, b) => a.has_zero_by_zero(x) || b.has_zero_by_zero(x),
            Elementary::Polygamma(f, _) => f.has_zero_by_zero(x),
            _ => false,
        }
    }
}

} // verus!
