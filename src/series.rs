use vstd::prelude::*;

use crate::classification::{category_of, Category};
use crate::combinatorics::{factorial, factorial_integer};
use crate::differentiation::{add_folding, cint, derivative_tree, mul_folding, plus, rc, times};
use crate::evaluation::exact_value;
use crate::expr::{node, Elementary};
use crate::number::{Number, Ratio};
use crate::polynomial::{build, number_of, poly_of};
use crate::simplify::{agree_on_probes, folded, simplified_result};
use crate::Error;

verus! {

/// The highest order of an expansion: `20!` is the largest factorial within
/// 64 bits.
pub const MAX_ORDER: u8 = 20;

/// A series expansion of an expression.
#[derive(Debug)]
pub enum SeriesExpansion {
    /// A Taylor series centred at zero.
    MacLaurin(Elementary),
    /// A polynomial approximation centred at some point.
    Taylor(Elementary),
    /// A sum of trigonometric functions (not produced yet).
    Fourier(Elementary),
}

impl SeriesExpansion {
    pub open spec fn tree(&self) -> Elementary {
        match self {
            SeriesExpansion::MacLaurin(e) => *e,
            SeriesExpansion::Taylor(e) => *e,
            SeriesExpansion::Fourier(e) => *e,
        }
    }

    /// The expansion's expression.
    pub fn get_elementary(self) -> (r: Elementary)
        ensures
            r == self.tree(),
    {
        match self {
            SeriesExpansion::MacLaurin(e) => e,
            SeriesExpansion::Taylor(e) => e,
            SeriesExpansion::Fourier(e) => e,
        }
    }
}

/// The `k`th derivative, unsimplified.
pub open spec fn nth_derivative(e: Elementary, k: nat) -> Elementary
    decreases k,
{
    if k == 0 {
        e
    } else {
        derivative_tree(nth_derivative(e, (k - 1) as nat))
    }
}

/// The term `(x - c)^k * v / k!` of a Taylor sum (for `k >= 1`).
pub open spec fn taylor_term(v: Ratio, c: Ratio, k: nat) -> Elementary {
    Elementary::Div(
        rc(
            times(
                Elementary::Pow(
                    rc(Elementary::Sub(rc(Elementary::X), rc(Elementary::Con(number_of(c))))),
                    rc(cint(k as int)),
                ),
                Elementary::Con(number_of(v)),
            ),
        ),
        rc(cint(factorial(k) as int)),
    )
}

/// The unsimplified Taylor sum of the first `m` terms, the highest order
/// outermost: `values[0] + (x - c) * values[1] / 1! + ...`.
pub open spec fn taylor_sum(values: Seq<Ratio>, c: Ratio, m: nat) -> Elementary
    decreases m,
{
    if m == 0 {
        cint(0)
    } else if m == 1 {
        plus(Elementary::Con(number_of(values[0])), cint(0))
    } else {
        plus(taylor_term(values[m - 1], c, (m - 1) as nat), taylor_sum(values, c, (m - 1) as nat))
    }
}

/// The expression of an expansion that came out, or the error.
pub open spec fn tree_result(r: Result<SeriesExpansion, Error>) -> Result<Elementary, Error> {
    match r {
        Ok(s) => Ok(s.tree()),
        Err(e) => Err(e),
    }
}

/// What the simplifier makes of a sum, as far as its contract says.
pub open spec fn simplified_as(t: Elementary, s: Elementary) -> bool {
    &&& agree_on_probes(s, t)
    &&& category_of(s) == Category::Constant ==> t == folded(s)
    &&& category_of(s) == Category::Polynomial ==> poly_of(s) is Some && t == build(poly_of(s)->0)
}

/// The Taylor expansion whose coefficients are the given values of the
/// function and its derivatives at the centre: the sum of
/// `(x - centre)^k * values[k] / k!`, brought to canonical form.
pub fn taylor_from_values(values: &Vec<Number>, centre: Number) -> (r: Result<SeriesExpansion, Error>)
    requires
        forall|k: int| 0 <= k < values@.len() ==> (#[trigger] values@[k]).wf(),
        centre.wf(),
    ensures
        values@.len() > MAX_ORDER + 1 ==> r matches Err(Error::ExpansionError(_)),
        values@.len() <= MAX_ORDER + 1 ==> simplified_result(
            taylor_sum(
                Seq::new(values@.len(), |k: int| values@[k].ratio()),
                centre.ratio(),
                values@.len() as nat,
            ),
            tree_result(r),
        ),
        r matches Ok(s) ==> s is Taylor && s.tree().wf() && simplified_as(
            s.tree(),
            taylor_sum(Seq::new(values@.len(), |k: int| values@[k].ratio()), centre.ratio(), values@.len() as nat),
        ),
{
    let ghost vals = Seq::new(values@.len(), |k: int| values@[k].ratio());
    if values.len() > MAX_ORDER as usize + 1 {
        return Err(Error::ExpansionError("the order of an expansion is at most 20".to_owned()));
    }
    proof {
        crate::differentiation::lemma_cint_wf(0);
    }
    let mut sum = Elementary::integer(0);
    let mut i: usize = 0;
    while i < values.len()
        invariant
            i <= values@.len(),
            values@.len() <= MAX_ORDER + 1,
            vals == Seq::new(values@.len(), |k: int| values@[k].ratio()),
            forall|k: int| 0 <= k < values@.len() ==> (#[trigger] values@[k]).wf(),
            centre.wf(),
            sum.wf(),
            sum == taylor_sum(vals, centre.ratio(), i as nat),
        decreases values@.len() - i,
    {
        let v = values[i];
        assert(number_of(vals[i as int]) == v);
        let term = if i == 0 {
            Elementary::Con(v)
        } else {
            proof {
                crate::combinatorics::lemma_factorial_values();
                crate::combinatorics::lemma_factorial_monotone(i as nat, 20);
                crate::combinatorics::lemma_factorial_pos(i as nat);
                crate::differentiation::lemma_cint_wf(i as int);
                crate::differentiation::lemma_cint_wf(factorial(i as nat) as int);
                assert(number_of(centre.ratio()) == centre);
            }
            let f = factorial_integer(i as u128) as i64;
            let shifted = Elementary::Sub(node(Elementary::X), node(Elementary::Con(centre)));
            let power = Elementary::Pow(node(shifted), node(Elementary::integer(i as i64)));
            let scaled = mul_folding(power, Elementary::Con(v));
            proof {
                assert(Elementary::X.wf());
                assert(Elementary::Con(centre).wf());
                assert(Elementary::Sub(rc(Elementary::X), rc(Elementary::Con(centre))).wf());
                assert(Elementary::Pow(
                    rc(Elementary::Sub(rc(Elementary::X), rc(Elementary::Con(centre)))),
                    rc(cint(i as int)),
                ).wf());
                crate::differentiation::lemma_times_wf(
                    Elementary::Pow(
                        rc(Elementary::Sub(rc(Elementary::X), rc(Elementary::Con(centre)))),
                        rc(cint(i as int)),
                    ),
                    Elementary::Con(v),
                );
            }
            Elementary::Div(node(scaled), node(Elementary::integer(f)))
        };
        let before = sum;
        sum = add_folding(term, before);
        proof {
            crate::differentiation::lemma_plus_wf(term, before);
        }
        i = i + 1;
    }
    let t = sum.simplify()?;
    Ok(SeriesExpansion::Taylor(t))
}

/// The values at `centre` of `e` and its first `n - 1` derivatives, where
/// each has an exact value.
pub open spec fn derivative_values(e: Elementary, c: Ratio, n: nat) -> Option<Seq<Ratio>>
    decreases n,
{
    if n == 0 {
        Some(Seq::empty())
    } else {
        match (derivative_values(e, c, (n - 1) as nat), exact_value(
            nth_derivative(e, (n - 1) as nat),
            c,
        )) {
            (Some(s), Some(v)) => Some(s.push(v)),
            _ => None,
        }
    }
}

impl Elementary {
    /// The Taylor expansion of order `order` centred at `centre`, from the
    /// exact values of the expression and its (unsimplified) derivatives
    /// there; an expansion whose coefficients have no exact value fails.
    pub fn expand_taylor(&self, order: u8, centre: Number) -> (r: Result<SeriesExpansion, Error>)
        requires
            self.wf(),
            centre.wf(),
        ensures
            order > MAX_ORDER ==> r is Err,
            derivative_values(*self, centre.ratio(), order as nat + 1) is None ==> r is Err,
            order <= MAX_ORDER && derivative_values(*self, centre.ratio(), order as nat + 1) is Some
                ==> simplified_result(
                taylor_sum(
                    derivative_values(*self, centre.ratio(), order as nat + 1)->0,
                    centre.ratio(),
                    order as nat + 1,
                ),
                tree_result(r),
            ),
            r matches Ok(s) ==> s is Taylor && s.tree().wf() && derivative_values(
                *self,
                centre.ratio(),
                order as nat + 1,
            ) is Some && simplified_as(
                s.tree(),
                taylor_sum(
                    derivative_values(*self, centre.ratio(), order as nat + 1)->0,
                    centre.ratio(),
                    order as nat + 1,
                ),
            ),
    {
        if order > MAX_ORDER {
            return Err(Error::ExpansionError("the order of an expansion is at most 20".to_owned()));
        }
        let mut values: Vec<Number> = Vec::new();
        let mut current = self.clone();
        let mut k: usize = 0;
        while k <= order as usize
            invariant
                k <= order as usize + 1,
                order <= MAX_ORDER,
                self.wf(),
                centre.wf(),
                current.wf(),
                current == nth_derivative(*self, k as nat),
                values@.len() == k,
                forall|j: int| 0 <= j < values@.len() ==> (#[trigger] values@[j]).wf(),
                derivative_values(*self, centre.ratio(), k as nat) == Some(
                    Seq::new(values@.len(), |j: int| values@[j].ratio()),
                ),
            decreases order as usize + 1 - k,
        {
            let ghost before = values@;
            match current.evaluate_exact(&centre) {
                Some(v) => {
                    values.push(v);
                    proof {
                        assert(Seq::new(values@.len(), |j: int| values@[j].ratio()) =~= Seq::new(
                            before.len(),
                            |j: int| before[j].ratio(),
                        ).push(v.ratio()));
                    }
                },
                None => {
                    proof {
                        lemma_values_none_stays(*self, centre.ratio(), (k + 1) as nat, order as nat + 1);
                    }
                    return Err(
                        Error::ExpansionError(
                            "a derivative has no exact value at the centre".to_owned(),
                        ),
                    );
                },
            }
            proof {
                crate::differentiation::lemma_derivative_wf(current);
            }
            current = current.differentiate();
            k = k + 1;
        }
        taylor_from_values(&values, centre)
    }

    /// The Taylor expansion centred at zero.
    pub fn expand_maclaurin(&self, order: u8) -> (r: Result<SeriesExpansion, Error>)
        requires
            self.wf(),
        ensures
            order > MAX_ORDER ==> r is Err,
            order <= MAX_ORDER && derivative_values(*self, Ratio { n: 0, d: 1 }, order as nat + 1)
                is Some ==> simplified_result(
                taylor_sum(
                    derivative_values(*self, Ratio { n: 0, d: 1 }, order as nat + 1)->0,
                    Ratio { n: 0, d: 1 },
                    order as nat + 1,
                ),
                tree_result(r),
            ),
            r matches Ok(s) ==> s is MacLaurin && s.tree().wf() && derivative_values(
                *self,
                Ratio { n: 0, d: 1 },
                order as nat + 1,
            ) is Some && simplified_as(
                s.tree(),
                taylor_sum(
                    derivative_values(*self, Ratio { n: 0, d: 1 }, order as nat + 1)->0,
                    Ratio { n: 0, d: 1 },
                    order as nat + 1,
                ),
            ),
    {
        match self.expand_taylor(order, Number::zero())? {
            SeriesExpansion::Taylor(t) => Ok(SeriesExpansion::MacLaurin(t)),
            other => Ok(other),
        }
    }
}

proof fn lemma_values_none_stays(e: Elementary, c: Ratio, i: nat, n: nat)
    requires
        i <= n,
        derivative_values(e, c, i) is None,
    ensures
        derivative_values(e, c, n) is None,
    decreases n,
{
    if i < n {
        lemma_values_none_stays(e, c, i, (n - 1) as nat);
    }
}

} // verus!
