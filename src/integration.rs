use vstd::prelude::*;

use crate::expr::Elementary;
use crate::number::{fits, radd, rdiv, rint, rmul, rsub, Number, Ratio};
use crate::Error;

verus! {

/// Sub-intervals used when the caller sets no precision.
pub const STANDARD_PRECISION: usize = 1000;

/// A definite integral of an expression, configured step by step.
#[derive(Debug)]
pub struct Integral {
    pub function: Elementary,
    pub lower_bound: Option<Number>,
    pub upper_bound: Option<Number>,
    pub precision: usize,
}

/// The nodes and weights of composite Simpson's rule: the integral is
/// approximated by `step / 3 * sum(weights[i] * f(nodes[i]))`.
#[derive(Debug)]
pub struct SimpsonPlan {
    pub nodes: Vec<Number>,
    pub weights: Vec<u8>,
    pub step: Number,
}

/// Simpson's weights: one at both ends, four at odd nodes, two at the other
/// inner nodes.
pub open spec fn simpson_weight(i: int, n: int) -> u8 {
    if i == 0 || i == n {
        1
    } else if i % 2 == 1 {
        4
    } else {
        2
    }
}

/// The step `(hi - lo) / n`.
pub open spec fn step_of(lo: Ratio, hi: Ratio, n: int) -> Ratio {
    rdiv(rsub(hi, lo), rint(n))
}

/// The node `lo + i * step`.
pub open spec fn node_at(lo: Ratio, step: Ratio, i: int) -> Ratio {
    radd(lo, rmul(rint(i), step))
}

/// The weights of composite Simpson's rule over `2 * precision`
/// sub-intervals.
pub fn simpson_weights(precision: usize) -> (r: Vec<u8>)
    requires
        1 <= precision <= 0x3fff_ffff,
    ensures
        r@.len() == 2 * precision + 1,
        forall|i: int| 0 <= i <= 2 * precision ==> #[trigger] r@[i] == simpson_weight(
            i,
            2 * precision,
        ),
{
    let n: usize = 2 * precision;
    let mut weights: Vec<u8> = Vec::new();
    let mut i: usize = 0;
    while i <= n
        invariant
            n == 2 * precision,
            n <= 0x7fff_fffe,
            i <= n + 1,
            weights@.len() == i,
            forall|j: int| 0 <= j < i ==> #[trigger] weights@[j] == simpson_weight(j, n as int),
        decreases n + 1 - i,
    {
        let w: u8 = if i == 0 || i == n {
            1
        } else if i % 2 == 1 {
            4
        } else {
            2
        };
        weights.push(w);
        i = i + 1;
    }
    weights
}

/// Both bounds are set, the precision is in range, and the step, the
/// width and every node fit in 64 bits.
pub open spec fn plan_fits(i: &Integral) -> bool {
    &&& i.lower_bound is Some
    &&& i.upper_bound is Some
    &&& 1 <= i.precision <= 0x3fff_ffff
    &&& {
        let lo = i.lower_bound->0.ratio();
        let hi = i.upper_bound->0.ratio();
        let n = 2 * i.precision;
        let step = step_of(lo, hi, n);
        &&& fits(rsub(hi, lo))
        &&& fits(step)
        &&& forall|k: int| 0 <= k <= n ==> fits(#[trigger] rmul(rint(k), step)) && fits(
            node_at(lo, step, k),
        )
    }
}

impl Integral {
    /// An integral of `function` with no bounds and the standard precision.
    pub fn vacant(function: Elementary) -> (r: Integral)
        ensures
            r.function == function,
            r.lower_bound is None,
            r.upper_bound is None,
            r.precision == STANDARD_PRECISION,
    {
        Integral { function, lower_bound: None, upper_bound: None, precision: STANDARD_PRECISION }
    }

    pub fn set_lower_bound(&mut self, lower_bound: Number)
        ensures
            *final(self) == (Integral { lower_bound: Some(lower_bound), ..*old(self) }),
    {
        self.lower_bound = Some(lower_bound);
    }

    pub fn set_upper_bound(&mut self, upper_bound: Number)
        ensures
            *final(self) == (Integral { upper_bound: Some(upper_bound), ..*old(self) }),
    {
        self.upper_bound = Some(upper_bound);
    }

    /// Sets the number of sub-interval pairs.
    pub fn set_precision(&mut self, precision: usize)
        ensures
            *final(self) == (Integral { precision, ..*old(self) }),
    {
        self.precision = precision;
    }

    /// The nodes and weights at which the integral is evaluated: `2 *
    /// precision` sub-intervals, so that their number is even.  Fails when a
    /// bound was never set, when the precision is zero or too large, or when
    /// a node does not fit in 64 bits.
    pub fn evaluate(&self) -> (r: Result<SimpsonPlan, Error>)
        requires
            self.lower_bound matches Some(lo) ==> lo.wf(),
            self.upper_bound matches Some(hi) ==> hi.wf(),
        ensures
            (self.lower_bound is None || self.upper_bound is None) ==> r matches Err(
                Error::InternalError(_),
            ),
            self.precision == 0 ==> r is Err,
            plan_fits(self) ==> r is Ok,
            r matches Ok(plan) ==> ({
                let lo = self.lower_bound->0.ratio();
                let hi = self.upper_bound->0.ratio();
                let n = 2 * self.precision;
                &&& plan.nodes@.len() == n + 1
                &&& plan.weights@.len() == n + 1
                &&& plan.step.ratio() == step_of(lo, hi, n)
                &&& forall|i: int| 0 <= i <= n ==> (#[trigger] plan.nodes@[i]).ratio() == node_at(
                    lo,
                    step_of(lo, hi, n),
                    i,
                ) && plan.nodes@[i].wf()
                &&& forall|i: int| 0 <= i <= n ==> #[trigger] plan.weights@[i] == simpson_weight(i, n)
            }),
    {
        let (lo, hi) = match (self.lower_bound, self.upper_bound) {
            (Some(lo), Some(hi)) => (lo, hi),
            _ => {
                return Err(
                    Error::InternalError(
                        "Bounds of integration must be set in order to evaluate the integral".to_owned(),
                    ),
                );
            },
        };
        if self.precision == 0 || self.precision > 0x3fff_ffff {
            return Err(Error::InputError("the precision must be between 1 and 2^30 - 1".to_owned()));
        }
        let n: usize = 2 * self.precision;
        let width = match hi.sub(&lo) {
            Some(w) => w,
            None => {
                return Err(Error::InputError("the bounds are too far apart".to_owned()));
            },
        };
        let count = Number::from_int(n as i64);
        let step = match width.div(&count) {
            Some(s) => s,
            None => {
                return Err(Error::InputError("the step does not fit".to_owned()));
            },
        };
        let weights = simpson_weights(self.precision);
        let mut nodes: Vec<Number> = Vec::new();
        let mut i: usize = 0;
        while i <= n
            invariant
                n == 2 * self.precision,
                n <= 0x7fff_fffe,
                self.lower_bound == Some(lo),
                self.upper_bound == Some(hi),
                step.ratio() == step_of(lo.ratio(), hi.ratio(), n as int),
                plan_fits(self) ==> forall|k: int| 0 <= k <= n ==> fits(
                    #[trigger] rmul(rint(k), step.ratio()),
                ) && fits(node_at(lo.ratio(), step.ratio(), k)),
                i <= n + 1,
                lo.wf(),
                step.wf(),
                nodes@.len() == i,
                weights@.len() == n + 1,
                forall|j: int| 0 <= j < i ==> (#[trigger] nodes@[j]).ratio() == node_at(
                    lo.ratio(),
                    step.ratio(),
                    j,
                ) && nodes@[j].wf(),
                forall|j: int| 0 <= j <= n ==> #[trigger] weights@[j] == simpson_weight(j, n as int),
            decreases n + 1 - i,
        {
            let k = Number::from_int(i as i64);
            let offset = match k.mul(&step) {
                Some(o) => o,
                None => {
                    return Err(Error::InputError("a node does not fit".to_owned()));
                },
            };
            let x = match lo.add(&offset) {
                Some(x) => x,
                None => {
                    return Err(Error::InputError("a node does not fit".to_owned()));
                },
            };
            nodes.push(x);
            i = i + 1;
        }
        Ok(SimpsonPlan { nodes, weights, step })
    }
}

impl Elementary {
    /// An integral of this expression, to be configured.
    pub fn integrate(&self) -> (r: Integral)
        ensures
            r.function == *self,
            r.lower_bound is None,
            r.upper_bound is None,
            r.precision == STANDARD_PRECISION,
    {
        Integral::vacant(self.clone())
    }
}

} // verus!
