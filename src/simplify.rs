use std::sync::Arc;
use vstd::prelude::*;

use crate::classification::{category_of, constant_spec, Category};
use crate::differentiation::{add_folding, mul_folding};
use crate::evaluation::{exact_value, zero_by_zero};
use crate::expr::{inner, node, share, Elementary};
use crate::number::{fits, rdiv, rint, rmul, Number, Ratio};
use crate::polynomial::{build, number_of, poly_of, simplify_polynomial, zero_r};
use crate::Error;

verus! {

/// How deep the general rewriting may recurse before it gives up.
pub const SIMPLIFY_DEPTH: u32 = 1000;

/// The integer probes `[-PROBE_RANGE, PROBE_RANGE]` at which a simplified
/// expression is compared with the expression it came from.
pub const PROBE_RANGE: i64 = 1000;

/// At `x = i` neither expression divides zero by zero (a value that is no
/// number, which equals nothing), and wherever both have an exact value the
/// values are equal.
pub open spec fn probe_agrees(e: Elementary, t: Elementary, i: int) -> bool {
    &&& !zero_by_zero(e, rint(i))
    &&& !zero_by_zero(t, rint(i))
    &&& match (exact_value(e, rint(i)), exact_value(t, rint(i))) {
        (Some(u), Some(v)) => u == v,
        _ => true,
    }
}

/// No probe divides zero by zero.
pub open spec fn defined_on_probes(e: Elementary) -> bool {
    forall|i: int| -PROBE_RANGE <= i <= PROBE_RANGE ==> !#[trigger] zero_by_zero(e, rint(i))
}

pub open spec fn agree_on_probes(e: Elementary, t: Elementary) -> bool {
    forall|i: int| -PROBE_RANGE <= i <= PROBE_RANGE ==> #[trigger] probe_agrees(e, t, i)
}

/// A constant expression replaced by its exact value, where it has one.
pub open spec fn folded(e: Elementary) -> Elementary {
    match exact_value(e, zero_r()) {
        Some(v) => Elementary::Con(number_of(v)),
        None => e,
    }
}

/// What simplification owes by category: a constant folded, a polynomial
/// with coefficients in canonical form, an exponential or trigonometric
/// expression unchanged.
pub open spec fn simplified_result(d: Elementary, r: Result<Elementary, Error>) -> bool {
    &&& category_of(d) == Category::Constant && defined_on_probes(d) ==> r == Ok::<
        Elementary,
        Error,
    >(folded(d))
    &&& category_of(d) == Category::Polynomial && poly_of(d) is Some ==> r == Ok::<
        Elementary,
        Error,
    >(build(poly_of(d)->0))
    &&& (category_of(d) == Category::Exponential || category_of(d) == Category::Trigonometric)
        && defined_on_probes(d) ==> r == Ok::<Elementary, Error>(d)
    &&& !defined_on_probes(d) ==> r is Err
}

/// The rules for a power `base^exp`: the exponent zero gives one, the
/// exponent one gives the base, and with a non-constant exponent a power of
/// `x` stays and a power of a power multiplies the exponents.
pub open spec fn power_rule(base: Elementary, exp: Elementary, r: Result<Elementary, Error>) -> bool {
    &&& (exp matches Elementary::Con(n) && n.num == 0) ==> r == Ok::<Elementary, Error>(
        crate::differentiation::cint(1),
    )
    &&& (exp matches Elementary::Con(n) && n.num == 1 && n.den == 1) ==> r == Ok::<
        Elementary,
        Error,
    >(base)
    &&& (!(exp is Con) && base is X) ==> r == Ok::<Elementary, Error>(
        Elementary::Pow(crate::differentiation::rc(base), crate::differentiation::rc(exp)),
    )
    &&& (!(exp is Con) && base is Pow) ==> r == Ok::<Elementary, Error>(
        Elementary::Pow(
            base->Pow_0,
            crate::differentiation::rc(crate::differentiation::times(exp, *base->Pow_1)),
        ),
    )
}

/// One atom of the numerator against the atoms of the denominator, from
/// the `k`th on: it cancels the first unused atom equal to it, or the first
/// unused numeric atom it can be divided by (the quotient joins the scalar).
/// The result is the new used marks, the scalar, and whether it cancelled.
pub open spec fn match_from(
    x: Elementary,
    den: Seq<Elementary>,
    used: Seq<bool>,
    scalar: Ratio,
    k: nat,
) -> (Seq<bool>, Ratio, bool)
    decreases den.len() - k,
{
    if k >= den.len() {
        (used, scalar, false)
    } else if !used[k as int] {
        if x == den[k as int] {
            (used.update(k as int, true), scalar, true)
        } else if x is Con && den[k as int] is Con && den[k as int]->Con_0.num != 0 && fits(
            rdiv(x->Con_0.ratio(), den[k as int]->Con_0.ratio()),
        ) && fits(rmul(scalar, rdiv(x->Con_0.ratio(), den[k as int]->Con_0.ratio()))) {
            (
                used.update(k as int, true),
                rmul(scalar, rdiv(x->Con_0.ratio(), den[k as int]->Con_0.ratio())),
                true,
            )
        } else {
            match_from(x, den, used, scalar, k + 1)
        }
    } else {
        match_from(x, den, used, scalar, k + 1)
    }
}

/// The atoms of the numerator from the `i`th on, cancelled against the
/// denominator: the used marks, the scalar, and the atoms kept.
pub open spec fn cancel_from(
    num: Seq<Elementary>,
    den: Seq<Elementary>,
    used: Seq<bool>,
    scalar: Ratio,
    kept: Seq<Elementary>,
    i: nat,
) -> (Seq<bool>, Ratio, Seq<Elementary>)
    decreases num.len() - i,
{
    if i >= num.len() {
        (used, scalar, kept)
    } else {
        let m = match_from(num[i as int], den, used, scalar, 0);
        cancel_from(
            num,
            den,
            m.0,
            m.1,
            if m.2 {
                kept
            } else {
                kept.push(num[i as int])
            },
            i + 1,
        )
    }
}

/// `acc` times the atoms from the `i`th on.
pub open spec fn fold_times(acc: Elementary, atoms: Seq<Elementary>, i: nat) -> Elementary
    decreases atoms.len() - i,
{
    if i >= atoms.len() {
        acc
    } else {
        fold_times(crate::differentiation::times(acc, atoms[i as int]), atoms, i + 1)
    }
}

/// `acc` times the unused atoms from the `k`th on.
pub open spec fn fold_unused(acc: Elementary, atoms: Seq<Elementary>, used: Seq<bool>, k: nat) -> Elementary
    decreases atoms.len() - k,
{
    if k >= atoms.len() {
        acc
    } else if !used[k as int] {
        fold_unused(crate::differentiation::times(acc, atoms[k as int]), atoms, used, k + 1)
    } else {
        fold_unused(acc, atoms, used, k + 1)
    }
}

/// The numerator and denominator left when the atoms of `num` and `den`
/// cancel: equal atoms pairwise, numeric ones into a scalar that leads the
/// numerator.
pub open spec fn cancelled_quotient(num: Seq<Elementary>, den: Seq<Elementary>) -> (
    Elementary,
    Elementary,
) {
    let c = cancel_from(
        num,
        den,
        Seq::new(den.len(), |j: int| false),
        Ratio { n: 1, d: 1 },
        Seq::empty(),
        0,
    );
    (
        fold_times(Elementary::Con(number_of(c.1)), c.2, 0),
        fold_unused(crate::differentiation::cint(1), den, c.0, 0),
    )
}

/// What dividing out owes for a quotient of sum-free products, `depth`
/// levels deep: the reduced quotient, or, when nothing is left below the
/// line, the simplified numerator.
pub open spec fn divided(e: Elementary, depth: nat, r: Result<Elementary, Error>) -> bool {
    e is Div && depth > 0 && mul_atoms(*e->Div_0, (depth - 1) as nat) is Some && mul_atoms(
        *e->Div_1,
        (depth - 1) as nat,
    ) is Some ==> {
        let q = cancelled_quotient(
            mul_atoms(*e->Div_0, (depth - 1) as nat)->0.filter(|a: Elementary| !is_one(a)),
            mul_atoms(*e->Div_1, (depth - 1) as nat)->0.filter(|a: Elementary| !is_one(a)),
        );
        &&& !is_one(q.1) ==> r == Ok::<Elementary, Error>(
            Elementary::Div(crate::differentiation::rc(q.0), crate::differentiation::rc(q.1)),
        )
        &&& is_one(q.1) ==> simplified_result(q.0, r) && (r matches Ok(t) ==> agree_on_probes(
            q.0,
            t,
        ))
    }
}

/// The multiplicative atoms of a product with no sum in it: the factors of
/// each product in turn, down to `depth` levels.
pub open spec fn mul_atoms(e: Elementary, depth: nat) -> Option<Seq<Elementary>>
    decreases depth,
{
    if depth == 0 {
        None
    } else {
        match e {
            Elementary::Mul(a, b) => match (
                mul_atoms(*a, (depth - 1) as nat),
                mul_atoms(*b, (depth - 1) as nat),
            ) {
                (Some(x), Some(y)) => Some(x + y),
                _ => None,
            },
            Elementary::Add(_, _) => None,
            _ => Some(seq![e]),
        }
    }
}

proof fn lemma_filter_twice(s: Seq<Elementary>)
    ensures
        s.filter(|a: Elementary| !is_one(a)).filter(|a: Elementary| !is_one(a)) == s.filter(
            |a: Elementary| !is_one(a),
        ),
    decreases s.len(),
{
    reveal_with_fuel(Seq::filter, 2);
    if s.len() > 0 {
        lemma_filter_twice(s.drop_last());
        let f = s.drop_last().filter(|a: Elementary| !is_one(a));
        if !is_one(s.last()) {
            f.lemma_filter_push(s.last(), |a: Elementary| !is_one(a));
        }
    }
}

/// The constant one.
pub open spec fn is_one(e: Elementary) -> bool {
    e matches Elementary::Con(c) && c.num == 1 && c.den == 1
}

pub open spec fn all_wf_e(v: Seq<Elementary>) -> bool {
    forall|i: int| 0 <= i < v.len() ==> (#[trigger] v[i]).wf()
}

/// A constant has the same exact value wherever it is taken.
pub proof fn lemma_constant_value(e: Elementary, x: Ratio, y: Ratio)
    requires
        constant_spec(e),
    ensures
        exact_value(e, x) == exact_value(e, y),
    decreases e,
{
    match e {
        Elementary::Add(a, b) | Elementary::Sub(a, b) | Elementary::Mul(a, b) | Elementary::Div(
            a,
            b,
        ) | Elementary::Pow(a, b) => {
            lemma_constant_value(inner(a), x, y);
            lemma_constant_value(inner(b), x, y);
        },
        Elementary::Abs(a) | Elementary::Factorial(a) | Elementary::Sin(a) | Elementary::Tan(a)
        | Elementary::Asin(a) | Elementary::Atan(a) | Elementary::Sinh(a) | Elementary::Tanh(a)
        | Elementary::Cos(a) | Elementary::Sec(a) | Elementary::Cosh(a) => {
            lemma_constant_value(inner(a), x, y);
        },
        _ => {},
    }
}

proof fn lemma_folded_agrees(e: Elementary)
    requires
        constant_spec(e),
        e.wf(),
        defined_on_probes(e),
    ensures
        agree_on_probes(e, folded(e)),
{
    assert forall|i: int| -PROBE_RANGE <= i <= PROBE_RANGE implies #[trigger] probe_agrees(
        e,
        folded(e),
        i,
    ) by {
        lemma_constant_value(e, rint(i), zero_r());
        if exact_value(e, zero_r()) is Some {
            crate::evaluation::lemma_exact_value_fits(e, zero_r());
        }
    }
}

/// A polynomial agrees with its canonical form at every probe.
proof fn lemma_polynomial_agrees(e: Elementary)
    requires
        e.wf(),
        poly_of(e) is Some,
    ensures
        agree_on_probes(e, build(poly_of(e)->0)),
{
    assert forall|i: int| -PROBE_RANGE <= i <= PROBE_RANGE implies #[trigger] probe_agrees(
        e,
        build(poly_of(e)->0),
        i,
    ) by {
        crate::number::lemma_gcd_one(crate::number::abs_int(i));
        vstd::arithmetic::div_mod::lemma_div_basics(crate::number::abs_int(i) as int);
        vstd::arithmetic::div_mod::lemma_div_basics(1);
        assert(crate::number::reduce(i, 1) == rint(i));
        crate::laws::law_simplify_preserves_value(e, rint(i));
        crate::laws::lemma_polynomial_defined(e, rint(i));
        crate::laws::lemma_canonical_defined(e, rint(i));
    }
}

/// Relies on `format!`: the message names the probe and both values.
#[verifier::external_body]
fn mismatch_message(i: i64, a: &Number, b: &Number) -> String {
    format!(
        "the simplified expression differs from the input at x = {}: {}/{} against {}/{}",
        i,
        a.num,
        a.den,
        b.num,
        b.den,
    )
}

impl Elementary {
    /// Compares an expression with its candidate simplification at the
    /// integer probes, exactly; the candidate is returned when they agree
    /// wherever both have an exact value.
    pub fn check_simplification(&self, new_function: Elementary) -> (r: Result<
        Elementary,
        Error,
    >)
        requires
            self.wf(),
            new_function.wf(),
        ensures
            match r {
                Ok(t) => t == new_function && agree_on_probes(*self, new_function),
                Err(e) => !agree_on_probes(*self, new_function) && e is InternalError,
            },
    {
        let mut i: i64 = -PROBE_RANGE;
        while i <= PROBE_RANGE
            invariant
                -PROBE_RANGE <= i <= PROBE_RANGE + 1,
                self.wf(),
                new_function.wf(),
                forall|j: int| -PROBE_RANGE <= j < i ==> #[trigger] probe_agrees(
                    *self,
                    new_function,
                    j,
                ),
            decreases PROBE_RANGE + 1 - i,
        {
            let x = Number::from_int(i);
            if self.has_zero_by_zero(&x) || new_function.has_zero_by_zero(&x) {
                proof {
                    assert(!probe_agrees(*self, new_function, i as int));
                }
                return Err(
                    Error::InternalError(
                        "an expression divides zero by zero at an integer probe".to_owned(),
                    ),
                );
            }
            match (self.evaluate_exact(&x), new_function.evaluate_exact(&x)) {
                (Some(a), Some(b)) => {
                    if a != b {
                        proof {
                            assert(!probe_agrees(*self, new_function, i as int));
                        }
                        return Err(Error::InternalError(mismatch_message(i, &a, &b)));
                    }
                },
                _ => {},
            }
            i = i + 1;
        }
        Ok(new_function)
    }

    /// Replaces a constant expression by its exact value where it has one
    /// (an expression with e, pi or a transcendental function stays as it
    /// is); a non-constant expression is refused.
    pub fn simplify_constant(&self) -> (r: Result<Elementary, Error>)
        requires
            self.wf(),
        ensures
            constant_spec(*self) ==> r == Ok::<Elementary, Error>(folded(*self)),
            !constant_spec(*self) ==> r matches Err(Error::SimplifyError(_, _)),
            r matches Ok(t) ==> t.wf(),
    {
        if self.is_constant() {
            match self.evaluate_exact(&Number::zero()) {
                Some(v) => Ok(Elementary::Con(v)),
                None => Ok(self.clone()),
            }
        } else {
            Err(
                Error::SimplifyError(
                    self.clone(),
                    "a non-constant expression cannot be folded to a constant".to_owned(),
                ),
            )
        }
    }

    /// Simplifies by category: a constant is folded, a polynomial is brought
    /// to canonical form, an exponential or trigonometric expression stays as
    /// it is, and any other expression is simplified part by part.  The
    /// result is then compared with the input at the integer probes.
    pub fn simplify(&self) -> (r: Result<Elementary, Error>)
        requires
            self.wf(),
        ensures
            r matches Ok(t) ==> t.wf() && agree_on_probes(*self, t),
            category_of(*self) == Category::Constant && defined_on_probes(*self) ==> r == Ok::<
                Elementary,
                Error,
            >(folded(*self)),
            !defined_on_probes(*self) ==> r is Err,
            category_of(*self) == Category::Polynomial ==> (match r {
                Ok(t) => poly_of(*self) is Some && t == build(poly_of(*self)->0),
                Err(_) => true,
            }),
            category_of(*self) == Category::Polynomial && poly_of(*self) is None ==> r is Err,
            category_of(*self) == Category::Polynomial && poly_of(*self) is Some ==> r == Ok::<
                Elementary,
                Error,
            >(build(poly_of(*self)->0)),
            (category_of(*self) == Category::Exponential || category_of(*self)
                == Category::Trigonometric) && defined_on_probes(*self) ==> r == Ok::<
                Elementary,
                Error,
            >(*self),
    {
        self.simplify_within(SIMPLIFY_DEPTH)
    }

    fn simplify_within(&self, depth: u32) -> (r: Result<Elementary, Error>)
        requires
            self.wf(),
        ensures
            r matches Ok(t) ==> t.wf() && agree_on_probes(*self, t),
            category_of(*self) == Category::Constant && defined_on_probes(*self) ==> r == Ok::<
                Elementary,
                Error,
            >(folded(*self)),
            !defined_on_probes(*self) ==> r is Err,
            category_of(*self) == Category::Polynomial ==> (match r {
                Ok(t) => poly_of(*self) is Some && t == build(poly_of(*self)->0),
                Err(_) => true,
            }),
            category_of(*self) == Category::Polynomial && poly_of(*self) is None ==> r is Err,
            category_of(*self) == Category::Polynomial && poly_of(*self) is Some ==> r == Ok::<
                Elementary,
                Error,
            >(build(poly_of(*self)->0)),
            (category_of(*self) == Category::Exponential || category_of(*self)
                == Category::Trigonometric) && defined_on_probes(*self) ==> r == Ok::<
                Elementary,
                Error,
            >(*self),
        decreases depth, 0nat,
    {
        let category = self.classify();
        let candidate = match category {
            Category::Constant => {
                let t = match self.simplify_constant() {
                    Ok(t) => t,
                    Err(e) => {
                        return Err(e);
                    },
                };
                proof {
                    if defined_on_probes(*self) {
                        lemma_folded_agrees(*self);
                    }
                }
                t
            },
            Category::Polynomial => {
                match simplify_polynomial(self.clone()) {
                    Ok(t) => {
                        proof {
                            lemma_polynomial_agrees(*self);
                        }
                        t
                    },
                    Err(e) => {
                        return Err(e);
                    },
                }
            },
            Category::Unclassified => {
                if depth == 0 {
                    return Err(Error::InternalError("simplification nests too deeply".to_owned()));
                }
                match self.simplify_operations_within(depth - 1) {
                    Ok(t) => t,
                    Err(e) => {
                        return Err(e);
                    },
                }
            },
            _ => self.clone(),
        };
        proof {
            if !defined_on_probes(*self) {
                let i = choose|i: int|
                    -PROBE_RANGE <= i <= PROBE_RANGE && #[trigger] zero_by_zero(*self, rint(i));
                assert(!probe_agrees(*self, candidate, i));
            }
            if defined_on_probes(*self) && candidate == *self {
                assert forall|i: int| -PROBE_RANGE <= i <= PROBE_RANGE implies #[trigger] probe_agrees(
                    *self,
                    candidate,
                    i,
                ) by {}
            }
        }
        self.check_simplification(candidate)
    }

    /// Simplifies each part of a product, quotient, sum, difference, power or
    /// logarithm and puts it back together; a quotient then has common
    /// factors cancelled, and a power has its exponent rules applied.
    pub fn simplify_operations(&self) -> (r: Result<Elementary, Error>)
        requires
            self.wf(),
        ensures
            r matches Ok(t) ==> t.wf(),
            !(*self is Mul || *self is Div || *self is Add || *self is Sub || *self is Pow
                || *self is Log) ==> r == Ok::<Elementary, Error>(*self),
            *self is Sub ==> (r matches Ok(t) ==> t is Sub),
            *self is Log ==> (r matches Ok(t) ==> t is Log),
            *self is Pow ==> power_rule(*self->Pow_0, *self->Pow_1, r),
    {
        self.simplify_operations_within(SIMPLIFY_DEPTH)
    }

    fn simplify_operations_within(&self, depth: u32) -> (r: Result<Elementary, Error>)
        requires
            self.wf(),
        ensures
            r matches Ok(t) ==> t.wf(),
            depth > 0 && !(*self is Mul || *self is Div || *self is Add || *self is Sub
                || *self is Pow || *self is Log) ==> r == Ok::<Elementary, Error>(*self),
            *self is Sub ==> (r matches Ok(t) ==> t is Sub),
            *self is Log ==> (r matches Ok(t) ==> t is Log),
            depth > 0 && *self is Pow ==> power_rule(*self->Pow_0, *self->Pow_1, r),
        decreases depth, 1nat,
    {
        if depth == 0 {
            return Err(Error::InternalError("simplification nests too deeply".to_owned()));
        }
        match self {
            Elementary::Mul(a, b) => {
                let sa = a.simplify_within(depth - 1)?;
                let sb = b.simplify_within(depth - 1)?;
                Ok(mul_folding(sa, sb))
            },
            Elementary::Div(a, b) => {
                let sa = a.simplify_within(depth - 1)?;
                let sb = b.simplify_within(depth - 1)?;
                Elementary::Div(node(sa), node(sb)).divide_within(depth - 1)
            },
            Elementary::Add(a, b) => {
                let sa = a.simplify_within(depth - 1)?;
                let sb = b.simplify_within(depth - 1)?;
                Ok(add_folding(sa, sb))
            },
            Elementary::Sub(a, b) => {
                let sa = a.simplify_within(depth - 1)?;
                let sb = b.simplify_within(depth - 1)?;
                Ok(Elementary::Sub(node(sa), node(sb)))
            },
            Elementary::Pow(a, b) => Elementary::simplify_power(a, b, depth - 1),
            Elementary::Log(a, b) => {
                let sa = a.simplify_within(depth - 1)?;
                let sb = b.simplify_within(depth - 1)?;
                Ok(Elementary::Log(node(sa), node(sb)))
            },
            _ => Ok(self.clone()),
        }
    }

    /// `base^exp`: the exponents zero and one are folded away, a power of a
    /// power multiplies the exponents, and otherwise both parts are
    /// simplified.
    fn simplify_power(base: &Arc<Elementary>, exp: &Arc<Elementary>, depth: u32) -> (r: Result<
        Elementary,
        Error,
    >)
        requires
            base.wf(),
            exp.wf(),
        ensures
            r matches Ok(t) ==> t.wf(),
            power_rule(**base, **exp, r),
        decreases depth, 1nat,
    {
        match &**exp {
            Elementary::Con(n) => {
                if n.num == 0 {
                    return Ok(Elementary::integer(1));
                } else if n.num == 1 && n.den == 1 {
                    return Ok((**base).clone());
                }
            },
            _ => {
                match &**base {
                    Elementary::X => {
                        return Ok(Elementary::Pow(share(base), share(exp)));
                    },
                    Elementary::Pow(inner_base, inner_exp) => {
                        proof {
                            crate::differentiation::lemma_times_wf(inner(*exp), inner(*inner_exp));
                        }
                        return Ok(
                            Elementary::Pow(
                                share(inner_base),
                                node(mul_folding((**exp).clone(), (**inner_exp).clone())),
                            ),
                        );
                    },
                    _ => {},
                }
            },
        }
        let sb = base.simplify_within(depth)?;
        let se = exp.simplify_within(depth)?;
        Ok(Elementary::Pow(node(sb), node(se)))
    }

    /// Cancels the factors that numerator and denominator share, folds
    /// numeric factors into one scalar, and rebuilds the quotient; when
    /// nothing is left of the denominator the numerator alone is returned,
    /// simplified.  Anything but a quotient is refused.
    pub fn divide(&self) -> (r: Result<Elementary, Error>)
        requires
            self.wf(),
        ensures
            !(*self is Div) ==> (r matches Err(Error::SimplifyError(e, _)) && e == *self),
            r matches Ok(t) ==> t.wf(),
            divided(*self, SIMPLIFY_DEPTH as nat, r),
    {
        self.divide_within(SIMPLIFY_DEPTH)
    }

    fn divide_within(&self, depth: u32) -> (r: Result<Elementary, Error>)
        requires
            self.wf(),
        ensures
            !(*self is Div) ==> (r matches Err(Error::SimplifyError(e, _)) && e == *self),
            r matches Ok(t) ==> t.wf(),
            divided(*self, depth as nat, r),
        decreases depth, 2nat,
    {
        let (numerator, denominator) = match self {
            Elementary::Div(n, d) => (n, d),
            _ => {
                return Err(
                    Error::SimplifyError(
                        self.clone(),
                        "only a quotient can be divided out".to_owned(),
                    ),
                );
            },
        };
        if depth == 0 {
            return Err(Error::InternalError("simplification nests too deeply".to_owned()));
        }
        let num_factors = numerator.factor_within(depth - 1)?;
        let den_factors = denominator.factor_within(depth - 1)?;
        let mut used: Vec<bool> = Vec::new();
        let mut j: usize = 0;
        while j < den_factors.len()
            invariant
                j <= den_factors@.len(),
                used@.len() == j,
                used@ == Seq::new(j as nat, |m: int| false),
            decreases den_factors@.len() - j,
        {
            used.push(false);
            proof {
                assert(used@ =~= Seq::new((j + 1) as nat, |m: int| false));
            }
            j = j + 1;
        }
        let ghost num_atoms = num_factors@;
        let ghost den_atoms = den_factors@;
        let ghost target = cancel_from(
            num_atoms,
            den_atoms,
            used@,
            Ratio { n: 1, d: 1 },
            Seq::empty(),
            0,
        );
        let mut scalar = Number::one();
        let mut new_numerator = Elementary::Con(scalar);
        let mut kept: Vec<Elementary> = Vec::new();
        let mut i: usize = 0;
        while i < num_factors.len()
            invariant
                i <= num_factors@.len(),
                used@.len() == den_factors@.len(),
                all_wf_e(num_factors@),
                all_wf_e(den_factors@),
                all_wf_e(kept@),
                scalar.wf(),
                num_atoms == num_factors@,
                den_atoms == den_factors@,
                target == cancel_from(num_atoms, den_atoms, used@, scalar.ratio(), kept@, i as nat),
            decreases num_factors@.len() - i,
        {
            let ghost u0 = used@;
            let ghost s0 = scalar.ratio();
            let mut cancelled = false;
            let mut k: usize = 0;
            while k < den_factors.len() && !cancelled
                invariant
                    i < num_factors@.len(),
                    k <= den_factors@.len(),
                    used@.len() == den_factors@.len(),
                    all_wf_e(num_factors@),
                    all_wf_e(den_factors@),
                    scalar.wf(),
                    num_atoms == num_factors@,
                    den_atoms == den_factors@,
                    !cancelled ==> match_from(num_atoms[i as int], den_atoms, u0, s0, 0) == match_from(
                        num_atoms[i as int],
                        den_atoms,
                        used@,
                        scalar.ratio(),
                        k as nat,
                    ),
                    cancelled ==> match_from(num_atoms[i as int], den_atoms, u0, s0, 0) == (
                        used@,
                        scalar.ratio(),
                        true,
                    ),
                decreases den_factors@.len() - k,
            {
                if !used[k] {
                    if num_factors[i].same(&den_factors[k]) {
                        used.set(k, true);
                        cancelled = true;
                    } else if let (Elementary::Con(a), Elementary::Con(b)) = (
                        &num_factors[i],
                        &den_factors[k],
                    ) {
                        assert(num_factors@[i as int].wf());
                        assert(den_factors@[k as int].wf());
                        if let Some(q) = a.div(b) {
                            if let Some(s) = scalar.mul(&q) {
                                scalar = s;
                                used.set(k, true);
                                cancelled = true;
                            }
                        }
                    }
                }
                k = k + 1;
            }
            if !cancelled {
                assert(num_factors@[i as int].wf());
                kept.push(num_factors[i].clone());
            }
            i = i + 1;
        }
        proof {
            assert(number_of(scalar.ratio()) == scalar);
        }
        new_numerator = Elementary::Con(scalar);
        let ghost start_num = new_numerator;
        let mut i: usize = 0;
        while i < kept.len()
            invariant
                i <= kept@.len(),
                all_wf_e(kept@),
                new_numerator.wf(),
                fold_times(start_num, kept@, 0) == fold_times(new_numerator, kept@, i as nat),
            decreases kept@.len() - i,
        {
            assert(kept@[i as int].wf());
            let before = new_numerator;
            new_numerator = mul_folding(before, kept[i].clone());
            proof {
                crate::differentiation::lemma_times_wf(before, kept@[i as int]);
            }
            i = i + 1;
        }
        let mut new_denominator = Elementary::integer(1);
        let mut k: usize = 0;
        while k < den_factors.len()
            invariant
                k <= den_factors@.len(),
                used@.len() == den_factors@.len(),
                all_wf_e(den_factors@),
                new_denominator.wf(),
                fold_unused(crate::differentiation::cint(1), den_factors@, used@, 0) == fold_unused(
                    new_denominator,
                    den_factors@,
                    used@,
                    k as nat,
                ),
            decreases den_factors@.len() - k,
        {
            if !used[k] {
                assert(den_factors@[k as int].wf());
                let before = new_denominator;
                new_denominator = mul_folding(before, den_factors[k].clone());
                proof {
                    crate::differentiation::lemma_times_wf(before, den_factors@[k as int]);
                }
            }
            k = k + 1;
        }
        if let Elementary::Con(c) = &new_denominator {
            if c.num == 1 && c.den == 1 {
                return new_numerator.simplify_within(depth - 1);
            }
        }
        Ok(Elementary::Div(node(new_numerator), node(new_denominator)))
    }

    /// The multiplicative atoms of an expression: a product is flattened, a
    /// sum has a factor common to both terms pulled out (or the gcd of two
    /// integer constants), and anything else is its own atom.  The constant
    /// one is left out.
    pub fn factor(&self) -> (r: Result<Vec<Elementary>, Error>)
        requires
            self.wf(),
        ensures
            r matches Ok(v) ==> all_wf_e(v@) && forall|i: int|
                0 <= i < v@.len() ==> !is_one(#[trigger] v@[i]),
            !(*self is Mul) && !(*self is Add) ==> (r matches Ok(v) && v@ == if is_one(*self) {
                Seq::<Elementary>::empty()
            } else {
                seq![*self]
            }),
            mul_atoms(*self, SIMPLIFY_DEPTH as nat) matches Some(v) ==> (r matches Ok(w) && w@
                == v.filter(|a: Elementary| !is_one(a))),
    {
        self.factor_within(SIMPLIFY_DEPTH)
    }

    fn factor_within(&self, depth: u32) -> (r: Result<Vec<Elementary>, Error>)
        requires
            self.wf(),
        ensures
            r matches Ok(v) ==> all_wf_e(v@) && forall|i: int|
                0 <= i < v@.len() ==> !is_one(#[trigger] v@[i]),
            depth > 0 && !(*self is Mul) && !(*self is Add) ==> (r matches Ok(v) && v@ == if is_one(
                *self,
            ) {
                Seq::<Elementary>::empty()
            } else {
                seq![*self]
            }),
            mul_atoms(*self, depth as nat) matches Some(v) ==> (r matches Ok(w) && w@ == v.filter(
                |a: Elementary| !is_one(a),
            )),
        decreases depth, 1nat,
    {
        if depth == 0 {
            return Err(Error::InternalError("simplification nests too deeply".to_owned()));
        }
        let mut factors: Vec<Elementary> = Vec::new();
        match self {
            Elementary::Mul(a, b) => {
                let mut fa = a.factor_within(depth - 1)?;
                let mut fb = b.factor_within(depth - 1)?;
                proof {
                    assert(all_wf_e(fa@ + fb@));
                    if mul_atoms(*self, depth as nat) is Some {
                        let x = mul_atoms(inner(*a), (depth - 1) as nat)->0;
                        let y = mul_atoms(inner(*b), (depth - 1) as nat)->0;
                        lemma_filter_twice(x);
                        lemma_filter_twice(y);
                        Seq::filter_distributes_over_add(x, y, |a: Elementary| !is_one(a));
                        Seq::filter_distributes_over_add(
                            x.filter(|a: Elementary| !is_one(a)),
                            y.filter(|a: Elementary| !is_one(a)),
                            |a: Elementary| !is_one(a),
                        );
                    }
                }
                fa.append(&mut fb);
                factors = fa;
            },
            Elementary::Add(a, b) => {
                let fa = a.factor_within(depth - 1)?;
                let fb = b.factor_within(depth - 1)?;
                let mut found = false;
                let mut i: usize = 0;
                while i < fa.len() && !found
                    invariant
                        i <= fa@.len(),
                        all_wf_e(fa@),
                        all_wf_e(fb@),
                        all_wf_e(factors@),
                        a.wf(),
                        b.wf(),
                        depth > 0,
                        *self is Add,
                    decreases fa@.len() - i,
                {
                    let mut k: usize = 0;
                    while k < fb.len() && !found
                        invariant
                            i < fa@.len(),
                            k <= fb@.len(),
                            all_wf_e(fa@),
                            all_wf_e(fb@),
                            all_wf_e(factors@),
                            a.wf(),
                            b.wf(),
                            depth > 0,
                            *self is Add,
                        decreases fb@.len() - k,
                    {
                        if fa[i].same(&fb[k]) {
                            assert(fa@[i as int].wf());
                            let common = node(fa[i].clone());
                            let left = Elementary::Div(share(a), share(&common)).divide_within(
                                depth - 1,
                            )?;
                            let right = Elementary::Div(share(b), share(&common)).divide_within(
                                depth - 1,
                            )?;
                            let rest = add_folding(left, right);
                            proof {
                                crate::differentiation::lemma_plus_wf(left, right);
                            }
                            let rest = rest.simplify_within(depth - 1)?;
                            factors.push(fa[i].clone());
                            factors.push(rest);
                            found = true;
                        }
                        k = k + 1;
                    }
                    i = i + 1;
                }
                if !found {
                    if let (Elementary::Con(x), Elementary::Con(y)) = (&**a, &**b) {
                        if x.den == 1 && y.den == 1 && (x.num != 0 || y.num != 0) {
                            let g = crate::number::gcd_i64(x.num, y.num);
                            if let (Some(gx), Some(gy)) = (
                                Number::from_parts(x.num as i128, g as i128),
                                Number::from_parts(y.num as i128, g as i128),
                            ) {
                                if let Some(s) = gx.add(&gy) {
                                    factors.push(Elementary::integer(g));
                                    factors.push(Elementary::Con(s));
                                    found = true;
                                }
                            }
                        }
                    }
                }
                if !found {
                    factors.push(self.clone());
                }
            },
            _ => {
                factors.push(self.clone());
            },
        }
        let ghost atoms = factors@;
        let mut res: Vec<Elementary> = Vec::new();
        let mut i: usize = 0;
        while i < factors.len()
            invariant
                i <= factors@.len(),
                factors@ == atoms,
                all_wf_e(factors@),
                all_wf_e(res@),
                forall|k: int| 0 <= k < res@.len() ==> !is_one(#[trigger] res@[k]),
                res@ == atoms.subrange(0, i as int).filter(|a: Elementary| !is_one(a)),
            decreases factors@.len() - i,
        {
            let one = match &factors[i] {
                Elementary::Con(c) => c.num == 1 && c.den == 1,
                _ => false,
            };
            proof {
                assert(atoms.subrange(0, i + 1).drop_last() =~= atoms.subrange(0, i as int));
                atoms.subrange(0, i as int).lemma_filter_push(
                    atoms[i as int],
                    |a: Elementary| !is_one(a),
                );
                assert(atoms.subrange(0, i + 1) =~= atoms.subrange(0, i as int).push(atoms[i as int]));
            }
            if !one {
                assert(factors@[i as int].wf());
                res.push(factors[i].clone());
            }
            i = i + 1;
        }
        proof {
            assert(atoms.subrange(0, atoms.len() as int) =~= atoms);
            if !(*self is Mul) && !(*self is Add) {
                assert(atoms =~= seq![*self]);
                assert(seq![*self] =~= Seq::<Elementary>::empty().push(*self));
                Seq::<Elementary>::empty().lemma_filter_push(*self, |a: Elementary| !is_one(a));
                if is_one(*self) {
                    assert(res@ =~= Seq::<Elementary>::empty());
                } else {
                    assert(res@ =~= seq![*self]);
                }
            }
        }
        Ok(res)
    }
}

} // verus!
