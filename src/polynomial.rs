use vstd::prelude::*;

use crate::classification::constant_spec;
use crate::differentiation::{add_folding, cint, plus, rc};
use crate::evaluation::{exact_value, one_r};
use crate::expr::{node, Elementary};
use crate::number::{fits, radd, rdiv, rmul, rsub, Number, Ratio};
use crate::Error;

verus! {

/// The most coefficients a polynomial may have (its degree is below this).
pub const MAX_TERMS: usize = 4096;

pub open spec fn zero_r() -> Ratio {
    Ratio { n: 0, d: 1 }
}

/// The coefficient of degree `i`; zero beyond the list.
pub open spec fn coef(p: Seq<Ratio>, i: int) -> Ratio {
    if 0 <= i < p.len() {
        p[i]
    } else {
        zero_r()
    }
}

pub open spec fn fits_all(p: Seq<Ratio>) -> bool {
    p.len() <= MAX_TERMS && forall|i: int| 0 <= i < p.len() ==> fits(#[trigger] p[i])
}

pub open spec fn checked(p: Seq<Ratio>) -> Option<Seq<Ratio>> {
    if fits_all(p) {
        Some(p)
    } else {
        None
    }
}

pub open spec fn longer(p: Seq<Ratio>, q: Seq<Ratio>) -> nat {
    if p.len() >= q.len() {
        p.len()
    } else {
        q.len()
    }
}

/// Sum of two coefficient lists.
pub open spec fn padd(p: Seq<Ratio>, q: Seq<Ratio>) -> Option<Seq<Ratio>> {
    checked(Seq::new(longer(p, q), |i: int| radd(coef(p, i), coef(q, i))))
}

/// Difference of two coefficient lists.
pub open spec fn psub(p: Seq<Ratio>, q: Seq<Ratio>) -> Option<Seq<Ratio>> {
    checked(Seq::new(longer(p, q), |i: int| rsub(coef(p, i), coef(q, i))))
}

/// Every coefficient times `c`.
pub open spec fn pscale(p: Seq<Ratio>, c: Ratio) -> Option<Seq<Ratio>> {
    checked(Seq::new(p.len(), |i: int| rmul(p[i], c)))
}

/// Every coefficient divided by `c`.
pub open spec fn pdivide(p: Seq<Ratio>, c: Ratio) -> Option<Seq<Ratio>> {
    checked(Seq::new(p.len(), |i: int| rdiv(p[i], c)))
}

/// The list multiplied by the variable.
pub open spec fn shifted(p: Seq<Ratio>) -> Seq<Ratio> {
    seq![zero_r()] + p
}

/// The product of `p` without its first `i` coefficients (divided by
/// `x^i`) and `q`:  `p_i * q + x * (...)`.
pub open spec fn pmul_from(p: Seq<Ratio>, q: Seq<Ratio>, i: nat) -> Option<Seq<Ratio>>
    decreases p.len() - i,
{
    if i >= p.len() {
        Some(Seq::empty())
    } else {
        match pmul_from(p, q, i + 1) {
            None => None,
            Some(rest) => match pscale(q, p[i as int]) {
                None => None,
                Some(s) => padd(s, shifted(rest)),
            },
        }
    }
}

/// Product of two coefficient lists.
pub open spec fn pmul(p: Seq<Ratio>, q: Seq<Ratio>) -> Option<Seq<Ratio>> {
    pmul_from(p, q, 0)
}

/// `p^k` by repeated multiplication.
pub open spec fn ppow(p: Seq<Ratio>, k: nat) -> Option<Seq<Ratio>>
    decreases k,
{
    if k == 0 {
        Some(seq![one_r()])
    } else {
        match ppow(p, (k - 1) as nat) {
            Some(a) => pmul(a, p),
            None => None,
        }
    }
}

/// The coefficients (by degree) of a polynomial expression, where every
/// coefficient along the way fits in 64 bits and there are at most
/// `MAX_TERMS` of them.  Exponents must be integers in `[0, MAX_TERMS)`, and
/// a divisor must be a constant with a nonzero exact value.
pub open spec fn poly_of(e: Elementary) -> Option<Seq<Ratio>>
    decreases e,
{
    match e {
        Elementary::X => Some(seq![zero_r(), one_r()]),
        Elementary::Con(c) => Some(seq![c.ratio()]),
        Elementary::Add(a, b) => match (poly_of(*a), poly_of(*b)) {
            (Some(p), Some(q)) => padd(p, q),
            _ => None,
        },
        Elementary::Sub(a, b) => match (poly_of(*a), poly_of(*b)) {
            (Some(p), Some(q)) => psub(p, q),
            _ => None,
        },
        Elementary::Mul(a, b) => match (poly_of(*a), poly_of(*b)) {
            (Some(p), Some(q)) => pmul(p, q),
            _ => None,
        },
        Elementary::Pow(a, b) => match *b {
            Elementary::Con(c) => if c.den == 1 && 0 <= c.num < MAX_TERMS {
                match poly_of(*a) {
                    Some(p) => ppow(p, c.num as nat),
                    None => None,
                }
            } else {
                None
            },
            _ => None,
        },
        Elementary::Div(a, b) => if constant_spec(*b) {
            match (poly_of(*a), exact_value(*b, zero_r())) {
                (Some(p), Some(v)) => if v.n != 0 {
                    pdivide(p, v)
                } else {
                    None
                },
                _ => None,
            }
        } else {
            None
        },
        _ => None,
    }
}

pub open spec fn number_of(c: Ratio) -> Number {
    Number { num: c.n as i64, den: c.d as i64 }
}

/// The monomial `c * x^k` in canonical shape: zero, a constant (degree
/// zero), `x` (degree one, coefficient one), or `c * x^k`.
pub open spec fn chunk(c: Ratio, k: nat) -> Elementary {
    if c.n == 0 {
        cint(0)
    } else if k == 0 {
        Elementary::Con(number_of(c))
    } else if c.n == 1 && c.d == 1 && k == 1 {
        Elementary::X
    } else {
        Elementary::Mul(
            rc(Elementary::Con(number_of(c))),
            rc(Elementary::Pow(rc(Elementary::X), rc(cint(k as int)))),
        )
    }
}

/// The monomials of degree below `n`, the highest degree outermost.
pub open spec fn build_upto(c: Seq<Ratio>, n: nat) -> Elementary
    decreases n,
{
    if n <= 1 {
        chunk(coef(c, 0), 0)
    } else {
        plus(chunk(c[n - 1], (n - 1) as nat), build_upto(c, (n - 1) as nat))
    }
}

/// The canonical tree of a coefficient list: the sum of its nonzero
/// monomials, sorted by degree.
pub open spec fn build(c: Seq<Ratio>) -> Elementary {
    build_upto(c, c.len())
}

proof fn lemma_chunk_wf(c: Ratio, k: nat)
    requires
        fits(c),
        crate::number::reduce(c.n, c.d) == c,
        k <= MAX_TERMS,
    ensures
        chunk(c, k).wf(),
{
    crate::number::lemma_gcd_one(crate::number::abs_int(k as int));
    vstd::arithmetic::div_mod::lemma_div_basics(k as int);
    vstd::arithmetic::div_mod::lemma_div_basics(1);
    crate::number::lemma_gcd_one(0);
    vstd::arithmetic::div_mod::lemma_div_basics(0);
    assert(crate::number::reduce(k as int, 1) == Ratio { n: k as int, d: 1 });
    assert(crate::number::reduce(0, 1) == Ratio { n: 0, d: 1 });
    assert(number_of(c).ratio() == c);
    assert(number_of(c).wf());
    assert(cint(k as int).wf());
    assert(cint(0).wf());
    assert(Elementary::X.wf());
    assert(Elementary::Pow(rc(Elementary::X), rc(cint(k as int))).wf());
    assert(Elementary::Con(number_of(c)).wf());
}

/// Every coefficient that `poly_of` produces is in lowest terms.
pub open spec fn all_reduced(c: Seq<Ratio>) -> bool {
    forall|i: int| 0 <= i < c.len() ==> crate::number::reduce(#[trigger] c[i].n, c[i].d) == c[i]
}

/// The canonical tree of well-formed coefficients is well formed.
pub proof fn lemma_build_wf(c: Seq<Ratio>)
    requires
        fits_all(c),
        all_reduced(c),
    ensures
        build(c).wf(),
{
    lemma_build_upto_wf(c, c.len());
}

proof fn lemma_build_upto_wf(c: Seq<Ratio>, n: nat)
    requires
        fits_all(c),
        all_reduced(c),
        n <= c.len(),
    ensures
        build_upto(c, n).wf(),
    decreases n,
{
    if n <= 1 {
        if c.len() > 0 {
            lemma_chunk_wf(c[0], 0);
        } else {
            crate::number::lemma_gcd_one(0);
            vstd::arithmetic::div_mod::lemma_div_basics(0);
            vstd::arithmetic::div_mod::lemma_div_basics(1);
            assert(crate::number::reduce(0, 1) == zero_r());
            lemma_chunk_wf(zero_r(), 0);
        }
    } else {
        lemma_build_upto_wf(c, (n - 1) as nat);
        lemma_chunk_wf(c[n - 1], (n - 1) as nat);
        crate::differentiation::lemma_plus_wf(chunk(c[n - 1], (n - 1) as nat), build_upto(c, (n - 1) as nat));
    }
}

pub open spec fn rats(v: Seq<Number>) -> Seq<Ratio> {
    Seq::new(v.len(), |i: int| v[i].ratio())
}

pub open spec fn all_wf(v: Seq<Number>) -> bool {
    forall|i: int| 0 <= i < v.len() ==> (#[trigger] v[i]).wf()
}

fn coef_at(p: &Vec<Number>, i: usize) -> (r: Number)
    requires
        all_wf(p@),
    ensures
        r.wf(),
        r.ratio() == coef(rats(p@), i as int),
{
    if i < p.len() {
        p[i]
    } else {
        Number::zero()
    }
}

fn add_terms(p: &Vec<Number>, q: &Vec<Number>) -> (r: Option<Vec<Number>>)
    requires
        all_wf(p@),
        all_wf(q@),
    ensures
        match r {
            Some(v) => all_wf(v@) && padd(rats(p@), rats(q@)) == Some(rats(v@)),
            None => padd(rats(p@), rats(q@)) is None,
        },
{
    let ghost want = Seq::new(
        longer(rats(p@), rats(q@)),
        |i: int| radd(coef(rats(p@), i), coef(rats(q@), i)),
    );
    let n = if p.len() >= q.len() {
        p.len()
    } else {
        q.len()
    };
    if n > MAX_TERMS {
        return None;
    }
    let mut out: Vec<Number> = Vec::new();
    let mut i: usize = 0;
    while i < n
        invariant
            n == want.len(),
            want == Seq::new(
                longer(rats(p@), rats(q@)),
                |i: int| radd(coef(rats(p@), i), coef(rats(q@), i)),
            ),
            n <= MAX_TERMS,
            i <= n,
            out@.len() == i,
            all_wf(p@),
            all_wf(q@),
            all_wf(out@),
            forall|j: int| 0 <= j < i ==> (#[trigger] out@[j]).ratio() == want[j],
        decreases n - i,
    {
        let a = coef_at(p, i);
        let b = coef_at(q, i);
        match a.add(&b) {
            Some(s) => {
                out.push(s);
            },
            None => {
                proof {
                    assert(!fits(want[i as int]));
                }
                return None;
            },
        }
        i = i + 1;
    }
    proof {
        assert(rats(out@) =~= want);
        assert forall|j: int| 0 <= j < want.len() implies fits(#[trigger] want[j]) by {
            assert(out@[j].wf());
        }
    }
    Some(out)
}

fn sub_terms(p: &Vec<Number>, q: &Vec<Number>) -> (r: Option<Vec<Number>>)
    requires
        all_wf(p@),
        all_wf(q@),
    ensures
        match r {
            Some(v) => all_wf(v@) && psub(rats(p@), rats(q@)) == Some(rats(v@)),
            None => psub(rats(p@), rats(q@)) is None,
        },
{
    let ghost want = Seq::new(
        longer(rats(p@), rats(q@)),
        |i: int| rsub(coef(rats(p@), i), coef(rats(q@), i)),
    );
    let n = if p.len() >= q.len() {
        p.len()
    } else {
        q.len()
    };
    if n > MAX_TERMS {
        return None;
    }
    let mut out: Vec<Number> = Vec::new();
    let mut i: usize = 0;
    while i < n
        invariant
            n == want.len(),
            want == Seq::new(
                longer(rats(p@), rats(q@)),
                |i: int| rsub(coef(rats(p@), i), coef(rats(q@), i)),
            ),
            n <= MAX_TERMS,
            i <= n,
            out@.len() == i,
            all_wf(p@),
            all_wf(q@),
            all_wf(out@),
            forall|j: int| 0 <= j < i ==> (#[trigger] out@[j]).ratio() == want[j],
        decreases n - i,
    {
        let a = coef_at(p, i);
        let b = coef_at(q, i);
        match a.sub(&b) {
            Some(s) => {
                out.push(s);
            },
            None => {
                proof {
                    assert(!fits(want[i as int]));
                }
                return None;
            },
        }
        i = i + 1;
    }
    proof {
        assert(rats(out@) =~= want);
        assert forall|j: int| 0 <= j < want.len() implies fits(#[trigger] want[j]) by {
            assert(out@[j].wf());
        }
    }
    Some(out)
}

fn scale_terms(p: &Vec<Number>, c: &Number) -> (r: Option<Vec<Number>>)
    requires
        all_wf(p@),
        c.wf(),
    ensures
        match r {
            Some(v) => all_wf(v@) && pscale(rats(p@), c.ratio()) == Some(rats(v@)),
            None => pscale(rats(p@), c.ratio()) is None,
        },
{
    let ghost want = Seq::new(p@.len(), |i: int| rmul(rats(p@)[i], c.ratio()));
    let n = p.len();
    if n > MAX_TERMS {
        return None;
    }
    let mut out: Vec<Number> = Vec::new();
    let mut i: usize = 0;
    while i < n
        invariant
            n == want.len(),
            want == Seq::new(p@.len(), |i: int| rmul(rats(p@)[i], c.ratio())),
            n == p@.len(),
            n <= MAX_TERMS,
            i <= n,
            out@.len() == i,
            all_wf(p@),
            c.wf(),
            all_wf(out@),
            forall|j: int| 0 <= j < i ==> (#[trigger] out@[j]).ratio() == want[j],
        decreases n - i,
    {
        match p[i].mul(c) {
            Some(s) => {
                out.push(s);
            },
            None => {
                proof {
                    assert(!fits(want[i as int]));
                }
                return None;
            },
        }
        i = i + 1;
    }
    proof {
        assert(rats(out@) =~= want);
        assert forall|j: int| 0 <= j < want.len() implies fits(#[trigger] want[j]) by {
            assert(out@[j].wf());
        }
    }
    Some(out)
}

fn divide_terms(p: &Vec<Number>, c: &Number) -> (r: Option<Vec<Number>>)
    requires
        all_wf(p@),
        c.wf(),
        c.num != 0,
    ensures
        match r {
            Some(v) => all_wf(v@) && pdivide(rats(p@), c.ratio()) == Some(rats(v@)),
            None => pdivide(rats(p@), c.ratio()) is None,
        },
{
    let ghost want = Seq::new(p@.len(), |i: int| rdiv(rats(p@)[i], c.ratio()));
    let n = p.len();
    if n > MAX_TERMS {
        return None;
    }
    let mut out: Vec<Number> = Vec::new();
    let mut i: usize = 0;
    while i < n
        invariant
            n == want.len(),
            want == Seq::new(p@.len(), |i: int| rdiv(rats(p@)[i], c.ratio())),
            n == p@.len(),
            n <= MAX_TERMS,
            i <= n,
            out@.len() == i,
            all_wf(p@),
            c.wf(),
            c.num != 0,
            all_wf(out@),
            forall|j: int| 0 <= j < i ==> (#[trigger] out@[j]).ratio() == want[j],
        decreases n - i,
    {
        match p[i].div(c) {
            Some(s) => {
                out.push(s);
            },
            None => {
                proof {
                    assert(!fits(want[i as int]));
                }
                return None;
            },
        }
        i = i + 1;
    }
    proof {
        assert(rats(out@) =~= want);
        assert forall|j: int| 0 <= j < want.len() implies fits(#[trigger] want[j]) by {
            assert(out@[j].wf());
        }
    }
    Some(out)
}

fn shift_terms(p: &Vec<Number>) -> (r: Vec<Number>)
    requires
        all_wf(p@),
        p@.len() <= MAX_TERMS,
    ensures
        all_wf(r@),
        rats(r@) == shifted(rats(p@)),
{
    let mut out: Vec<Number> = Vec::new();
    out.push(Number::zero());
    let mut i: usize = 0;
    while i < p.len()
        invariant
            i <= p@.len(),
            p@.len() <= MAX_TERMS,
            out@.len() == i + 1,
            all_wf(p@),
            all_wf(out@),
            out@[0].ratio() == zero_r(),
            forall|k: int| 1 <= k <= i ==> (#[trigger] out@[k]).ratio() == p@[k - 1].ratio(),
        decreases p@.len() - i,
    {
        out.push(p[i]);
        i = i + 1;
    }
    proof {
        assert(rats(out@) =~= shifted(rats(p@)));
    }
    out
}

fn mul_terms(p: &Vec<Number>, q: &Vec<Number>) -> (r: Option<Vec<Number>>)
    requires
        all_wf(p@),
        all_wf(q@),
    ensures
        match r {
            Some(v) => all_wf(v@) && pmul(rats(p@), rats(q@)) == Some(rats(v@)),
            None => pmul(rats(p@), rats(q@)) is None,
        },
{
    let ghost pp = rats(p@);
    let ghost qq = rats(q@);
    let mut acc: Vec<Number> = Vec::new();
    let mut i: usize = p.len();
    proof {
        assert(rats(acc@) =~= Seq::<Ratio>::empty());
    }
    while i > 0
        invariant
            i <= p@.len(),
            pp == rats(p@),
            qq == rats(q@),
            all_wf(p@),
            all_wf(q@),
            all_wf(acc@),
            pmul_from(pp, qq, i as nat) == Some(rats(acc@)),
        decreases i,
    {
        i = i - 1;
        proof {
            assert(fits_all(rats(acc@)));
        }
        let s = match scale_terms(q, &p[i]) {
            Some(s) => s,
            None => {
                proof {
                    lemma_pmul_none_stays(pp, qq, i as nat);
                }
                return None;
            },
        };
        let sh = shift_terms(&acc);
        match add_terms(&s, &sh) {
            Some(v) => {
                acc = v;
            },
            None => {
                proof {
                    lemma_pmul_none_stays(pp, qq, i as nat);
                }
                return None;
            },
        }
    }
    Some(acc)
}

/// Once a partial product leaves the bounds, so does the whole product.
proof fn lemma_pmul_none_stays(p: Seq<Ratio>, q: Seq<Ratio>, i: nat)
    requires
        i <= p.len(),
        pmul_from(p, q, i) is None,
    ensures
        pmul(p, q) is None,
    decreases i,
{
    if i > 0 {
        assert(pmul_from(p, q, (i - 1) as nat) is None);
        lemma_pmul_none_stays(p, q, (i - 1) as nat);
    }
}

proof fn lemma_ppow_none_stays(p: Seq<Ratio>, i: nat, k: nat)
    requires
        i <= k,
        ppow(p, i) is None,
    ensures
        ppow(p, k) is None,
    decreases k,
{
    if i < k {
        lemma_ppow_none_stays(p, i, (k - 1) as nat);
    }
}

fn pow_terms(p: &Vec<Number>, k: usize) -> (r: Option<Vec<Number>>)
    requires
        all_wf(p@),
    ensures
        match r {
            Some(v) => all_wf(v@) && ppow(rats(p@), k as nat) == Some(rats(v@)),
            None => ppow(rats(p@), k as nat) is None,
        },
{
    let mut acc: Vec<Number> = Vec::new();
    acc.push(Number::one());
    proof {
        assert(rats(acc@) =~= seq![one_r()]);
    }
    let mut i: usize = 0;
    while i < k
        invariant
            i <= k,
            all_wf(p@),
            all_wf(acc@),
            ppow(rats(p@), i as nat) == Some(rats(acc@)),
        decreases k - i,
    {
        match mul_terms(&acc, p) {
            Some(v) => {
                acc = v;
            },
            None => {
                proof {
                    lemma_ppow_none_stays(rats(p@), (i + 1) as nat, k as nat);
                }
                return None;
            },
        }
        i = i + 1;
    }
    Some(acc)
}

/// The coefficients of a polynomial expression (see `poly_of`).
pub fn coefficients(e: &Elementary) -> (r: Option<Vec<Number>>)
    requires
        e.wf(),
    ensures
        match r {
            Some(v) => all_wf(v@) && poly_of(*e) == Some(rats(v@)),
            None => poly_of(*e) is None,
        },
    decreases e,
{
    match e {
        Elementary::X => {
            let mut v: Vec<Number> = Vec::new();
            v.push(Number::zero());
            v.push(Number::one());
            proof {
                assert(rats(v@) =~= seq![zero_r(), one_r()]);
            }
            Some(v)
        },
        Elementary::Con(c) => {
            let mut v: Vec<Number> = Vec::new();
            v.push(*c);
            proof {
                assert(rats(v@) =~= seq![c.ratio()]);
            }
            Some(v)
        },
        Elementary::Add(a, b) => match (coefficients(a), coefficients(b)) {
            (Some(p), Some(q)) => add_terms(&p, &q),
            _ => None,
        },
        Elementary::Sub(a, b) => match (coefficients(a), coefficients(b)) {
            (Some(p), Some(q)) => sub_terms(&p, &q),
            _ => None,
        },
        Elementary::Mul(a, b) => match (coefficients(a), coefficients(b)) {
            (Some(p), Some(q)) => mul_terms(&p, &q),
            _ => None,
        },
        Elementary::Pow(a, b) => match &**b {
            Elementary::Con(c) => {
                if c.den == 1 && 0 <= c.num && c.num < MAX_TERMS as i64 {
                    match coefficients(a) {
                        Some(p) => pow_terms(&p, c.num as usize),
                        None => None,
                    }
                } else {
                    None
                }
            },
            _ => None,
        },
        Elementary::Div(a, b) => {
            if b.is_constant() {
                match (coefficients(a), b.evaluate_exact(&Number::zero())) {
                    (Some(p), Some(v)) => {
                        if v.num != 0 {
                            divide_terms(&p, &v)
                        } else {
                            None
                        }
                    },
                    _ => None,
                }
            } else {
                None
            }
        },
        _ => None,
    }
}

fn chunk_node(c: Number, k: usize) -> (r: Elementary)
    requires
        c.wf(),
        k <= MAX_TERMS,
    ensures
        r == chunk(c.ratio(), k as nat),
{
    if c.num == 0 {
        Elementary::integer(0)
    } else if k == 0 {
        Elementary::Con(c)
    } else if c.num == 1 && c.den == 1 && k == 1 {
        Elementary::X
    } else {
        Elementary::Mul(
            node(Elementary::Con(c)),
            node(Elementary::Pow(node(Elementary::X), node(Elementary::integer(k as i64)))),
        )
    }
}

/// The canonical tree of a coefficient list (see `build`).
pub fn reconstruct(c: &Vec<Number>) -> (r: Elementary)
    requires
        all_wf(c@),
        c@.len() <= MAX_TERMS,
    ensures
        r == build(rats(c@)),
{
    let ghost cs = rats(c@);
    if c.len() == 0 {
        return Elementary::integer(0);
    }
    let mut acc = chunk_node(c[0], 0);
    let mut i: usize = 1;
    while i < c.len()
        invariant
            1 <= i <= c@.len(),
            c@.len() <= MAX_TERMS,
            cs == rats(c@),
            all_wf(c@),
            acc == build_upto(cs, i as nat),
        decreases c@.len() - i,
    {
        acc = add_folding(chunk_node(c[i], i), acc);
        i = i + 1;
    }
    acc
}

/// Rewrites a polynomial expression into its canonical form: the sum of its
/// monomials with combined coefficients, sorted by degree.  Fails exactly
/// when `poly_of` has no coefficients for it: a shape that is no polynomial,
/// a division by a non-constant (a rational function, which is not
/// supported) or by zero, an exponent out of range, or a coefficient beyond
/// 64 bits.
pub fn simplify_polynomial(polynomial: Elementary) -> (r: Result<Elementary, Error>)
    requires
        polynomial.wf(),
    ensures
        match r {
            Ok(t) => poly_of(polynomial) is Some && t == build(poly_of(polynomial)->0) && t.wf(),
            Err(e) => poly_of(polynomial) is None && e is SimplifyError,
        },
{
    match coefficients(&polynomial) {
        Some(c) => {
            proof {
                assert(fits_all(rats(c@)));
                assert forall|i: int| 0 <= i < rats(c@).len() implies crate::number::reduce(
                    #[trigger] rats(c@)[i].n,
                    rats(c@)[i].d,
                ) == rats(c@)[i] by {
                    assert(c@[i].wf());
                }
                lemma_build_wf(rats(c@));
            }
            Ok(reconstruct(&c))
        },
        None => {
            if is_rational(&polynomial) {
                Err(
                    Error::SimplifyError(
                        polynomial,
                        "rational polynomials cannot be simplified".to_owned(),
                    ),
                )
            } else {
                Err(
                    Error::SimplifyError(
                        polynomial,
                        "the expression has no exact polynomial form".to_owned(),
                    ),
                )
            }
        },
    }
}

/// A quotient whose denominator is not constant.
pub fn is_rational(polynomial: &Elementary) -> (r: bool)
    ensures
        r == (*polynomial matches Elementary::Div(_, b) && !constant_spec(*b)),
{
    match polynomial {
        Elementary::Div(_, b) => !b.is_constant(),
        _ => false,
    }
}

} // verus!
