use vstd::prelude::*;

use crate::classification::{category_of, constant_spec, exponential_spec, polynomial_spec, Category};
use crate::differentiation::{cint, plus, rc};
use crate::evaluation::one_r;
use crate::expr::Elementary;
use crate::number::{abs_int, gcd, lemma_gcd_zero, radd, rdiv, reduce, rmul, rsub, Ratio};
use crate::polynomial::{
    build, build_upto, chunk, coef, fits_all, longer, number_of, padd,
    pdivide, pmul, pmul_from, poly_of, ppow, pscale, psub, shifted, zero_r, MAX_TERMS,
};
use crate::simplify::{agree_on_probes, folded, probe_agrees};
use crate::algebra::{
    eqv, lemma_add_cong, lemma_eqv_trans, lemma_mul_cong, lemma_pos_ops, lemma_radd_eqv,
    lemma_rdiv_eqv, lemma_reduced_unique, lemma_rmul_eqv, lemma_rsub_eqv, lemma_sub_cong, pos,
    raw_add, raw_inv, raw_mul, raw_sub,
};
use crate::evaluation::exact_value;
use crate::horner::{
    all_pos, horner, lemma_horner_padd, lemma_horner_pmul, lemma_horner_pos, lemma_horner_ppow,
    lemma_horner_psub, lemma_horner_scaled, lemma_horner_step, lemma_raw_pow_cong,
    lemma_raw_pow_pos, raw_pow,
};

verus! {

proof fn lemma_reduce_zero(d: int)
    requires
        d > 0,
    ensures
        reduce(0, d) == zero_r(),
{
    lemma_gcd_zero(d as nat);
    vstd::arithmetic::div_mod::lemma_div_basics(d);
}

proof fn lemma_one_reduced()
    ensures
        reduce(1, 1) == one_r(),
{
    reveal_with_fuel(gcd, 2);
    assert(gcd(1, 1) == 1) by {
        assert(1nat % 1 == 0);
    }
    vstd::arithmetic::div_mod::lemma_div_basics(1);
}

pub open spec fn is_reduced(r: Ratio) -> bool {
    r.d > 0 && reduce(r.n, r.d) == r
}

/// Zero and one are neutral, and zero absorbs.
proof fn lemma_ratio_identities(r: Ratio)
    requires
        is_reduced(r),
    ensures
        radd(r, zero_r()) == r,
        radd(zero_r(), r) == r,
        rmul(one_r(), r) == r,
        rmul(r, one_r()) == r,
        rmul(zero_r(), r) == zero_r(),
        rmul(r, zero_r()) == zero_r(),
{
    assert(r.n * 1 + 0 * r.d == r.n);
    assert(0 * r.d + r.n * 1 == r.n);
    assert(r.d * 1 == r.d);
    assert(1 * r.d == r.d);
    assert(1 * r.n == r.n);
    assert(r.n * 1 == r.n);
    assert(0 * r.n == 0);
    assert(r.n * 0 == 0);
    lemma_reduce_zero(r.d);
}

proof fn lemma_basic_reduced()
    ensures
        is_reduced(zero_r()),
        is_reduced(one_r()),
{
    lemma_reduce_zero(1);
    lemma_one_reduced();
}

/// A reduced zero is the canonical zero.
proof fn lemma_reduced_zero(r: Ratio)
    requires
        is_reduced(r),
        r.n == 0,
    ensures
        r == zero_r(),
{
    lemma_reduce_zero(r.d);
}

/// `c * x^k` as a coefficient list.
pub open spec fn monomial(c: Ratio, k: nat) -> Seq<Ratio> {
    Seq::new(k + 1, |i: int| if i == k { c } else { zero_r() })
}

pub open spec fn variable_list() -> Seq<Ratio> {
    seq![zero_r(), one_r()]
}

proof fn lemma_fits_small(r: Ratio)
    requires
        r == zero_r() || r == one_r(),
    ensures
        crate::number::fits(r),
{
}

proof fn lemma_monomial_fits(c: Ratio, k: nat)
    requires
        crate::number::fits(c),
        k + 1 <= MAX_TERMS,
    ensures
        fits_all(monomial(c, k)),
{
}

/// Multiplying `x^j` by `x`, from the `i`th coefficient on.
proof fn lemma_times_variable(j: nat, i: nat)
    requires
        i <= j,
        j + 2 <= MAX_TERMS,
    ensures
        pmul_from(monomial(one_r(), j), variable_list(), i) == Some(
            monomial(one_r(), (j - i + 1) as nat),
        ),
    decreases j - i,
{
    lemma_basic_reduced();
    lemma_ratio_identities(zero_r());
    lemma_ratio_identities(one_r());
    let p = monomial(one_r(), j);
    let q = variable_list();
    if i == j {
        assert(pmul_from(p, q, i + 1) == Some(Seq::<Ratio>::empty()));
        assert(Seq::new(q.len(), |t: int| rmul(q[t], p[i as int])) =~= variable_list());
        lemma_monomial_fits(one_r(), 1);
        assert(pscale(q, p[i as int]) == Some(variable_list()));
        let sh = shifted(Seq::<Ratio>::empty());
        assert(Seq::new(longer(variable_list(), sh), |t: int| radd(coef(variable_list(), t), coef(sh, t)))
            =~= monomial(one_r(), 1));
    } else {
        lemma_times_variable(j, i + 1);
        let rest = monomial(one_r(), (j - i) as nat);
        assert(Seq::new(q.len(), |t: int| rmul(q[t], p[i as int])) =~= seq![zero_r(), zero_r()]);
        assert(fits_all(seq![zero_r(), zero_r()]));
        assert(pscale(q, p[i as int]) == Some(seq![zero_r(), zero_r()]));
        let sh = shifted(rest);
        assert(sh =~= monomial(one_r(), (j - i + 1) as nat));
        let sum = Seq::new(
            longer(seq![zero_r(), zero_r()], sh),
            |t: int| radd(coef(seq![zero_r(), zero_r()], t), coef(sh, t)),
        );
        assert(sum =~= monomial(one_r(), (j - i + 1) as nat));
        lemma_monomial_fits(one_r(), (j - i + 1) as nat);
    }
}

/// `x^k` as a coefficient list.
proof fn lemma_variable_power(k: nat)
    requires
        k + 1 <= MAX_TERMS,
    ensures
        ppow(variable_list(), k) == Some(monomial(one_r(), k)),
    decreases k,
{
    if k == 0 {
        assert(seq![one_r()] =~= monomial(one_r(), 0));
    } else {
        lemma_variable_power((k - 1) as nat);
        lemma_times_variable((k - 1) as nat, 0);
    }
}

/// `c * x^k` for `k >= 1`.
proof fn lemma_scaled_power(c: Ratio, k: nat)
    requires
        is_reduced(c),
        crate::number::fits(c),
        1 <= k,
        k + 1 <= MAX_TERMS,
    ensures
        pmul(seq![c], monomial(one_r(), k)) == Some(monomial(c, k)),
{
    lemma_basic_reduced();
    lemma_ratio_identities(c);
    lemma_ratio_identities(zero_r());
    let p = seq![c];
    let u = monomial(one_r(), k);
    assert(pmul_from(p, u, 1) == Some(Seq::<Ratio>::empty()));
    assert(Seq::new(u.len(), |t: int| rmul(u[t], p[0])) =~= monomial(c, k));
    lemma_monomial_fits(c, k);
    let sh = shifted(Seq::<Ratio>::empty());
    assert(Seq::new(longer(monomial(c, k), sh), |t: int| radd(coef(monomial(c, k), t), coef(sh, t)))
        =~= monomial(c, k));
}

/// The coefficients of one monomial tree.
proof fn lemma_chunk_poly(c: Ratio, k: nat)
    requires
        is_reduced(c),
        crate::number::fits(c),
        c.n != 0,
        k + 1 <= MAX_TERMS,
    ensures
        poly_of(chunk(c, k)) == Some(monomial(c, k)),
{
    let power = Elementary::Pow(rc(Elementary::X), rc(cint(k as int)));
    if k >= 1 {
        lemma_variable_power(k);
        assert(poly_of(Elementary::X) == Some(variable_list()));
        assert((k as int) as i64 == k);
        assert(poly_of(power) == ppow(variable_list(), k));
    }
    if k == 0 {
        assert(number_of(c).ratio() == c);
        assert(chunk(c, k) == Elementary::Con(number_of(c)));
        assert(seq![c] =~= monomial(c, 0));
    } else if c.n == 1 && c.d == 1 && k == 1 {
        assert(chunk(c, k) == Elementary::X);
        assert(variable_list() =~= monomial(c, 1));
    } else {
        assert(number_of(c).ratio() == c);
        assert(chunk(c, k) == Elementary::Mul(rc(Elementary::Con(number_of(c))), rc(power)));
        assert(poly_of(Elementary::Con(number_of(c))) == Some(seq![c]));
        lemma_scaled_power(c, k);
    }
}

/// Every monomial tree is a polynomial and never an exponential; with a
/// nonzero coefficient and a positive degree it holds the variable.
proof fn lemma_chunk_shape(c: Ratio, k: nat)
    requires
        k + 1 <= MAX_TERMS,
    ensures
        polynomial_spec(chunk(c, k)),
        !exponential_spec(chunk(c, k)),
        c.n != 0 && k >= 1 ==> !(chunk(c, k) is Con) && !constant_spec(chunk(c, k)),
{
    let power = Elementary::Pow(rc(Elementary::X), rc(cint(k as int)));
    assert((k as int) as i64 == k);
    assert(!constant_spec(Elementary::X));
    assert(!constant_spec(power));
    assert(!exponential_spec(power));
    assert(polynomial_spec(Elementary::X));
    assert(polynomial_spec(power));
    assert(!exponential_spec(Elementary::Con(number_of(c))));
    assert(polynomial_spec(Elementary::Con(number_of(c))));
    assert(polynomial_spec(cint(0)));
    assert(polynomial_spec(Elementary::Mul(rc(Elementary::Con(number_of(c))), rc(power))));
    assert(!exponential_spec(Elementary::Mul(rc(Elementary::Con(number_of(c))), rc(power))));
    assert(!constant_spec(Elementary::Mul(rc(Elementary::Con(number_of(c))), rc(power))));
}

proof fn lemma_build_shape(c: Seq<Ratio>, m: nat)
    requires
        1 <= m <= c.len(),
        c.len() <= MAX_TERMS,
    ensures
        polynomial_spec(build_upto(c, m)),
        !exponential_spec(build_upto(c, m)),
        top(c, m) == 0 ==> build_upto(c, m) == chunk(c[0], 0),
        top(c, m) > 0 ==> !(build_upto(c, m) is Con) && !constant_spec(build_upto(c, m)),
    decreases m,
{
    if m > 1 {
        let k = (m - 1) as nat;
        lemma_build_shape(c, k);
        lemma_chunk_shape(c[k as int], k);
        let a = chunk(c[k as int], k);
        let b = build_upto(c, k);
        assert(build_upto(c, m) == plus(a, b));
        if c[k as int].n != 0 {
            assert(!(a is Con));
        }
    } else {
        lemma_chunk_shape(c[0], 0);
    }
}

/// The highest degree below `m` with a nonzero coefficient, or zero.
pub open spec fn top(c: Seq<Ratio>, m: nat) -> nat
    decreases m,
{
    if m <= 1 {
        0
    } else if c[m - 1].n != 0 {
        (m - 1) as nat
    } else {
        top(c, (m - 1) as nat)
    }
}

proof fn lemma_top(c: Seq<Ratio>, m: nat)
    requires
        1 <= m <= c.len(),
    ensures
        top(c, m) < m,
        forall|i: int| top(c, m) < i < m ==> (#[trigger] c[i]).n == 0,
        top(c, m) > 0 ==> c[top(c, m) as int].n != 0,
    decreases m,
{
    if m > 1 {
        lemma_top(c, (m - 1) as nat);
    }
}

pub open spec fn canonical(c: Seq<Ratio>) -> bool {
    &&& fits_all(c)
    &&& forall|i: int| 0 <= i < c.len() ==> is_reduced(#[trigger] c[i])
}

/// The canonical tree of the first `m` coefficients has as coefficients
/// those up to the highest nonzero one.
#[verifier::rlimit(60)]
proof fn lemma_build_poly(c: Seq<Ratio>, m: nat)
    requires
        canonical(c),
        1 <= m <= c.len(),
    ensures
        poly_of(build_upto(c, m)) == Some(c.subrange(0, top(c, m) as int + 1)),
    decreases m,
{
    lemma_basic_reduced();
    lemma_top(c, m);
    lemma_build_shape(c, m);
    if m <= 1 {
        let c0 = c[0];
        assert(is_reduced(c0));
        if c0.n == 0 {
            lemma_reduced_zero(c0);
            assert(seq![zero_r()] =~= c.subrange(0, 1));
        } else {
            assert(number_of(c0).ratio() == c0);
            assert(seq![c0] =~= c.subrange(0, 1));
        }
    } else {
        let k = (m - 1) as nat;
        lemma_build_poly(c, k);
        lemma_build_shape(c, k);
        lemma_top(c, k);
        let ck = c[k as int];
        let acc = build_upto(c, k);
        assert(is_reduced(ck));
        if ck.n == 0 {
            lemma_reduced_zero(ck);
        } else {
            lemma_chunk_poly(ck, k);
            let t = top(c, k);
            if acc matches Elementary::Con(n) && n.num == 0 {
                assert(t == 0);
                assert(is_reduced(c[0]));
                assert(c[0].n == 0);
                lemma_reduced_zero(c[0]);
                assert forall|i: int| 0 <= i < k implies #[trigger] c[i] == zero_r() by {
                    assert(is_reduced(c[i]));
                    if i > 0 {
                        assert(c[i].n == 0);
                    }
                    lemma_reduced_zero(c[i]);
                }
                assert(monomial(ck, k) =~= c.subrange(0, m as int));
            } else {
                let low = c.subrange(0, t as int + 1);
                let sum = Seq::new(
                    longer(monomial(ck, k), low),
                    |i: int| radd(coef(monomial(ck, k), i), coef(low, i)),
                );
                assert forall|i: int| 0 <= i < m implies #[trigger] sum[i] == c[i] by {
                    assert(is_reduced(c[i]));
                    lemma_ratio_identities(c[i]);
                    if t < i < k {
                        lemma_reduced_zero(c[i]);
                    }
                }
                assert(sum =~= c.subrange(0, m as int));
                assert(fits_all(sum));
            }
        }
    }
}

pub open spec fn all_canonical_entries(p: Seq<Ratio>) -> bool {
    forall|i: int| 0 <= i < p.len() ==> is_reduced(#[trigger] p[i])
}

proof fn lemma_reduce_is_reduced(n: int, d: int)
    requires
        d > 0,
    ensures
        is_reduced(reduce(n, d)),
{
    crate::number::lemma_reduce_reduced(n, d);
}

proof fn lemma_coef_positive(p: Seq<Ratio>, i: int)
    requires
        all_canonical_entries(p),
    ensures
        coef(p, i).d > 0,
{
}

proof fn lemma_padd_reduced(p: Seq<Ratio>, q: Seq<Ratio>)
    requires
        all_canonical_entries(p),
        all_canonical_entries(q),
        padd(p, q) is Some,
    ensures
        all_canonical_entries(padd(p, q)->0),
{
    assert forall|i: int| 0 <= i < padd(p, q)->0.len() implies is_reduced(
        #[trigger] padd(p, q)->0[i],
    ) by {
        lemma_coef_positive(p, i);
        lemma_coef_positive(q, i);
        let a = coef(p, i);
        let b = coef(q, i);
        assert(a.d * b.d > 0) by (nonlinear_arith)
            requires
                a.d > 0,
                b.d > 0,
        ;
        lemma_reduce_is_reduced(a.n * b.d + b.n * a.d, a.d * b.d);
    }
}

proof fn lemma_psub_reduced(p: Seq<Ratio>, q: Seq<Ratio>)
    requires
        all_canonical_entries(p),
        all_canonical_entries(q),
        psub(p, q) is Some,
    ensures
        all_canonical_entries(psub(p, q)->0),
{
    assert forall|i: int| 0 <= i < psub(p, q)->0.len() implies is_reduced(
        #[trigger] psub(p, q)->0[i],
    ) by {
        lemma_coef_positive(p, i);
        lemma_coef_positive(q, i);
        let a = coef(p, i);
        let b = coef(q, i);
        assert(a.d * b.d > 0) by (nonlinear_arith)
            requires
                a.d > 0,
                b.d > 0,
        ;
        lemma_reduce_is_reduced(a.n * b.d - b.n * a.d, a.d * b.d);
    }
}

proof fn lemma_pscale_reduced(p: Seq<Ratio>, c: Ratio)
    requires
        all_canonical_entries(p),
        c.d > 0,
        pscale(p, c) is Some,
    ensures
        all_canonical_entries(pscale(p, c)->0),
{
    assert forall|i: int| 0 <= i < pscale(p, c)->0.len() implies is_reduced(
        #[trigger] pscale(p, c)->0[i],
    ) by {
        let a = p[i];
        assert(a.d * c.d > 0) by (nonlinear_arith)
            requires
                a.d > 0,
                c.d > 0,
        ;
        lemma_reduce_is_reduced(a.n * c.n, a.d * c.d);
    }
}

proof fn lemma_pdivide_reduced(p: Seq<Ratio>, c: Ratio)
    requires
        all_canonical_entries(p),
        c.d > 0,
        c.n != 0,
        pdivide(p, c) is Some,
    ensures
        all_canonical_entries(pdivide(p, c)->0),
{
    assert forall|i: int| 0 <= i < pdivide(p, c)->0.len() implies is_reduced(
        #[trigger] pdivide(p, c)->0[i],
    ) by {
        let a = p[i];
        if c.n < 0 {
            assert(a.d * -c.n > 0) by (nonlinear_arith)
                requires
                    a.d > 0,
                    c.n < 0,
            ;
            lemma_reduce_is_reduced(-(a.n * c.d), a.d * -c.n);
        } else {
            assert(a.d * c.n > 0) by (nonlinear_arith)
                requires
                    a.d > 0,
                    c.n > 0,
            ;
            lemma_reduce_is_reduced(a.n * c.d, a.d * c.n);
        }
    }
}

proof fn lemma_pmul_from_reduced(p: Seq<Ratio>, q: Seq<Ratio>, i: nat)
    requires
        all_canonical_entries(p),
        all_canonical_entries(q),
        pmul_from(p, q, i) is Some,
    ensures
        all_canonical_entries(pmul_from(p, q, i)->0),
    decreases p.len() - i,
{
    if i < p.len() {
        lemma_pmul_from_reduced(p, q, i + 1);
        let rest = pmul_from(p, q, i + 1)->0;
        lemma_pscale_reduced(q, p[i as int]);
        lemma_basic_reduced();
        assert(all_canonical_entries(shifted(rest))) by {
            assert forall|t: int| 0 <= t < shifted(rest).len() implies is_reduced(
                #[trigger] shifted(rest)[t],
            ) by {
                if t > 0 {
                    assert(shifted(rest)[t] == rest[t - 1]);
                }
            }
        }
        lemma_padd_reduced(pscale(q, p[i as int])->0, shifted(rest));
    }
}

proof fn lemma_ppow_reduced(p: Seq<Ratio>, k: nat)
    requires
        all_canonical_entries(p),
        ppow(p, k) is Some,
    ensures
        all_canonical_entries(ppow(p, k)->0),
    decreases k,
{
    lemma_basic_reduced();
    if k > 0 {
        lemma_ppow_reduced(p, (k - 1) as nat);
        lemma_pmul_from_reduced(ppow(p, (k - 1) as nat)->0, p, 0);
    }
}

/// The coefficients of a polynomial fit and are in lowest terms.
proof fn lemma_poly_canonical(e: Elementary)
    requires
        e.wf(),
        poly_of(e) is Some,
    ensures
        all_canonical_entries(poly_of(e)->0),
        fits_all(poly_of(e)->0),
    decreases e,
{
    lemma_basic_reduced();
    match e {
        Elementary::X => {
            lemma_fits_small(zero_r());
            lemma_fits_small(one_r());
        },
        Elementary::Con(c) => {},
        Elementary::Add(a, b) => {
            lemma_poly_canonical(crate::expr::inner(a));
            lemma_poly_canonical(crate::expr::inner(b));
            lemma_padd_reduced(poly_of(crate::expr::inner(a))->0, poly_of(crate::expr::inner(b))->0);
        },
        Elementary::Sub(a, b) => {
            lemma_poly_canonical(crate::expr::inner(a));
            lemma_poly_canonical(crate::expr::inner(b));
            lemma_psub_reduced(poly_of(crate::expr::inner(a))->0, poly_of(crate::expr::inner(b))->0);
        },
        Elementary::Mul(a, b) => {
            lemma_poly_canonical(crate::expr::inner(a));
            lemma_poly_canonical(crate::expr::inner(b));
            lemma_pmul_from_reduced(
                poly_of(crate::expr::inner(a))->0,
                poly_of(crate::expr::inner(b))->0,
                0,
            );
        },
        Elementary::Pow(a, b) => {
            lemma_poly_canonical(crate::expr::inner(a));
            let c = crate::expr::inner(b)->Con_0;
            lemma_ppow_reduced(poly_of(crate::expr::inner(a))->0, c.num as nat);
        },
        Elementary::Div(a, b) => {
            lemma_poly_canonical(crate::expr::inner(a));
            let v = crate::evaluation::exact_value(crate::expr::inner(b), zero_r())->0;
            crate::evaluation::lemma_exact_value_fits(crate::expr::inner(b), zero_r());
            lemma_pdivide_reduced(poly_of(crate::expr::inner(a))->0, v);
        },
        _ => {},
    }
}

proof fn lemma_build_prefix(c: Seq<Ratio>, d: Seq<Ratio>, m: nat)
    requires
        1 <= m,
        m <= c.len(),
        m <= d.len(),
        forall|i: int| 0 <= i < m ==> c[i] == d[i],
    ensures
        build_upto(c, m) == build_upto(d, m),
    decreases m,
{
    if m > 1 {
        lemma_build_prefix(c, d, (m - 1) as nat);
        assert(c[m - 1] == d[m - 1]);
    } else {
        assert(coef(c, 0) == coef(d, 0));
    }
}

proof fn lemma_build_tail(c: Seq<Ratio>, k: nat, m: nat)
    requires
        1 <= k <= m <= c.len(),
        forall|i: int| k <= i < m ==> (#[trigger] c[i]).n == 0,
    ensures
        build_upto(c, m) == build_upto(c, k),
    decreases m,
{
    if m > k {
        lemma_build_tail(c, k, (m - 1) as nat);
        assert(c[m - 1].n == 0);
    }
}

/// Simplifying a polynomial a second time leaves its canonical form as it
/// is: the canonical tree is either a constant that folds to itself, or a
/// polynomial whose canonical tree is itself (and which trivially agrees
/// with itself at every probe).
pub proof fn law_simplify_idempotent(f: Elementary)
    requires
        f.wf(),
        category_of(f) == Category::Polynomial,
        poly_of(f) is Some,
    ensures
        ({
            let g = build(poly_of(f)->0);
            ||| category_of(g) == Category::Constant && folded(g) == g
            ||| category_of(g) == Category::Polynomial && poly_of(g) is Some && build(poly_of(g)->0)
                == g && agree_on_probes(g, g)
        }),
{
    lemma_basic_reduced();
    lemma_poly_canonical(f);
    let c = poly_of(f)->0;
    let g = build(c);
    let n = c.len();
    if n == 0 {
        assert(g == cint(0));
        assert(folded(g) == g);
    } else {
        lemma_build_poly(c, n);
        lemma_build_shape(c, n);
        lemma_top(c, n);
        let k = top(c, n);
        if k == 0 {
            assert(g == chunk(c[0], 0));
            assert(is_reduced(c[0]));
            assert(crate::number::fits(c[0]));
            assert(number_of(c[0]).ratio() == c[0]);
            assert(folded(g) == g);
        } else {
            let d = c.subrange(0, k as int + 1);
            lemma_build_tail(c, k + 1, n);
            lemma_build_prefix(d, c, k + 1);
            assert(build(d) == build_upto(c, k + 1));
            assert forall|i: int| -crate::simplify::PROBE_RANGE <= i <= crate::simplify::PROBE_RANGE
                implies #[trigger] probe_agrees(g, g, i) by {
                lemma_canonical_defined(f, crate::number::rint(i));
            }
        }
    }
}

/// The canonical form of a polynomial denotes the same polynomial: its
/// coefficients are those of the input, up to the highest nonzero one.
pub proof fn law_canonical_form_keeps_coefficients(f: Elementary)
    requires
        f.wf(),
        poly_of(f) is Some,
        poly_of(f)->0.len() > 0,
    ensures
        ({
            let c = poly_of(f)->0;
            &&& poly_of(build(c)) == Some(c.subrange(0, top(c, c.len()) as int + 1))
            &&& forall|i: int| top(c, c.len()) < i < c.len() ==> #[trigger] c[i] == zero_r()
        }),
{
    lemma_poly_canonical(f);
    let c = poly_of(f)->0;
    lemma_build_poly(c, c.len());
    lemma_top(c, c.len());
    assert forall|i: int| top(c, c.len()) < i < c.len() implies #[trigger] c[i] == zero_r() by {
        assert(is_reduced(c[i]));
        lemma_reduced_zero(c[i]);
    }
}

proof fn lemma_rpow_matches(u: Ratio, k: nat)
    requires
        pos(u),
        crate::evaluation::rpow_nat(u, k) is Some,
    ensures
        pos(crate::evaluation::rpow_nat(u, k)->0),
        eqv(crate::evaluation::rpow_nat(u, k)->0, raw_pow(u, k)),
    decreases k,
{
    if k > 0 {
        lemma_rpow_matches(u, (k - 1) as nat);
        let prev = crate::evaluation::rpow_nat(u, (k - 1) as nat)->0;
        lemma_rmul_eqv(prev, u);
        lemma_raw_pow_pos(u, (k - 1) as nat);
        lemma_mul_cong(prev, u, raw_pow(u, (k - 1) as nat), u);
        lemma_pos_ops(prev, u);
        lemma_raw_pow_pos(u, k);
        lemma_eqv_trans(rmul(prev, u), raw_mul(prev, u), raw_pow(u, k));
    }
}

proof fn lemma_coefficients_positive(e: Elementary)
    requires
        e.wf(),
        poly_of(e) is Some,
    ensures
        all_pos(poly_of(e)->0),
{
    lemma_poly_canonical(e);
}

proof fn lemma_value_of_variable(x: Ratio)
    requires
        pos(x),
    ensures
        eqv(x, horner(seq![zero_r(), one_r()], x, 0)),
{
    let c = seq![zero_r(), one_r()];
    assert(horner(c, x, 2) == zero_r());
    let h1 = raw_add(one_r(), raw_mul(x, zero_r()));
    assert(horner(c, x, 1) == h1);
    assert(x.n * 0 == 0) by (nonlinear_arith);
    assert(h1.n == 1 * (x.d * 1) + (x.n * 0) * 1);
    assert(h1 == Ratio { n: x.d, d: x.d });
    let h0 = raw_add(zero_r(), raw_mul(x, h1));
    assert(horner(c, x, 0) == h0);
    assert(0 * (x.d * x.d) == 0) by (nonlinear_arith);
    assert(h0 == Ratio { n: (x.n * x.d) * 1, d: 1 * (x.d * x.d) });
    assert(x.n * (1 * (x.d * x.d)) == ((x.n * x.d) * 1) * x.d) by (nonlinear_arith);
}

proof fn lemma_value_of_constant(k: Ratio, x: Ratio)
    requires
        pos(x),
        pos(k),
    ensures
        eqv(k, horner(seq![k], x, 0)),
{
    let c = seq![k];
    assert(horner(c, x, 1) == zero_r());
    assert(x.n * 0 == 0) by (nonlinear_arith);
    let h = raw_add(k, raw_mul(x, zero_r()));
    assert(horner(c, x, 0) == h);
    assert(h == Ratio { n: k.n * (x.d * 1) + (x.n * 0) * k.d, d: k.d * (x.d * 1) });
    assert(k.n * (k.d * (x.d * 1)) == (k.n * (x.d * 1) + (x.n * 0) * k.d) * k.d) by (nonlinear_arith);
}

proof fn lemma_value_of_operation(
    e: Elementary,
    x: Ratio,
    ua: Ratio,
    ub: Ratio,
    pa: Seq<Ratio>,
    pb: Seq<Ratio>,
)
    requires
        e is Add || e is Sub || e is Mul,
        pos(x),
        pos(ua),
        pos(ub),
        all_pos(pa),
        all_pos(pb),
        eqv(ua, horner(pa, x, 0)),
        eqv(ub, horner(pb, x, 0)),
        e is Add ==> padd(pa, pb) is Some,
        e is Sub ==> psub(pa, pb) is Some,
        e is Mul ==> pmul(pa, pb) is Some,
    ensures
        e is Add ==> eqv(radd(ua, ub), horner(padd(pa, pb)->0, x, 0)),
        e is Sub ==> eqv(rsub(ua, ub), horner(psub(pa, pb)->0, x, 0)),
        e is Mul ==> eqv(rmul(ua, ub), horner(pmul(pa, pb)->0, x, 0)),
{
    let ha = horner(pa, x, 0);
    let hb = horner(pb, x, 0);
    lemma_horner_pos(pa, x, 0);
    lemma_horner_pos(pb, x, 0);
    lemma_pos_ops(ua, ub);
    lemma_pos_ops(ha, hb);
    if e is Add {
        let c = padd(pa, pb)->0;
        crate::horner::lemma_all_pos_padd_pub(pa, pb);
        lemma_horner_pos(c, x, 0);
        lemma_radd_eqv(ua, ub);
        lemma_add_cong(ua, ub, ha, hb);
        lemma_horner_padd(pa, pb, x, 0);
        lemma_eqv_trans(radd(ua, ub), raw_add(ua, ub), raw_add(ha, hb));
        lemma_eqv_trans(radd(ua, ub), raw_add(ha, hb), horner(c, x, 0));
    } else if e is Sub {
        let c = psub(pa, pb)->0;
        crate::horner::lemma_all_pos_psub_pub(pa, pb);
        lemma_horner_pos(c, x, 0);
        lemma_rsub_eqv(ua, ub);
        lemma_sub_cong(ua, ub, ha, hb);
        lemma_horner_psub(pa, pb, x, 0);
        lemma_eqv_trans(rsub(ua, ub), raw_sub(ua, ub), raw_sub(ha, hb));
        lemma_eqv_trans(rsub(ua, ub), raw_sub(ha, hb), horner(c, x, 0));
    } else {
        let c = pmul(pa, pb)->0;
        lemma_horner_pmul(pa, pb, x, 0);
        lemma_horner_pos(c, x, 0);
        lemma_rmul_eqv(ua, ub);
        lemma_mul_cong(ua, ub, ha, hb);
        lemma_eqv_trans(rmul(ua, ub), raw_mul(ua, ub), raw_mul(ha, hb));
        lemma_eqv_trans(rmul(ua, ub), raw_mul(ha, hb), horner(c, x, 0));
    }
}

proof fn lemma_value_of_power(x: Ratio, ua: Ratio, pa: Seq<Ratio>, k: nat)
    requires
        pos(x),
        pos(ua),
        all_pos(pa),
        eqv(ua, horner(pa, x, 0)),
        ppow(pa, k) is Some,
        crate::evaluation::rpow_nat(ua, k) is Some,
    ensures
        eqv(crate::evaluation::rpow_nat(ua, k)->0, horner(ppow(pa, k)->0, x, 0)),
{
    let ha = horner(pa, x, 0);
    let u = crate::evaluation::rpow_nat(ua, k)->0;
    lemma_horner_pos(pa, x, 0);
    lemma_rpow_matches(ua, k);
    lemma_raw_pow_cong(ua, ha, k);
    lemma_horner_ppow(pa, x, k);
    lemma_horner_pos(ppow(pa, k)->0, x, 0);
    lemma_raw_pow_pos(ua, k);
    lemma_raw_pow_pos(ha, k);
    lemma_eqv_trans(u, raw_pow(ua, k), raw_pow(ha, k));
    lemma_eqv_trans(u, raw_pow(ha, k), horner(ppow(pa, k)->0, x, 0));
}

proof fn lemma_value_of_quotient(x: Ratio, ua: Ratio, pa: Seq<Ratio>, w: Ratio)
    requires
        pos(x),
        pos(ua),
        pos(w),
        w.n != 0,
        all_pos(pa),
        eqv(ua, horner(pa, x, 0)),
        pdivide(pa, w) is Some,
    ensures
        eqv(rdiv(ua, w), horner(pdivide(pa, w)->0, x, 0)),
{
    let c = pdivide(pa, w)->0;
    let ha = horner(pa, x, 0);
    lemma_horner_pos(pa, x, 0);
    lemma_rdiv_eqv(ua, w);
    let iw = raw_inv(w);
    assert(all_pos(c)) by {
        assert forall|j: int| 0 <= j < c.len() implies pos(#[trigger] c[j]) by {
            lemma_rdiv_eqv(pa[j], w);
        }
    }
    assert forall|j: int| 0 <= j < c.len() implies eqv(#[trigger] c[j], raw_mul(pa[j], iw)) by {
        lemma_rdiv_eqv(pa[j], w);
    }
    lemma_horner_scaled(c, pa, iw, x, 0);
    lemma_horner_pos(c, x, 0);
    lemma_pos_ops(ua, iw);
    lemma_pos_ops(ha, iw);
    lemma_mul_cong(ua, iw, ha, iw);
    lemma_eqv_trans(rdiv(ua, w), raw_mul(ua, iw), raw_mul(ha, iw));
    lemma_eqv_trans(rdiv(ua, w), raw_mul(ha, iw), horner(c, x, 0));
}

proof fn lemma_binary_case(e: Elementary, ea: Elementary, eb: Elementary, x: Ratio)
    requires
        e == Elementary::Add(crate::differentiation::rc(ea), crate::differentiation::rc(eb))
            || e == Elementary::Sub(crate::differentiation::rc(ea), crate::differentiation::rc(eb))
            || e == Elementary::Mul(crate::differentiation::rc(ea), crate::differentiation::rc(eb)),
        e.wf(),
        crate::number::fits(x),
        poly_of(e) is Some,
        exact_value(e, x) is Some,
    ensures
        pos(exact_value(e, x)->0),
        eqv(exact_value(e, x)->0, horner(poly_of(e)->0, x, 0)),
    decreases e, 0nat,
{
    crate::evaluation::lemma_exact_value_fits(e, x);
    lemma_value_of_coefficients(ea, x);
    lemma_value_of_coefficients(eb, x);
    lemma_coefficients_positive(ea);
    lemma_coefficients_positive(eb);
    lemma_value_of_operation(
        e,
        x,
        exact_value(ea, x)->0,
        exact_value(eb, x)->0,
        poly_of(ea)->0,
        poly_of(eb)->0,
    );
}

/// The exact value of a polynomial expression is the value of its
/// coefficients at the same point.
#[verifier::spinoff_prover]
#[verifier::rlimit(100)]
proof fn lemma_value_of_coefficients(e: Elementary, x: Ratio)
    requires
        e.wf(),
        crate::number::fits(x),
        poly_of(e) is Some,
        exact_value(e, x) is Some,
    ensures
        pos(exact_value(e, x)->0),
        eqv(exact_value(e, x)->0, horner(poly_of(e)->0, x, 0)),
    decreases e, 1nat,
{
    crate::evaluation::lemma_exact_value_fits(e, x);
    match e {
        Elementary::X => {
            lemma_value_of_variable(x);
        },
        Elementary::Con(k) => {
            lemma_value_of_constant(k.ratio(), x);
        },
        Elementary::Add(a, b) => {
            lemma_binary_case(e, crate::expr::inner(a), crate::expr::inner(b), x);
        },
        Elementary::Sub(a, b) => {
            lemma_binary_case(e, crate::expr::inner(a), crate::expr::inner(b), x);
        },
        Elementary::Mul(a, b) => {
            lemma_binary_case(e, crate::expr::inner(a), crate::expr::inner(b), x);
        },
        Elementary::Pow(a, b) => {
            let ea = crate::expr::inner(a);
            lemma_value_of_coefficients(ea, x);
            lemma_coefficients_positive(ea);
            let k = crate::expr::inner(b)->Con_0;
            assert(exact_value(crate::expr::inner(b), x) == Some(k.ratio()));
            assert(exact_value(e, x) == crate::evaluation::rpow_int(exact_value(ea, x)->0, k.num as int));
            lemma_value_of_power(x, exact_value(ea, x)->0, poly_of(ea)->0, k.num as nat);
        },
        Elementary::Div(a, b) => {
            let ea = crate::expr::inner(a);
            let eb = crate::expr::inner(b);
            lemma_value_of_coefficients(ea, x);
            lemma_coefficients_positive(ea);
            crate::simplify::lemma_constant_value(eb, x, zero_r());
            crate::evaluation::lemma_exact_value_fits(eb, zero_r());
            lemma_value_of_quotient(
                x,
                exact_value(ea, x)->0,
                poly_of(ea)->0,
                exact_value(eb, zero_r())->0,
            );
        },
        _ => {},
    }
}

/// Coefficients that are zero past degree `m` do not change the value.
proof fn lemma_horner_trailing(c: Seq<Ratio>, m: nat, x: Ratio, i: nat)
    requires
        m <= c.len(),
        all_pos(c),
        pos(x),
        forall|j: int| m <= j < c.len() ==> #[trigger] c[j] == zero_r(),
    ensures
        eqv(horner(c, x, i), horner(c.subrange(0, m as int), x, i)),
    decreases c.len() - i,
{
    let d = c.subrange(0, m as int);
    assert(all_pos(d));
    if i < c.len() {
        lemma_horner_trailing(c, m, x, i + 1);
        lemma_horner_pos(c, x, i + 1);
        lemma_horner_pos(d, x, i + 1);
        lemma_pos_ops(x, horner(c, x, i + 1));
        lemma_pos_ops(x, horner(d, x, i + 1));
        lemma_mul_cong(x, horner(c, x, i + 1), x, horner(d, x, i + 1));
        lemma_horner_step(d, x, i);
        lemma_horner_pos(d, x, i);
        lemma_pos_ops(c[i as int], raw_mul(x, horner(c, x, i + 1)));
        lemma_pos_ops(coef(d, i as int), raw_mul(x, horner(d, x, i + 1)));
        lemma_add_cong(
            c[i as int],
            raw_mul(x, horner(c, x, i + 1)),
            coef(d, i as int),
            raw_mul(x, horner(d, x, i + 1)),
        );
        lemma_eqv_trans(
            horner(c, x, i),
            raw_add(coef(d, i as int), raw_mul(x, horner(d, x, i + 1))),
            horner(d, x, i),
        );
    }
}

proof fn lemma_value_reduced(e: Elementary, x: Ratio)
    requires
        e.wf(),
        crate::number::fits(x),
        reduce(x.n, x.d) == x,
        exact_value(e, x) is Some,
    ensures
        reduce(exact_value(e, x)->0.n, exact_value(e, x)->0.d) == exact_value(e, x)->0,
    decreases e,
{
    crate::evaluation::lemma_exact_value_fits(e, x);
    let u = exact_value(e, x)->0;
    match e {
        Elementary::Add(a, b) | Elementary::Sub(a, b) | Elementary::Mul(a, b) | Elementary::Div(
            a,
            b,
        ) => {
            crate::evaluation::lemma_exact_value_fits(crate::expr::inner(a), x);
            crate::evaluation::lemma_exact_value_fits(crate::expr::inner(b), x);
            let ua = exact_value(crate::expr::inner(a), x)->0;
            let ub = exact_value(crate::expr::inner(b), x)->0;
            lemma_radd_eqv(ua, ub);
            lemma_rsub_eqv(ua, ub);
            lemma_rmul_eqv(ua, ub);
            lemma_pos_ops(ua, ub);
            crate::number::lemma_reduce_reduced(ua.n * ub.d + ub.n * ua.d, ua.d * ub.d);
            crate::number::lemma_reduce_reduced(ua.n * ub.d - ub.n * ua.d, ua.d * ub.d);
            crate::number::lemma_reduce_reduced(ua.n * ub.n, ua.d * ub.d);
            if e is Div {
                lemma_rdiv_eqv(ua, ub);
                if ub.n < 0 {
                    assert(ua.d * -ub.n > 0) by (nonlinear_arith)
                        requires
                            ua.d > 0,
                            ub.n < 0,
                    ;
                    crate::number::lemma_reduce_reduced(-(ua.n * ub.d), ua.d * -ub.n);
                } else {
                    assert(ua.d * ub.n > 0) by (nonlinear_arith)
                        requires
                            ua.d > 0,
                            ub.n > 0,
                    ;
                    crate::number::lemma_reduce_reduced(ua.n * ub.d, ua.d * ub.n);
                }
            }
        },
        Elementary::Pow(a, b) => {
            crate::evaluation::lemma_exact_value_fits(crate::expr::inner(a), x);
            let ua = exact_value(crate::expr::inner(a), x)->0;
            let v = exact_value(crate::expr::inner(b), x)->0;
            lemma_rpow_reduced(ua, abs_nat(v.n));
            if v.n < 0 {
                let p = crate::evaluation::rpow_nat(ua, abs_nat(v.n))->0;
                lemma_rpow_matches(ua, abs_nat(v.n));
                lemma_rdiv_eqv(one_r(), p);
                if p.n < 0 {
                    assert(1 * -p.n > 0);
                    crate::number::lemma_reduce_reduced(-(1 * p.d), 1 * -p.n);
                } else {
                    crate::number::lemma_reduce_reduced(1 * p.d, 1 * p.n);
                }
            }
        },
        Elementary::Abs(a) => {
            lemma_value_reduced(crate::expr::inner(a), x);
            let ua = exact_value(crate::expr::inner(a), x)->0;
            assert(crate::number::abs_int(crate::number::abs_int(ua.n) as int) == crate::number::abs_int(ua.n));
        },
        Elementary::Sin(_) | Elementary::Tan(_) | Elementary::Asin(_) | Elementary::Atan(_)
        | Elementary::Sinh(_) | Elementary::Tanh(_) | Elementary::Cos(_) | Elementary::Sec(_)
        | Elementary::Cosh(_) => {
            lemma_reduce_zero(1);
            lemma_one_reduced();
        },
        Elementary::Factorial(a) => {
            let ua = exact_value(crate::expr::inner(a), x)->0;
            let f = crate::combinatorics::factorial(ua.n as nat) as int;
            crate::combinatorics::lemma_factorial_pos(ua.n as nat);
            crate::number::lemma_gcd_one(crate::number::abs_int(f));
            vstd::arithmetic::div_mod::lemma_div_basics(f);
            vstd::arithmetic::div_mod::lemma_div_basics(1);
        },
        _ => {},
    }
}

pub open spec fn abs_nat(n: int) -> nat {
    if n < 0 {
        (-n) as nat
    } else {
        n as nat
    }
}

proof fn lemma_rpow_reduced(u: Ratio, k: nat)
    requires
        pos(u),
        crate::evaluation::rpow_nat(u, k) is Some,
    ensures
        reduce(crate::evaluation::rpow_nat(u, k)->0.n, crate::evaluation::rpow_nat(u, k)->0.d)
            == crate::evaluation::rpow_nat(u, k)->0,
    decreases k,
{
    if k == 0 {
        lemma_one_reduced();
    } else {
        lemma_rpow_reduced(u, (k - 1) as nat);
        lemma_rpow_matches(u, (k - 1) as nat);
        let prev = crate::evaluation::rpow_nat(u, (k - 1) as nat)->0;
        lemma_pos_ops(prev, u);
        crate::number::lemma_reduce_reduced(prev.n * u.n, prev.d * u.d);
    }
}

/// Simplifying a polynomial keeps its value: wherever the polynomial and
/// its canonical form both have an exact value, the values are equal.
pub proof fn law_simplify_preserves_value(f: Elementary, x: Ratio)
    requires
        f.wf(),
        poly_of(f) is Some,
        crate::number::fits(x),
        reduce(x.n, x.d) == x,
    ensures
        ({
            let g = build(poly_of(f)->0);
            exact_value(f, x) is Some && exact_value(g, x) is Some ==> exact_value(f, x)
                == exact_value(g, x)
        }),
{
    let c = poly_of(f)->0;
    let g = build(c);
    lemma_poly_canonical(f);
    crate::polynomial::lemma_build_wf(c);
    if exact_value(f, x) is Some && exact_value(g, x) is Some {
        let u = exact_value(f, x)->0;
        let v = exact_value(g, x)->0;
        lemma_value_of_coefficients(f, x);
        lemma_value_reduced(f, x);
        lemma_value_reduced(g, x);
        crate::evaluation::lemma_exact_value_fits(g, x);
        lemma_coefficients_positive(f);
        lemma_horner_pos(c, x, 0);
        if c.len() == 0 {
            assert(g == cint(0));
            assert(v == zero_r());
            assert(horner(c, x, 0) == zero_r());
        } else {
            lemma_build_poly(c, c.len());
            lemma_top(c, c.len());
            let m = top(c, c.len()) + 1;
            assert forall|j: int| m <= j < c.len() implies #[trigger] c[j] == zero_r() by {
                assert(is_reduced(c[j]));
                lemma_reduced_zero(c[j]);
            }
            lemma_horner_trailing(c, m, x, 0);
            lemma_value_of_coefficients(g, x);
            let d = c.subrange(0, m as int);
            assert(poly_of(g) == Some(d));
            assert(all_pos(d));
            lemma_horner_pos(d, x, 0);
            lemma_eqv_trans(u, horner(c, x, 0), horner(d, x, 0));
            lemma_eqv_trans(u, horner(d, x, 0), v);
        }
        lemma_reduced_unique(u, v);
    }
}

/// An expression with an exact value divides no zero by zero.
pub proof fn lemma_value_defined(e: Elementary, x: Ratio)
    requires
        exact_value(e, x) is Some,
    ensures
        !crate::evaluation::zero_by_zero(e, x),
    decreases e,
{
    match e {
        Elementary::Add(a, b) | Elementary::Sub(a, b) | Elementary::Mul(a, b) | Elementary::Div(
            a,
            b,
        ) | Elementary::Pow(a, b) => {
            lemma_value_defined(crate::expr::inner(a), x);
            lemma_value_defined(crate::expr::inner(b), x);
        },
        Elementary::Abs(a) | Elementary::Factorial(a) | Elementary::Sin(a) | Elementary::Tan(a)
        | Elementary::Asin(a) | Elementary::Atan(a) | Elementary::Sinh(a) | Elementary::Tanh(a)
        | Elementary::Cos(a) | Elementary::Sec(a) | Elementary::Cosh(a) => {
            lemma_value_defined(crate::expr::inner(a), x);
        },
        _ => {},
    }
}

/// A polynomial divides no zero by zero.
pub proof fn lemma_polynomial_defined(e: Elementary, x: Ratio)
    requires
        e.wf(),
        poly_of(e) is Some,
    ensures
        !crate::evaluation::zero_by_zero(e, x),
    decreases e,
{
    match e {
        Elementary::Add(a, b) => {
            lemma_polynomial_defined(crate::expr::inner(a), x);
            lemma_polynomial_defined(crate::expr::inner(b), x);
        },
        Elementary::Sub(a, b) => {
            lemma_polynomial_defined(crate::expr::inner(a), x);
            lemma_polynomial_defined(crate::expr::inner(b), x);
        },
        Elementary::Mul(a, b) => {
            lemma_polynomial_defined(crate::expr::inner(a), x);
            lemma_polynomial_defined(crate::expr::inner(b), x);
        },
        Elementary::Pow(a, b) => {
            lemma_polynomial_defined(crate::expr::inner(a), x);
            assert(!crate::evaluation::zero_by_zero(crate::expr::inner(b), x));
        },
        Elementary::Div(a, b) => {
            lemma_polynomial_defined(crate::expr::inner(a), x);
            crate::simplify::lemma_constant_value(crate::expr::inner(b), x, zero_r());
            lemma_value_defined(crate::expr::inner(b), x);
        },
        _ => {},
    }
}

/// The canonical form of a polynomial divides no zero by zero.
pub proof fn lemma_canonical_defined(e: Elementary, x: Ratio)
    requires
        e.wf(),
        poly_of(e) is Some,
    ensures
        !crate::evaluation::zero_by_zero(build(poly_of(e)->0), x),
{
    lemma_poly_canonical(e);
    let c = poly_of(e)->0;
    crate::polynomial::lemma_build_wf(c);
    if c.len() > 0 {
        lemma_build_poly(c, c.len());
        lemma_polynomial_defined(build(c), x);
    }
}

} // verus!
