use vstd::prelude::*;

use crate::algebra::{
    eqv, lemma_add_cong, lemma_distribute, lemma_eqv_trans, lemma_mul_cong, lemma_pos_ops,
    lemma_radd_eqv, lemma_rmul_eqv, lemma_rsub_eqv, lemma_sub_cong, pos, raw_add, raw_mul,
    raw_sub,
};
use crate::number::{radd, rsub, Ratio};
use crate::polynomial::{coef, padd, psub, zero_r};

verus! {

/// The value at `x` of the coefficients from degree `i` on, divided by
/// `x^i`, by Horner's scheme.
pub open spec fn horner(p: Seq<Ratio>, x: Ratio, i: nat) -> Ratio
    decreases p.len() - i,
{
    if i >= p.len() {
        zero_r()
    } else {
        raw_add(p[i as int], raw_mul(x, horner(p, x, i + 1)))
    }
}

pub open spec fn all_pos(p: Seq<Ratio>) -> bool {
    forall|j: int| 0 <= j < p.len() ==> pos(#[trigger] p[j])
}

pub proof fn lemma_horner_pos(p: Seq<Ratio>, x: Ratio, i: nat)
    requires
        all_pos(p),
        pos(x),
    ensures
        pos(horner(p, x, i)),
    decreases p.len() - i,
{
    if i < p.len() {
        lemma_horner_pos(p, x, i + 1);
        lemma_pos_ops(x, horner(p, x, i + 1));
        lemma_pos_ops(p[i as int], raw_mul(x, horner(p, x, i + 1)));
    }
}

/// Horner's step, also past the end of the list.
pub proof fn lemma_horner_step(p: Seq<Ratio>, x: Ratio, i: nat)
    requires
        pos(x),
    ensures
        eqv(horner(p, x, i), raw_add(coef(p, i as int), raw_mul(x, horner(p, x, i + 1)))),
{
    if i >= p.len() {
        assert(raw_mul(x, zero_r()) == Ratio { n: x.n * 0, d: x.d * 1 });
        assert(x.n * 0 == 0) by (nonlinear_arith);
        assert(raw_add(zero_r(), Ratio { n: 0, d: x.d * 1 }).n == 0) by (nonlinear_arith);
    }
}

/// `(a + b) + (c + d)` is `(a + c) + (b + d)`, and the same with
/// differences.
proof fn lemma_regroup(a: Ratio, b: Ratio, c: Ratio, d: Ratio)
    ensures
        raw_add(raw_add(a, b), raw_add(c, d)).d == raw_add(raw_add(a, c), raw_add(b, d)).d,
        raw_add(raw_add(a, b), raw_add(c, d)).n == raw_add(raw_add(a, c), raw_add(b, d)).n,
        raw_add(raw_sub(a, b), raw_sub(c, d)).n == raw_sub(raw_add(a, c), raw_add(b, d)).n,
        raw_add(raw_sub(a, b), raw_sub(c, d)).d == raw_sub(raw_add(a, c), raw_add(b, d)).d,
{
    assert((a.n * b.d) * (c.d * d.d) == (a.n * c.d) * (b.d * d.d)) by (nonlinear_arith);
    assert((b.n * a.d) * (c.d * d.d) == (b.n * d.d) * (a.d * c.d)) by (nonlinear_arith);
    assert((c.n * d.d) * (a.d * b.d) == (c.n * a.d) * (b.d * d.d)) by (nonlinear_arith);
    assert((d.n * c.d) * (a.d * b.d) == (d.n * b.d) * (a.d * c.d)) by (nonlinear_arith);
    assert((a.n * b.d + b.n * a.d) * (c.d * d.d) == (a.n * b.d) * (c.d * d.d) + (b.n * a.d) * (
    c.d * d.d)) by (nonlinear_arith);
    assert((c.n * d.d + d.n * c.d) * (a.d * b.d) == (c.n * d.d) * (a.d * b.d) + (d.n * c.d) * (
    a.d * b.d)) by (nonlinear_arith);
    assert((a.n * b.d - b.n * a.d) * (c.d * d.d) == (a.n * b.d) * (c.d * d.d) - (b.n * a.d) * (
    c.d * d.d)) by (nonlinear_arith);
    assert((c.n * d.d - d.n * c.d) * (a.d * b.d) == (c.n * d.d) * (a.d * b.d) - (d.n * c.d) * (
    a.d * b.d)) by (nonlinear_arith);
    assert((a.n * c.d + c.n * a.d) * (b.d * d.d) == (a.n * c.d) * (b.d * d.d) + (c.n * a.d) * (
    b.d * d.d)) by (nonlinear_arith);
    assert((b.n * d.d + d.n * b.d) * (a.d * c.d) == (b.n * d.d) * (a.d * c.d) + (d.n * b.d) * (
    a.d * c.d)) by (nonlinear_arith);
    assert((a.d * b.d) * (c.d * d.d) == (a.d * c.d) * (b.d * d.d)) by (nonlinear_arith);
}

/// The sum of two coefficient lists evaluates to the sum of their values.
pub proof fn lemma_horner_padd(p: Seq<Ratio>, q: Seq<Ratio>, x: Ratio, i: nat)
    requires
        all_pos(p),
        all_pos(q),
        pos(x),
        padd(p, q) is Some,
    ensures
        eqv(horner(padd(p, q)->0, x, i), raw_add(horner(p, x, i), horner(q, x, i))),
    decreases padd(p, q)->0.len() - i,
{
    let s = padd(p, q)->0;
    if i >= s.len() {
        assert(raw_add(zero_r(), zero_r()) == zero_r());
    } else {
        lemma_horner_padd(p, q, x, i + 1);
        let a = coef(p, i as int);
        let b = coef(q, i as int);
        let sp = horner(s, x, i + 1);
        let pp = horner(p, x, i + 1);
        let qp = horner(q, x, i + 1);
        lemma_horner_pos(p, x, i + 1);
        lemma_horner_pos(q, x, i + 1);
        assert(all_pos(s)) by {
            assert forall|j: int| 0 <= j < s.len() implies pos(#[trigger] s[j]) by {
                lemma_radd_eqv(coef(p, j), coef(q, j));
            }
        }
        lemma_horner_pos(s, x, i + 1);
        lemma_radd_eqv(a, b);
        assert(s[i as int] == radd(a, b));
        let ab = raw_add(a, b);
        let xs = raw_mul(x, sp);
        let xpq = raw_mul(x, raw_add(pp, qp));
        let xp = raw_mul(x, pp);
        let xq = raw_mul(x, qp);
        lemma_pos_ops(a, b);
        lemma_pos_ops(pp, qp);
        lemma_pos_ops(x, sp);
        lemma_pos_ops(x, raw_add(pp, qp));
        lemma_pos_ops(x, pp);
        lemma_pos_ops(x, qp);
        lemma_pos_ops(xp, xq);
        lemma_pos_ops(a, xp);
        lemma_pos_ops(b, xq);
        lemma_pos_ops(ab, xs);
        lemma_pos_ops(ab, xpq);
        lemma_pos_ops(ab, raw_add(xp, xq));
        lemma_pos_ops(raw_add(a, xp), raw_add(b, xq));
        lemma_pos_ops(s[i as int], xs);
        // step 1: s_i + x * S' ~ (a + b) + x * (P' + Q')
        lemma_mul_cong(x, sp, x, raw_add(pp, qp));
        lemma_add_cong(s[i as int], xs, ab, xpq);
        // step 2: x * (P' + Q') ~ x * P' + x * Q'
        lemma_distribute(x, pp, qp);
        lemma_add_cong(ab, xpq, ab, raw_add(xp, xq));
        lemma_eqv_trans(raw_add(s[i as int], xs), raw_add(ab, xpq), raw_add(ab, raw_add(xp, xq)));
        // step 3: regroup
        lemma_regroup(a, b, xp, xq);
        let target = raw_add(raw_add(a, xp), raw_add(b, xq));
        assert(raw_add(ab, raw_add(xp, xq)) == target);
        // step 4: back to Horner
        lemma_horner_step(p, x, i);
        lemma_horner_step(q, x, i);
        lemma_horner_pos(p, x, i);
        lemma_horner_pos(q, x, i);
        lemma_add_cong(raw_add(a, xp), raw_add(b, xq), horner(p, x, i), horner(q, x, i));
        lemma_pos_ops(horner(p, x, i), horner(q, x, i));
        lemma_eqv_trans(
            raw_add(s[i as int], xs),
            target,
            raw_add(horner(p, x, i), horner(q, x, i)),
        );
    }
}

/// The difference of two coefficient lists evaluates to the difference of
/// their values.
pub proof fn lemma_horner_psub(p: Seq<Ratio>, q: Seq<Ratio>, x: Ratio, i: nat)
    requires
        all_pos(p),
        all_pos(q),
        pos(x),
        psub(p, q) is Some,
    ensures
        eqv(horner(psub(p, q)->0, x, i), raw_sub(horner(p, x, i), horner(q, x, i))),
    decreases psub(p, q)->0.len() - i,
{
    let s = psub(p, q)->0;
    if i >= s.len() {
        assert(raw_sub(zero_r(), zero_r()) == zero_r());
    } else {
        lemma_horner_psub(p, q, x, i + 1);
        let a = coef(p, i as int);
        let b = coef(q, i as int);
        let sp = horner(s, x, i + 1);
        let pp = horner(p, x, i + 1);
        let qp = horner(q, x, i + 1);
        lemma_horner_pos(p, x, i + 1);
        lemma_horner_pos(q, x, i + 1);
        assert(all_pos(s)) by {
            assert forall|j: int| 0 <= j < s.len() implies pos(#[trigger] s[j]) by {
                lemma_rsub_eqv(coef(p, j), coef(q, j));
            }
        }
        lemma_horner_pos(s, x, i + 1);
        lemma_rsub_eqv(a, b);
        assert(s[i as int] == rsub(a, b));
        let ab = raw_sub(a, b);
        let xs = raw_mul(x, sp);
        let xpq = raw_mul(x, raw_sub(pp, qp));
        let xp = raw_mul(x, pp);
        let xq = raw_mul(x, qp);
        lemma_pos_ops(a, b);
        lemma_pos_ops(pp, qp);
        lemma_pos_ops(x, sp);
        lemma_pos_ops(x, raw_sub(pp, qp));
        lemma_pos_ops(x, pp);
        lemma_pos_ops(x, qp);
        lemma_pos_ops(xp, xq);
        lemma_pos_ops(a, xp);
        lemma_pos_ops(b, xq);
        lemma_pos_ops(ab, xs);
        lemma_pos_ops(ab, xpq);
        lemma_pos_ops(ab, raw_sub(xp, xq));
        lemma_pos_ops(raw_add(a, xp), raw_add(b, xq));
        lemma_pos_ops(s[i as int], xs);
        lemma_mul_cong(x, sp, x, raw_sub(pp, qp));
        lemma_add_cong(s[i as int], xs, ab, xpq);
        lemma_distribute(x, pp, qp);
        lemma_add_cong(ab, xpq, ab, raw_sub(xp, xq));
        lemma_eqv_trans(raw_add(s[i as int], xs), raw_add(ab, xpq), raw_add(ab, raw_sub(xp, xq)));
        lemma_regroup(a, b, xp, xq);
        let target = raw_sub(raw_add(a, xp), raw_add(b, xq));
        assert(raw_add(ab, raw_sub(xp, xq)) == target);
        lemma_horner_step(p, x, i);
        lemma_horner_step(q, x, i);
        lemma_horner_pos(p, x, i);
        lemma_horner_pos(q, x, i);
        lemma_sub_cong(raw_add(a, xp), raw_add(b, xq), horner(p, x, i), horner(q, x, i));
        lemma_pos_ops(horner(p, x, i), horner(q, x, i));
        lemma_pos_ops(raw_add(a, xp), raw_add(b, xq));
        lemma_eqv_trans(
            raw_add(s[i as int], xs),
            target,
            raw_sub(horner(p, x, i), horner(q, x, i)),
        );
    }
}

pub open spec fn one_r() -> Ratio {
    Ratio { n: 1, d: 1 }
}

/// `a^k` by repeated raw multiplication.
pub open spec fn raw_pow(a: Ratio, k: nat) -> Ratio
    decreases k,
{
    if k == 0 {
        one_r()
    } else {
        raw_mul(raw_pow(a, (k - 1) as nat), a)
    }
}

proof fn lemma_mul_comm_assoc(a: Ratio, b: Ratio, c: Ratio)
    ensures
        raw_mul(a, b) == raw_mul(b, a),
        raw_mul(a, raw_mul(b, c)) == raw_mul(raw_mul(a, b), c),
{
    assert(a.n * b.n == b.n * a.n) by (nonlinear_arith);
    assert(a.d * b.d == b.d * a.d) by (nonlinear_arith);
    assert(a.n * (b.n * c.n) == (a.n * b.n) * c.n) by (nonlinear_arith);
    assert(a.d * (b.d * c.d) == (a.d * b.d) * c.d) by (nonlinear_arith);
}

/// `(u + v) * c` and `u * c + v * c` are the same number.
pub proof fn lemma_distribute_right(u: Ratio, v: Ratio, c: Ratio)
    requires
        pos(u),
        pos(v),
        pos(c),
    ensures
        eqv(raw_mul(raw_add(u, v), c), raw_add(raw_mul(u, c), raw_mul(v, c))),
{
    lemma_distribute(c, u, v);
    lemma_mul_comm_assoc(raw_add(u, v), c, c);
    lemma_mul_comm_assoc(u, c, c);
    lemma_mul_comm_assoc(v, c, c);
}

proof fn lemma_zero_times(c: Ratio)
    requires
        pos(c),
    ensures
        eqv(zero_r(), raw_mul(zero_r(), c)),
        eqv(raw_mul(c, zero_r()), zero_r()),
{
    assert(0 * c.n == 0) by (nonlinear_arith);
    assert(c.n * 0 == 0) by (nonlinear_arith);
}

proof fn lemma_zero_plus(y: Ratio)
    ensures
        raw_add(zero_r(), y) == y,
{
    assert(0 * y.d == 0) by (nonlinear_arith);
}

/// A list whose entries are those of `q` times `c` evaluates to the value of
/// `q` times `c`.
pub proof fn lemma_horner_scaled(s: Seq<Ratio>, q: Seq<Ratio>, c: Ratio, x: Ratio, i: nat)
    requires
        s.len() == q.len(),
        all_pos(q),
        all_pos(s),
        pos(c),
        pos(x),
        forall|j: int| 0 <= j < s.len() ==> eqv(#[trigger] s[j], raw_mul(q[j], c)),
    ensures
        eqv(horner(s, x, i), raw_mul(horner(q, x, i), c)),
    decreases q.len() - i,
{
    if i >= q.len() {
        lemma_zero_times(c);
    } else {
        lemma_horner_scaled(s, q, c, x, i + 1);
        let qi = q[i as int];
        let sp = horner(s, x, i + 1);
        let qp = horner(q, x, i + 1);
        lemma_horner_pos(s, x, i + 1);
        lemma_horner_pos(q, x, i + 1);
        lemma_pos_ops(qp, c);
        lemma_pos_ops(x, qp);
        lemma_pos_ops(x, sp);
        lemma_pos_ops(qi, c);
        lemma_pos_ops(x, raw_mul(qp, c));
        lemma_pos_ops(raw_mul(x, qp), c);
        lemma_pos_ops(s[i as int], raw_mul(x, sp));
        lemma_pos_ops(raw_mul(qi, c), raw_mul(x, raw_mul(qp, c)));
        lemma_pos_ops(qi, raw_mul(x, qp));
        lemma_pos_ops(raw_add(qi, raw_mul(x, qp)), c);
        lemma_mul_cong(x, sp, x, raw_mul(qp, c));
        lemma_add_cong(s[i as int], raw_mul(x, sp), raw_mul(qi, c), raw_mul(x, raw_mul(qp, c)));
        lemma_mul_comm_assoc(x, qp, c);
        lemma_distribute_right(qi, raw_mul(x, qp), c);
        lemma_eqv_trans(
            horner(s, x, i),
            raw_add(raw_mul(qi, c), raw_mul(raw_mul(x, qp), c)),
            raw_mul(raw_add(qi, raw_mul(x, qp)), c),
        );
    }
}

/// Multiplying by the variable shifts the coefficients.
pub proof fn lemma_horner_shifted(r: Seq<Ratio>, x: Ratio, i: nat)
    ensures
        horner(crate::polynomial::shifted(r), x, i + 1) == horner(r, x, i),
    decreases r.len() - i,
{
    let sh = crate::polynomial::shifted(r);
    if i < r.len() {
        lemma_horner_shifted(r, x, i + 1);
        assert(sh[i as int + 1] == r[i as int]);
    }
}

proof fn lemma_all_pos_padd(p: Seq<Ratio>, q: Seq<Ratio>)
    requires
        all_pos(p),
        all_pos(q),
        padd(p, q) is Some,
    ensures
        all_pos(padd(p, q)->0),
{
    let s = padd(p, q)->0;
    assert forall|j: int| 0 <= j < s.len() implies pos(#[trigger] s[j]) by {
        lemma_radd_eqv(coef(p, j), coef(q, j));
    }
}

/// The product of two coefficient lists evaluates to the product of their
/// values.
pub proof fn lemma_horner_pmul(p: Seq<Ratio>, q: Seq<Ratio>, x: Ratio, i: nat)
    requires
        all_pos(p),
        all_pos(q),
        pos(x),
        crate::polynomial::pmul_from(p, q, i) is Some,
    ensures
        all_pos(crate::polynomial::pmul_from(p, q, i)->0),
        eqv(
            horner(crate::polynomial::pmul_from(p, q, i)->0, x, 0),
            raw_mul(horner(p, x, i), horner(q, x, 0)),
        ),
    decreases p.len() - i,
{
    let qq = horner(q, x, 0);
    lemma_horner_pos(q, x, 0);
    if i >= p.len() {
        lemma_zero_times(qq);
        assert(raw_mul(zero_r(), qq) == Ratio { n: 0 * qq.n, d: 1 * qq.d });
    } else {
        lemma_horner_pmul(p, q, x, i + 1);
        let rest = crate::polynomial::pmul_from(p, q, i + 1)->0;
        let pi = p[i as int];
        let s = crate::polynomial::pscale(q, pi)->0;
        let sh = crate::polynomial::shifted(rest);
        assert(all_pos(s)) by {
            assert forall|j: int| 0 <= j < s.len() implies pos(#[trigger] s[j]) by {
                lemma_rmul_eqv(q[j], pi);
            }
        }
        assert forall|j: int| 0 <= j < s.len() implies eqv(#[trigger] s[j], raw_mul(q[j], pi)) by {
            lemma_rmul_eqv(q[j], pi);
        }
        assert(all_pos(sh)) by {
            assert forall|j: int| 0 <= j < sh.len() implies pos(#[trigger] sh[j]) by {
                if j > 0 {
                    assert(sh[j] == rest[j - 1]);
                }
            }
        }
        lemma_all_pos_padd(s, sh);
        lemma_horner_padd(s, sh, x, 0);
        lemma_horner_scaled(s, q, pi, x, 0);
        lemma_horner_shifted(rest, x, 0);
        let r0 = horner(rest, x, 0);
        let pp = horner(p, x, i + 1);
        lemma_zero_plus(raw_mul(x, r0));
        assert(horner(sh, x, 0) == raw_mul(x, r0));
        lemma_horner_pos(s, x, 0);
        lemma_horner_pos(rest, x, 0);
        lemma_horner_pos(p, x, i + 1);
        lemma_horner_pos(sh, x, 0);
        let total = crate::polynomial::pmul_from(p, q, i)->0;
        lemma_horner_pos(total, x, 0);
        lemma_pos_ops(qq, pi);
        lemma_pos_ops(x, r0);
        lemma_pos_ops(pp, qq);
        lemma_pos_ops(x, raw_mul(pp, qq));
        lemma_pos_ops(x, pp);
        lemma_pos_ops(raw_mul(x, pp), qq);
        lemma_pos_ops(pi, qq);
        lemma_pos_ops(pi, raw_mul(x, pp));
        lemma_pos_ops(raw_add(pi, raw_mul(x, pp)), qq);
        lemma_pos_ops(horner(s, x, 0), horner(sh, x, 0));
        lemma_pos_ops(raw_mul(qq, pi), raw_mul(x, raw_mul(pp, qq)));
        lemma_pos_ops(raw_mul(pi, qq), raw_mul(raw_mul(x, pp), qq));
        // horner(total) ~ horner(s) + x * R
        // ~ q * p_i + x * (P' * Q)
        lemma_mul_cong(x, r0, x, raw_mul(pp, qq));
        lemma_add_cong(horner(s, x, 0), horner(sh, x, 0), raw_mul(qq, pi), raw_mul(x, raw_mul(pp, qq)));
        lemma_eqv_trans(
            horner(total, x, 0),
            raw_add(horner(s, x, 0), horner(sh, x, 0)),
            raw_add(raw_mul(qq, pi), raw_mul(x, raw_mul(pp, qq))),
        );
        lemma_mul_comm_assoc(qq, pi, pi);
        lemma_mul_comm_assoc(x, pp, qq);
        lemma_distribute_right(pi, raw_mul(x, pp), qq);
        lemma_eqv_trans(
            horner(total, x, 0),
            raw_add(raw_mul(pi, qq), raw_mul(raw_mul(x, pp), qq)),
            raw_mul(raw_add(pi, raw_mul(x, pp)), qq),
        );
    }
}

pub proof fn lemma_raw_pow_pos(a: Ratio, k: nat)
    requires
        pos(a),
    ensures
        pos(raw_pow(a, k)),
    decreases k,
{
    if k > 0 {
        lemma_raw_pow_pos(a, (k - 1) as nat);
        lemma_pos_ops(raw_pow(a, (k - 1) as nat), a);
    }
}

pub proof fn lemma_raw_pow_cong(a: Ratio, b: Ratio, k: nat)
    requires
        pos(a),
        pos(b),
        eqv(a, b),
    ensures
        eqv(raw_pow(a, k), raw_pow(b, k)),
    decreases k,
{
    if k > 0 {
        lemma_raw_pow_cong(a, b, (k - 1) as nat);
        lemma_raw_pow_pos(a, (k - 1) as nat);
        lemma_raw_pow_pos(b, (k - 1) as nat);
        lemma_mul_cong(raw_pow(a, (k - 1) as nat), a, raw_pow(b, (k - 1) as nat), b);
    }
}

/// A power of a coefficient list evaluates to the power of its value.
pub proof fn lemma_horner_ppow(p: Seq<Ratio>, x: Ratio, k: nat)
    requires
        all_pos(p),
        pos(x),
        crate::polynomial::ppow(p, k) is Some,
    ensures
        all_pos(crate::polynomial::ppow(p, k)->0),
        eqv(horner(crate::polynomial::ppow(p, k)->0, x, 0), raw_pow(horner(p, x, 0), k)),
    decreases k,
{
    let hp = horner(p, x, 0);
    lemma_horner_pos(p, x, 0);
    if k == 0 {
        let one = seq![one_r()];
        assert(crate::polynomial::ppow(p, k)->0 == one);
        assert(horner(one, x, 1) == zero_r());
        let h = raw_add(one_r(), raw_mul(x, zero_r()));
        assert(horner(one, x, 0) == h);
        assert(h.n == 1 * (x.d * 1) + (x.n * 0) * 1);
        assert(h.d == 1 * (x.d * 1));
        assert(eqv(h, one_r())) by {
            assert((1 * (x.d * 1) + (x.n * 0) * 1) * 1 == 1 * (1 * (x.d * 1))) by (nonlinear_arith);
        }
    } else {
        lemma_horner_ppow(p, x, (k - 1) as nat);
        let prev = crate::polynomial::ppow(p, (k - 1) as nat)->0;
        lemma_horner_pmul(prev, p, x, 0);
        lemma_horner_pos(prev, x, 0);
        lemma_raw_pow_pos(hp, (k - 1) as nat);
        lemma_mul_cong(horner(prev, x, 0), hp, raw_pow(hp, (k - 1) as nat), hp);
        let total = crate::polynomial::ppow(p, k)->0;
        lemma_horner_pos(total, x, 0);
        lemma_pos_ops(horner(prev, x, 0), hp);
        lemma_raw_pow_pos(hp, k);
        lemma_eqv_trans(horner(total, x, 0), raw_mul(horner(prev, x, 0), hp), raw_pow(hp, k));
    }
}

pub proof fn lemma_all_pos_padd_pub(p: Seq<Ratio>, q: Seq<Ratio>)
    requires
        all_pos(p),
        all_pos(q),
        padd(p, q) is Some,
    ensures
        all_pos(padd(p, q)->0),
{
    lemma_all_pos_padd(p, q);
}

pub proof fn lemma_all_pos_psub_pub(p: Seq<Ratio>, q: Seq<Ratio>)
    requires
        all_pos(p),
        all_pos(q),
        psub(p, q) is Some,
    ensures
        all_pos(psub(p, q)->0),
{
    let s = psub(p, q)->0;
    assert forall|j: int| 0 <= j < s.len() implies pos(#[trigger] s[j]) by {
        lemma_rsub_eqv(coef(p, j), coef(q, j));
    }
}

} // verus!
