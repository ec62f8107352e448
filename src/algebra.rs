use vstd::prelude::*;

use crate::number::{abs_int, gcd, lemma_gcd_pos, radd, rdiv, reduce, rmul, rsub, Ratio};

verus! {

/// Two ratios denote the same rational number.
pub open spec fn eqv(a: Ratio, b: Ratio) -> bool {
    a.n * b.d == b.n * a.d
}

pub open spec fn pos(a: Ratio) -> bool {
    a.d > 0
}

pub open spec fn raw_add(a: Ratio, b: Ratio) -> Ratio {
    Ratio { n: a.n * b.d + b.n * a.d, d: a.d * b.d }
}

pub open spec fn raw_sub(a: Ratio, b: Ratio) -> Ratio {
    Ratio { n: a.n * b.d - b.n * a.d, d: a.d * b.d }
}

pub open spec fn raw_mul(a: Ratio, b: Ratio) -> Ratio {
    Ratio { n: a.n * b.n, d: a.d * b.d }
}

/// The reciprocal, with a positive denominator (for `a.n != 0`).
pub open spec fn raw_inv(a: Ratio) -> Ratio {
    if a.n < 0 {
        Ratio { n: -a.d, d: -a.n }
    } else {
        Ratio { n: a.d, d: a.n }
    }
}

pub proof fn lemma_pos_ops(a: Ratio, b: Ratio)
    requires
        pos(a),
        pos(b),
    ensures
        pos(raw_add(a, b)),
        pos(raw_sub(a, b)),
        pos(raw_mul(a, b)),
{
    assert(a.d * b.d > 0) by (nonlinear_arith)
        requires
            a.d > 0,
            b.d > 0,
    ;
}

pub proof fn lemma_reduce_eqv(n: int, d: int)
    requires
        d > 0,
    ensures
        eqv(reduce(n, d), Ratio { n, d }),
        pos(reduce(n, d)),
{
    crate::number::lemma_reduce_reduced(n, d);
    let g = gcd(abs_int(n), d as nat) as int;
    lemma_gcd_pos(abs_int(n), d as nat);
    crate::number::lemma_gcd_divides_pub(abs_int(n), d as nat);
    let m = abs_int(n) as int / g;
    let e = d / g;
    vstd::arithmetic::div_mod::lemma_fundamental_div_mod(abs_int(n) as int, g);
    vstd::arithmetic::div_mod::lemma_fundamental_div_mod(d, g);
    assert(abs_int(n) as int == g * m);
    assert(d == g * e);
    let r = reduce(n, d);
    if n < 0 {
        assert(r.n == -m);
        assert(n == -(g * m));
        assert(-m * d == n * e) by (nonlinear_arith)
            requires
                d == g * e,
                n == -(g * m),
        ;
    } else {
        assert(r.n == m);
        assert(n == g * m);
        assert(m * d == n * e) by (nonlinear_arith)
            requires
                d == g * e,
                n == g * m,
        ;
    }
}

pub proof fn lemma_radd_eqv(a: Ratio, b: Ratio)
    requires
        pos(a),
        pos(b),
    ensures
        eqv(radd(a, b), raw_add(a, b)),
        pos(radd(a, b)),
{
    lemma_pos_ops(a, b);
    lemma_reduce_eqv(a.n * b.d + b.n * a.d, a.d * b.d);
}

pub proof fn lemma_rsub_eqv(a: Ratio, b: Ratio)
    requires
        pos(a),
        pos(b),
    ensures
        eqv(rsub(a, b), raw_sub(a, b)),
        pos(rsub(a, b)),
{
    lemma_pos_ops(a, b);
    lemma_reduce_eqv(a.n * b.d - b.n * a.d, a.d * b.d);
}

pub proof fn lemma_rmul_eqv(a: Ratio, b: Ratio)
    requires
        pos(a),
        pos(b),
    ensures
        eqv(rmul(a, b), raw_mul(a, b)),
        pos(rmul(a, b)),
{
    lemma_pos_ops(a, b);
    lemma_reduce_eqv(a.n * b.n, a.d * b.d);
}

pub proof fn lemma_rdiv_eqv(a: Ratio, b: Ratio)
    requires
        pos(a),
        pos(b),
        b.n != 0,
    ensures
        eqv(rdiv(a, b), raw_mul(a, raw_inv(b))),
        pos(rdiv(a, b)),
        pos(raw_inv(b)),
{
    if b.n < 0 {
        assert(a.d * -b.n > 0) by (nonlinear_arith)
            requires
                a.d > 0,
                b.n < 0,
        ;
        lemma_reduce_eqv(-(a.n * b.d), a.d * -b.n);
        assert(raw_mul(a, raw_inv(b)) == Ratio { n: a.n * -b.d, d: a.d * -b.n });
        assert(a.n * -b.d == -(a.n * b.d)) by (nonlinear_arith);
    } else {
        assert(a.d * b.n > 0) by (nonlinear_arith)
            requires
                a.d > 0,
                b.n > 0,
        ;
        lemma_reduce_eqv(a.n * b.d, a.d * b.n);
    }
}

pub proof fn lemma_eqv_trans(a: Ratio, b: Ratio, c: Ratio)
    requires
        pos(a),
        pos(b),
        pos(c),
        eqv(a, b),
        eqv(b, c),
    ensures
        eqv(a, c),
{
    assert(a.n * c.d * b.d == c.n * a.d * b.d) by (nonlinear_arith)
        requires
            a.n * b.d == b.n * a.d,
            b.n * c.d == c.n * b.d,
    ;
    assert(a.n * c.d == c.n * a.d) by (nonlinear_arith)
        requires
            a.n * c.d * b.d == c.n * a.d * b.d,
            b.d > 0,
    ;
}

pub proof fn lemma_add_cong(a: Ratio, b: Ratio, c: Ratio, d: Ratio)
    requires
        pos(a),
        pos(b),
        pos(c),
        pos(d),
        eqv(a, c),
        eqv(b, d),
    ensures
        eqv(raw_add(a, b), raw_add(c, d)),
{
    let p = a.n * c.d;
    let q = b.n * d.d;
    let l = (a.n * b.d + b.n * a.d) * (c.d * d.d);
    let r = (c.n * d.d + d.n * c.d) * (a.d * b.d);
    lemma_expand4(a.n, b.d, b.n, a.d, c.d, d.d);
    lemma_expand4(c.n, d.d, d.n, c.d, a.d, b.d);
    assert(l == p * (b.d * d.d) + q * (a.d * c.d));
    assert(r == (c.n * a.d) * (b.d * d.d) + (d.n * b.d) * (a.d * c.d));
}

/// `(w*x + y*z) * (u*v) == (w*u) * (x*v) + (y*v) * (z*u)`.
proof fn lemma_expand4(w: int, x: int, y: int, z: int, u: int, v: int)
    ensures
        (w * x + y * z) * (u * v) == (w * u) * (x * v) + (y * v) * (z * u),
        (w * x - y * z) * (u * v) == (w * u) * (x * v) - (y * v) * (z * u),
{
    let wx = w * x;
    let yz = y * z;
    let uv = u * v;
    assert((wx + yz) * uv == wx * uv + yz * uv) by (nonlinear_arith);
    assert((wx - yz) * uv == wx * uv - yz * uv) by (nonlinear_arith);
    assert(wx * uv == (w * u) * (x * v)) by (nonlinear_arith)
        requires
            wx == w * x,
            uv == u * v,
    ;
    assert(yz * uv == (y * v) * (z * u)) by (nonlinear_arith)
        requires
            yz == y * z,
            uv == u * v,
    ;
}

pub proof fn lemma_sub_cong(a: Ratio, b: Ratio, c: Ratio, d: Ratio)
    requires
        pos(a),
        pos(b),
        pos(c),
        pos(d),
        eqv(a, c),
        eqv(b, d),
    ensures
        eqv(raw_sub(a, b), raw_sub(c, d)),
{
    let p = a.n * c.d;
    let q = b.n * d.d;
    let l = (a.n * b.d - b.n * a.d) * (c.d * d.d);
    let r = (c.n * d.d - d.n * c.d) * (a.d * b.d);
    lemma_expand4(a.n, b.d, b.n, a.d, c.d, d.d);
    lemma_expand4(c.n, d.d, d.n, c.d, a.d, b.d);
    assert(l == p * (b.d * d.d) - q * (a.d * c.d));
    assert(r == (c.n * a.d) * (b.d * d.d) - (d.n * b.d) * (a.d * c.d));
}

pub proof fn lemma_mul_cong(a: Ratio, b: Ratio, c: Ratio, d: Ratio)
    requires
        pos(a),
        pos(b),
        pos(c),
        pos(d),
        eqv(a, c),
        eqv(b, d),
    ensures
        eqv(raw_mul(a, b), raw_mul(c, d)),
{
    let p = a.n * c.d;
    let q = b.n * d.d;
    assert((a.n * b.n) * (c.d * d.d) == p * q) by (nonlinear_arith)
        requires
            p == a.n * c.d,
            q == b.n * d.d,
    ;
    assert((c.n * d.n) * (a.d * b.d) == (c.n * a.d) * (d.n * b.d)) by (nonlinear_arith);
}

/// Scaling numerator and denominator by the same positive factor keeps the
/// number.
pub proof fn lemma_scale_eqv(a: Ratio, k: int)
    requires
        k > 0,
    ensures
        eqv(a, Ratio { n: k * a.n, d: k * a.d }),
{
    assert(a.n * (k * a.d) == (k * a.n) * a.d) by (nonlinear_arith);
}

/// `x * (a + b)` and `x * a + x * b` are the same number.
pub proof fn lemma_distribute(x: Ratio, a: Ratio, b: Ratio)
    requires
        pos(x),
        pos(a),
        pos(b),
    ensures
        eqv(raw_mul(x, raw_add(a, b)), raw_add(raw_mul(x, a), raw_mul(x, b))),
        eqv(raw_mul(x, raw_sub(a, b)), raw_sub(raw_mul(x, a), raw_mul(x, b))),
{
    let l = raw_mul(x, raw_add(a, b));
    let r = raw_add(raw_mul(x, a), raw_mul(x, b));
    assert(r.n == x.d * l.n) by {
        let pp = x.n * (a.n * b.d);
        let qq = x.n * (b.n * a.d);
        assert((x.n * a.n) * (x.d * b.d) == x.d * pp) by (nonlinear_arith)
            requires
                pp == x.n * (a.n * b.d),
        ;
        assert((x.n * b.n) * (x.d * a.d) == x.d * qq) by (nonlinear_arith)
            requires
                qq == x.n * (b.n * a.d),
        ;
        assert(x.n * (a.n * b.d + b.n * a.d) == pp + qq) by (nonlinear_arith)
            requires
                pp == x.n * (a.n * b.d),
                qq == x.n * (b.n * a.d),
        ;
        assert(x.d * (pp + qq) == x.d * pp + x.d * qq) by (nonlinear_arith);
    }
    assert(r.d == x.d * l.d) by {
        assert((x.d * a.d) * (x.d * b.d) == x.d * (x.d * (a.d * b.d))) by (nonlinear_arith);
    }
    lemma_scale_eqv(l, x.d);
    let l2 = raw_mul(x, raw_sub(a, b));
    let r2 = raw_sub(raw_mul(x, a), raw_mul(x, b));
    assert(r2.n == x.d * l2.n) by {
        let pp = x.n * (a.n * b.d);
        let qq = x.n * (b.n * a.d);
        assert((x.n * a.n) * (x.d * b.d) == x.d * pp) by (nonlinear_arith)
            requires
                pp == x.n * (a.n * b.d),
        ;
        assert((x.n * b.n) * (x.d * a.d) == x.d * qq) by (nonlinear_arith)
            requires
                qq == x.n * (b.n * a.d),
        ;
        assert(x.n * (a.n * b.d - b.n * a.d) == pp - qq) by (nonlinear_arith)
            requires
                pp == x.n * (a.n * b.d),
                qq == x.n * (b.n * a.d),
        ;
        assert(x.d * (pp - qq) == x.d * pp - x.d * qq) by (nonlinear_arith);
    }
    assert(r2.d == x.d * l2.d) by {
        assert((x.d * a.d) * (x.d * b.d) == x.d * (x.d * (a.d * b.d))) by (nonlinear_arith);
    }
    lemma_scale_eqv(l2, x.d);
}

/// Two ratios in lowest terms that denote the same number are the same.
pub proof fn lemma_reduced_unique(u: Ratio, v: Ratio)
    requires
        u.d > 0,
        v.d > 0,
        reduce(u.n, u.d) == u,
        reduce(v.n, v.d) == v,
        eqv(u, v),
    ensures
        u == v,
{
    lemma_lowest_coprime(u);
    lemma_lowest_coprime(v);
    if u.n == 0 {
        assert(u.n * v.d == 0) by (nonlinear_arith)
            requires
                u.n == 0,
        ;
        assert(v.n * u.d == 0);
        assert(v.n == 0) by (nonlinear_arith)
            requires
                v.n * u.d == 0,
                u.d > 0,
        ;
        crate::number::lemma_gcd_zero(u.d as nat);
        crate::number::lemma_gcd_zero(v.d as nat);
        vstd::arithmetic::div_mod::lemma_div_basics(u.d);
        vstd::arithmetic::div_mod::lemma_div_basics(v.d);
    } else {
        let m1 = abs_int(u.n) as int;
        let m2 = abs_int(v.n) as int;
        assert(m1 * v.d == m2 * u.d) by (nonlinear_arith)
            requires
                u.n * v.d == v.n * u.d,
                u.d > 0,
                v.d > 0,
                m1 == if u.n < 0 { -u.n } else { u.n },
                m2 == if v.n < 0 { -v.n } else { v.n },
        ;
        lemma_divides_coprime(u.d as nat, m1 as nat, v.d as nat, m2 as nat);
        lemma_divides_coprime(v.d as nat, m2 as nat, u.d as nat, m1 as nat);
        let k1 = v.d / u.d;
        let k2 = u.d / v.d;
        vstd::arithmetic::div_mod::lemma_fundamental_div_mod(v.d, u.d);
        vstd::arithmetic::div_mod::lemma_fundamental_div_mod(u.d, v.d);
        assert(u.d == v.d) by (nonlinear_arith)
            requires
                v.d == u.d * k1,
                u.d == v.d * k2,
                u.d > 0,
                v.d > 0,
        ;
        assert(m1 == m2) by (nonlinear_arith)
            requires
                m1 * v.d == m2 * u.d,
                u.d == v.d,
                u.d > 0,
        ;
        assert((u.n < 0) == (v.n < 0)) by (nonlinear_arith)
            requires
                u.n * v.d == v.n * u.d,
                u.d > 0,
                v.d > 0,
                u.n != 0,
        ;
    }
}

/// In lowest terms the numerator and denominator are coprime.
proof fn lemma_lowest_coprime(u: Ratio)
    requires
        u.d > 0,
        reduce(u.n, u.d) == u,
    ensures
        gcd(abs_int(u.n), u.d as nat) == 1,
{
    let g = gcd(abs_int(u.n), u.d as nat) as int;
    lemma_gcd_pos(abs_int(u.n), u.d as nat);
    assert(u.d / g == u.d);
    if g > 1 {
        vstd::arithmetic::div_mod::lemma_div_decreases(u.d, g);
    }
}

/// Bezout coefficients for Euclid's gcd.
proof fn lemma_bezout(a: nat, b: nat) -> (st: (int, int))
    ensures
        st.0 * a + st.1 * b == gcd(a, b),
    decreases b,
{
    if b == 0 {
        (1, 0)
    } else {
        let r = a % b;
        let st = lemma_bezout(b, r);
        let s = st.0;
        let t = st.1;
        let q = a as int / b as int;
        vstd::arithmetic::div_mod::lemma_fundamental_div_mod(a as int, b as int);
        let g = gcd(a, b) as int;
        assert(t * a + (s - t * q) * b == g) by (nonlinear_arith)
            requires
                s * b + t * r == g,
                a == b * q + r,
        ;
        (t, s - t * q)
    }
}

/// If `a` divides `m * c` and is coprime to `m`, it divides `c`; here in
/// the form `m * c == n * a` with `gcd(m, a) == 1`.
proof fn lemma_divides_coprime(a: nat, m: nat, c: nat, n: nat)
    requires
        a > 0,
        gcd(m, a) == 1,
        m * c == n * a,
    ensures
        c % a == 0,
{
    let st = lemma_bezout(m, a);
    let s = st.0;
    let t = st.1;
    let k = s * n + t * c;
    assert(c == a * k) by (nonlinear_arith)
        requires
            s * m + t * a == 1,
            m * c == n * a,
            k == s * n + t * c,
    ;
    vstd::arithmetic::div_mod::lemma_mod_multiples_basic(k, a as int);
    assert((k * a) % (a as int) == 0);
    assert(a * k == k * a) by (nonlinear_arith);
}

} // verus!
