use vstd::prelude::*;

verus! {

/// A rational value `n / d` as the specifications see it.
pub struct Ratio {
    pub n: int,
    pub d: int,
}

/// Greatest common divisor by Euclid's recursion.
pub open spec fn gcd(a: nat, b: nat) -> nat
    decreases b,
{
    if b == 0 {
        a
    } else {
        gcd(b, a % b)
    }
}

pub open spec fn abs_int(n: int) -> nat {
    if n < 0 {
        (-n) as nat
    } else {
        n as nat
    }
}

/// `n / d` in lowest terms (for `d > 0`).
pub open spec fn reduce(n: int, d: int) -> Ratio {
    let g = gcd(abs_int(n), d as nat) as int;
    let m = abs_int(n) as int / g;
    Ratio { n: if n < 0 { -m } else { m }, d: d / g }
}

pub open spec fn radd(a: Ratio, b: Ratio) -> Ratio {
    reduce(a.n * b.d + b.n * a.d, a.d * b.d)
}

pub open spec fn rsub(a: Ratio, b: Ratio) -> Ratio {
    reduce(a.n * b.d - b.n * a.d, a.d * b.d)
}

pub open spec fn rmul(a: Ratio, b: Ratio) -> Ratio {
    reduce(a.n * b.n, a.d * b.d)
}

/// Quotient of two ratios; meaningful only when `b.n != 0`.
pub open spec fn rdiv(a: Ratio, b: Ratio) -> Ratio {
    if b.n < 0 {
        reduce(-(a.n * b.d), a.d * -b.n)
    } else {
        reduce(a.n * b.d, a.d * b.n)
    }
}

pub open spec fn rint(i: int) -> Ratio {
    Ratio { n: i, d: 1 }
}

/// Whether a ratio can be held by a `Number`.
pub open spec fn fits(r: Ratio) -> bool {
    -0x7fff_ffff_ffff_ffff <= r.n <= 0x7fff_ffff_ffff_ffff && 0 < r.d <= 0x7fff_ffff_ffff_ffff
}

pub proof fn lemma_gcd_pos(a: nat, b: nat)
    requires
        b > 0,
    ensures
        gcd(a, b) > 0,
    decreases b,
{
    if a % b != 0 {
        lemma_gcd_pos(b, a % b);
    } else {
        assert(gcd(b, 0) == b);
    }
}

pub proof fn lemma_gcd_zero(d: nat)
    requires
        d > 0,
    ensures
        gcd(0, d) == d,
{
    assert(0nat % d == 0);
    assert(gcd(d, 0) == d);
}

/// An exact rational constant: `num / den` in lowest terms with a positive
/// denominator.
#[derive(PartialEq, Eq, Structural, Clone, Copy, Debug)]
pub struct Number {
    pub num: i64,
    pub den: i64,
}

impl Number {
    pub open spec fn ratio(self) -> Ratio {
        Ratio { n: self.num as int, d: self.den as int }
    }

    /// Lowest terms, positive denominator, and a numerator whose negation fits.
    pub open spec fn wf(self) -> bool {
        &&& self.num > i64::MIN
        &&& self.den > 0
        &&& reduce(self.num as int, self.den as int) == self.ratio()
    }

    pub open spec fn is_integer_spec(self) -> bool {
        self.den == 1
    }

    /// The integer `i`.
    pub fn from_int(i: i64) -> (r: Number)
        requires
            i > i64::MIN,
        ensures
            r.wf(),
            r.ratio() == rint(i as int),
    {
        proof {
            lemma_gcd_one(abs_int(i as int));
            vstd::arithmetic::div_mod::lemma_div_basics(abs_int(i as int) as int);
            vstd::arithmetic::div_mod::lemma_div_basics(1);
            assert(reduce(i as int, 1) == Ratio { n: i as int, d: 1 });
        }
        Number { num: i, den: 1 }
    }

    pub fn zero() -> (r: Number)
        ensures
            r.wf(),
            r.ratio() == rint(0),
    {
        Number::from_int(0)
    }

    pub fn one() -> (r: Number)
        ensures
            r.wf(),
            r.ratio() == rint(1),
    {
        Number::from_int(1)
    }

    pub fn is_zero(&self) -> (r: bool)
        ensures
            r == (self.num == 0),
    {
        self.num == 0
    }

    pub fn is_one(&self) -> (r: bool)
        ensures
            r == (self.num == 1 && self.den == 1),
    {
        self.num == 1 && self.den == 1
    }

    /// Whether the value has no fractional part.
    pub fn is_integer(&self) -> (r: bool)
        ensures
            r == self.is_integer_spec(),
    {
        self.den == 1
    }

    /// `n / d` in lowest terms, or `None` when that does not fit.
    pub fn from_parts(n: i128, d: i128) -> (r: Option<Number>)
        requires
            d > 0,
            n > i128::MIN,
        ensures
            r matches Some(x) ==> x.wf() && x.ratio() == reduce(n as int, d as int),
            r is Some <==> fits(reduce(n as int, d as int)),
    {
        let neg = n < 0;
        let m: u128 = if neg {
            (-n) as u128
        } else {
            n as u128
        };
        let g = gcd_u128(m, d as u128);
        proof {
            lemma_gcd_pos(m as nat, d as nat);
        }
        let mq = m / g;
        let dq = (d as u128) / g;
        proof {
            let ghost gs = gcd(abs_int(n as int), d as nat) as int;
            assert(m as nat == abs_int(n as int));
            assert(g as int == gs);
            assert(reduce(n as int, d as int).d == (d as int) / gs);
            assert(dq as int == (d as int) / gs);
            assert(mq as int == (abs_int(n as int) as int) / gs);
        }
        if mq > 0x7fff_ffff_ffff_ffff || dq > 0x7fff_ffff_ffff_ffff {
            return None;
        }
        let num: i64 = if neg {
            -(mq as i64)
        } else {
            mq as i64
        };
        proof {
            lemma_gcd_pos(m as nat, d as nat);
            lemma_reduce_reduced(n as int, d as int);
            assert(reduce(n as int, d as int).n == num as int);
            assert(reduce(n as int, d as int).d == dq as int);
            assert(reduce(n as int, d as int) == Ratio { n: num as int, d: dq as int });
        }
        Some(Number { num, den: dq as i64 })
    }

    pub fn add(&self, o: &Number) -> (r: Option<Number>)
        requires
            self.wf(),
            o.wf(),
        ensures
            r matches Some(x) ==> x.wf() && x.ratio() == radd(self.ratio(), o.ratio()),
            r is Some <==> fits(radd(self.ratio(), o.ratio())),
    {
        let a = self.num as i128;
        let b = self.den as i128;
        let c = o.num as i128;
        let d = o.den as i128;
        assert(-0x7fff_ffff_ffff_ffff * 0x7fff_ffff_ffff_ffff <= a * d <= 0x7fff_ffff_ffff_ffff
            * 0x7fff_ffff_ffff_ffff) by (nonlinear_arith)
            requires
                -0x7fff_ffff_ffff_ffff <= a <= 0x7fff_ffff_ffff_ffff,
                0 < d <= 0x7fff_ffff_ffff_ffff,
        ;
        assert(-0x7fff_ffff_ffff_ffff * 0x7fff_ffff_ffff_ffff <= c * b <= 0x7fff_ffff_ffff_ffff
            * 0x7fff_ffff_ffff_ffff) by (nonlinear_arith)
            requires
                -0x7fff_ffff_ffff_ffff <= c <= 0x7fff_ffff_ffff_ffff,
                0 < b <= 0x7fff_ffff_ffff_ffff,
        ;
        assert(0 < b * d <= 0x7fff_ffff_ffff_ffff * 0x7fff_ffff_ffff_ffff) by (nonlinear_arith)
            requires
                0 < b <= 0x7fff_ffff_ffff_ffff,
                0 < d <= 0x7fff_ffff_ffff_ffff,
        ;
        Number::from_parts(a * d + c * b, b * d)
    }

    pub fn sub(&self, o: &Number) -> (r: Option<Number>)
        requires
            self.wf(),
            o.wf(),
        ensures
            r matches Some(x) ==> x.wf() && x.ratio() == rsub(self.ratio(), o.ratio()),
            r is Some <==> fits(rsub(self.ratio(), o.ratio())),
    {
        let a = self.num as i128;
        let b = self.den as i128;
        let c = o.num as i128;
        let d = o.den as i128;
        assert(-0x7fff_ffff_ffff_ffff * 0x7fff_ffff_ffff_ffff <= a * d <= 0x7fff_ffff_ffff_ffff
            * 0x7fff_ffff_ffff_ffff) by (nonlinear_arith)
            requires
                -0x7fff_ffff_ffff_ffff <= a <= 0x7fff_ffff_ffff_ffff,
                0 < d <= 0x7fff_ffff_ffff_ffff,
        ;
        assert(-0x7fff_ffff_ffff_ffff * 0x7fff_ffff_ffff_ffff <= c * b <= 0x7fff_ffff_ffff_ffff
            * 0x7fff_ffff_ffff_ffff) by (nonlinear_arith)
            requires
                -0x7fff_ffff_ffff_ffff <= c <= 0x7fff_ffff_ffff_ffff,
                0 < b <= 0x7fff_ffff_ffff_ffff,
        ;
        assert(0 < b * d <= 0x7fff_ffff_ffff_ffff * 0x7fff_ffff_ffff_ffff) by (nonlinear_arith)
            requires
                0 < b <= 0x7fff_ffff_ffff_ffff,
                0 < d <= 0x7fff_ffff_ffff_ffff,
        ;
        Number::from_parts(a * d - c * b, b * d)
    }

    pub fn mul(&self, o: &Number) -> (r: Option<Number>)
        requires
            self.wf(),
            o.wf(),
        ensures
            r matches Some(x) ==> x.wf() && x.ratio() == rmul(self.ratio(), o.ratio()),
            r is Some <==> fits(rmul(self.ratio(), o.ratio())),
    {
        let a = self.num as i128;
        let b = self.den as i128;
        let c = o.num as i128;
        let d = o.den as i128;
        assert(-0x7fff_ffff_ffff_ffff * 0x7fff_ffff_ffff_ffff <= a * c <= 0x7fff_ffff_ffff_ffff
            * 0x7fff_ffff_ffff_ffff) by (nonlinear_arith)
            requires
                -0x7fff_ffff_ffff_ffff <= a <= 0x7fff_ffff_ffff_ffff,
                -0x7fff_ffff_ffff_ffff <= c <= 0x7fff_ffff_ffff_ffff,
        ;
        assert(0 < b * d <= 0x7fff_ffff_ffff_ffff * 0x7fff_ffff_ffff_ffff) by (nonlinear_arith)
            requires
                0 < b <= 0x7fff_ffff_ffff_ffff,
                0 < d <= 0x7fff_ffff_ffff_ffff,
        ;
        Number::from_parts(a * c, b * d)
    }

    /// The quotient, or `None` when the divisor is zero or the result does not fit.
    pub fn div(&self, o: &Number) -> (r: Option<Number>)
        requires
            self.wf(),
            o.wf(),
        ensures
            r matches Some(x) ==> x.wf() && x.ratio() == rdiv(self.ratio(), o.ratio()),
            r is Some <==> (o.num != 0 && fits(rdiv(self.ratio(), o.ratio()))),
    {
        if o.num == 0 {
            return None;
        }
        let a = self.num as i128;
        let b = self.den as i128;
        let c = o.num as i128;
        let d = o.den as i128;
        assert(-0x7fff_ffff_ffff_ffff * 0x7fff_ffff_ffff_ffff <= a * d <= 0x7fff_ffff_ffff_ffff
            * 0x7fff_ffff_ffff_ffff) by (nonlinear_arith)
            requires
                -0x7fff_ffff_ffff_ffff <= a <= 0x7fff_ffff_ffff_ffff,
                0 < d <= 0x7fff_ffff_ffff_ffff,
        ;
        if c < 0 {
            assert(0 < b * -c <= 0x7fff_ffff_ffff_ffff * 0x7fff_ffff_ffff_ffff) by (nonlinear_arith)
                requires
                    0 < b <= 0x7fff_ffff_ffff_ffff,
                    -0x7fff_ffff_ffff_ffff <= c < 0,
            ;
            Number::from_parts(-(a * d), b * -c)
        } else {
            assert(0 < b * c <= 0x7fff_ffff_ffff_ffff * 0x7fff_ffff_ffff_ffff) by (nonlinear_arith)
                requires
                    0 < b <= 0x7fff_ffff_ffff_ffff,
                    0 < c <= 0x7fff_ffff_ffff_ffff,
            ;
            Number::from_parts(a * d, b * c)
        }
    }

    pub fn neg(&self) -> (r: Number)
        requires
            self.wf(),
        ensures
            r.wf(),
            r.ratio() == (Ratio { n: -self.num, d: self.den as int }),
    {
        proof {
            assert(abs_int(-self.num) == abs_int(self.num as int));
        }
        Number { num: -self.num, den: self.den }
    }
}

pub proof fn lemma_gcd_one(a: nat)
    ensures
        gcd(a, 1) == 1,
{
    assert(a % 1 == 0);
    assert(gcd(1, 0) == 1);
}

/// Reducing an already reduced fraction changes nothing.
pub proof fn lemma_reduce_reduced(n: int, d: int)
    requires
        d > 0,
    ensures
        reduce(reduce(n, d).n, reduce(n, d).d) == reduce(n, d),
        reduce(n, d).d > 0,
{
    let g = gcd(abs_int(n), d as nat);
    lemma_gcd_pos(abs_int(n), d as nat);
    lemma_gcd_divides(abs_int(n), d as nat);
    let r = reduce(n, d);
    let m = abs_int(n) as int / g as int;
    let e = d / g as int;
    assert(abs_int(r.n) == m);
    assert(e > 0) by {
        assert(d == e * g) by {
            vstd::arithmetic::div_mod::lemma_fundamental_div_mod(d, g as int);
        }
        vstd::arithmetic::mul::lemma_mul_is_commutative(e, g as int);
        if e <= 0 {
            vstd::arithmetic::mul::lemma_mul_inequality(e, 0, g as int);
        }
    }
    lemma_gcd_quotients(abs_int(n), d as nat);
    assert(gcd(m as nat, e as nat) == 1);
    vstd::arithmetic::div_mod::lemma_div_basics(m);
    vstd::arithmetic::div_mod::lemma_div_basics(e);
}

pub proof fn lemma_gcd_divides_pub(a: nat, b: nat)
    requires
        b > 0,
    ensures
        a % gcd(a, b) == 0,
        b % gcd(a, b) == 0,
{
    lemma_gcd_divides(a, b);
}

proof fn lemma_gcd_divides(a: nat, b: nat)
    requires
        b > 0,
    ensures
        a % gcd(a, b) == 0,
        b % gcd(a, b) == 0,
    decreases b,
{
    lemma_gcd_pos(a, b);
    let r = a % b;
    if r == 0 {
        assert(gcd(b, 0) == b);
        vstd::arithmetic::div_mod::lemma_mod_self_0(b as int);
    } else {
        lemma_gcd_divides(b, r);
        let g = gcd(a, b);
        assert(g == gcd(b, r));
        // a == (a / b) * b + r, and g divides both b and r
        vstd::arithmetic::div_mod::lemma_fundamental_div_mod(a as int, b as int);
        vstd::arithmetic::div_mod::lemma_fundamental_div_mod(b as int, g as int);
        vstd::arithmetic::div_mod::lemma_fundamental_div_mod(r as int, g as int);
        let q = a as int / b as int;
        let kb = b as int / g as int;
        let kr = r as int / g as int;
        assert(a as int == (q * kb + kr) * g) by (nonlinear_arith)
            requires
                a as int == b as int * q + r as int,
                b as int == g as int * kb,
                r as int == g as int * kr,
        ;
        vstd::arithmetic::div_mod::lemma_mod_multiples_basic(q * kb + kr, g as int);
    }
}

/// Dividing both arguments by their gcd leaves coprime quotients.
proof fn lemma_gcd_quotients(a: nat, b: nat)
    requires
        b > 0,
    ensures
        gcd((a as int / gcd(a, b) as int) as nat, (b as int / gcd(a, b) as int) as nat) == 1,
    decreases b,
{
    let g = gcd(a, b);
    lemma_gcd_pos(a, b);
    lemma_gcd_divides(a, b);
    lemma_gcd_scale(a, b, g);
}

/// gcd(a / g, b / g) == gcd(a, b) / g for any common divisor g.
proof fn lemma_gcd_scale(a: nat, b: nat, g: nat)
    requires
        b > 0,
        g > 0,
        a % g == 0,
        b % g == 0,
    ensures
        gcd((a as int / g as int) as nat, (b as int / g as int) as nat) * g == gcd(a, b),
        gcd(a, b) == g ==> gcd((a as int / g as int) as nat, (b as int / g as int) as nat) == 1,
    decreases b,
{
    let a2 = (a as int / g as int) as nat;
    let b2 = (b as int / g as int) as nat;
    vstd::arithmetic::div_mod::lemma_fundamental_div_mod(a as int, g as int);
    vstd::arithmetic::div_mod::lemma_fundamental_div_mod(b as int, g as int);
    assert(a == g * a2);
    assert(b == g * b2);
    assert(b2 > 0) by (nonlinear_arith)
        requires
            b == g * b2,
            b > 0,
            g > 0,
    ;
    // a % b == g * (a2 % b2)
    vstd::arithmetic::div_mod::lemma_fundamental_div_mod(a2 as int, b2 as int);
    let q = a2 as int / b2 as int;
    let r2 = a2 as int % b2 as int;
    assert(0 <= r2 < b2) by {
        vstd::arithmetic::div_mod::lemma_mod_bound(a2 as int, b2 as int);
    }
    assert(a as int == b as int * q + g * r2) by (nonlinear_arith)
        requires
            a == g * a2,
            b == g * b2,
            a2 as int == b2 as int * q + r2,
    ;
    assert(0 <= g * r2 < b) by (nonlinear_arith)
        requires
            0 <= r2 < b2,
            b == g * b2,
            g > 0,
    ;
    vstd::arithmetic::div_mod::lemma_mod_add_multiples_vanish(g * r2, b as int);
    assert((a as int) % (b as int) == g * r2) by {
        vstd::arithmetic::div_mod::lemma_fundamental_div_mod_converse(
            a as int,
            b as int,
            q,
            g * r2,
        );
    }
    if r2 == 0 {
        assert(g * r2 == 0) by (nonlinear_arith)
            requires
                r2 == 0,
        ;
        assert((a as int) % (b as int) == 0);
        assert(a % b == 0);
        assert(gcd(a, b) == gcd(b, 0));
        assert(gcd(a2, b2) == gcd(b2, 0));
        assert(b == b2 * g) by (nonlinear_arith)
            requires
                b == g * b2,
        ;
    } else {
        let r = (g * r2) as nat;
        assert(r % g == 0) by {
            vstd::arithmetic::div_mod::lemma_mod_multiples_basic(r2, g as int);
            vstd::arithmetic::mul::lemma_mul_is_commutative(r2, g as int);
        }
        assert(r as int / g as int == r2) by {
            vstd::arithmetic::div_mod::lemma_div_multiples_vanish(r2, g as int);
        }
        lemma_gcd_scale(b, r, g);
    }
    let x = gcd(a2, b2);
    let y = gcd(a, b);
    assert(y == g ==> x == 1) by (nonlinear_arith)
        requires
            x * g == y,
            g > 0,
    ;
}

/// The greatest common divisor of the magnitudes of two integers, not both
/// zero.
pub fn gcd_i64(a: i64, b: i64) -> (g: i64)
    requires
        a > i64::MIN,
        b > i64::MIN,
        a != 0 || b != 0,
    ensures
        g > 0,
        g as int == gcd(abs_int(a as int), abs_int(b as int)) as int,
{
    let ua: u128 = if a < 0 {
        (-a) as u128
    } else {
        a as u128
    };
    let ub: u128 = if b < 0 {
        (-b) as u128
    } else {
        b as u128
    };
    let g = gcd_u128(ua, ub);
    proof {
        if ub > 0 {
            lemma_gcd_pos(ua as nat, ub as nat);
            lemma_gcd_divides(ua as nat, ub as nat);
            vstd::arithmetic::div_mod::lemma_fundamental_div_mod(ub as int, g as int);
            let k = ub as int / g as int;
            assert(ub as int == g as int * k);
            assert(g <= ub) by (nonlinear_arith)
                requires
                    ub as int == g as int * k,
                    g > 0,
                    ub > 0,
            ;
        } else {
            assert(gcd(ua as nat, 0) == ua);
        }
    }
    g as i64
}

/// Euclid's algorithm.
fn gcd_u128(a: u128, b: u128) -> (g: u128)
    ensures
        g == gcd(a as nat, b as nat),
{
    let mut x = a;
    let mut y = b;
    while y != 0
        invariant
            gcd(x as nat, y as nat) == gcd(a as nat, b as nat),
        decreases y,
    {
        let t = x % y;
        x = y;
        y = t;
    }
    x
}

} // verus!
