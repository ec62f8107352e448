use vstd::prelude::*;

verus! {

/// The number of decimal digits of `n`.
pub open spec fn num_digits(n: nat) -> nat
    decreases n,
{
    if n < 10 {
        1
    } else {
        1 + num_digits(n / 10)
    }
}

pub open spec fn ten_pow(k: nat) -> nat
    decreases k,
{
    if k == 0 {
        1
    } else {
        10 * ten_pow((k - 1) as nat)
    }
}

/// `n` rounded to `digits` significant figures, a half rounded up.
pub open spec fn round_sig(n: nat, digits: nat) -> nat {
    let p = ten_pow((num_digits(n) - digits) as nat);
    let q = n / p;
    let r = n % p;
    if p > 1 && 2 * r >= p {
        (q + 1) * p
    } else {
        q * p
    }
}

proof fn lemma_ten_pow_below(n: nat)
    requires
        n >= 1,
    ensures
        ten_pow((num_digits(n) - 1) as nat) <= n,
        num_digits(n) >= 1,
    decreases n,
{
    if n >= 10 {
        lemma_ten_pow_below(n / 10);
        assert(10 * ten_pow((num_digits(n / 10) - 1) as nat) <= 10 * (n / 10)) by (nonlinear_arith)
            requires
                ten_pow((num_digits(n / 10) - 1) as nat) <= n / 10,
        ;
        assert(10 * (n / 10) <= n) by (nonlinear_arith);
    }
}

proof fn lemma_ten_pow_monotone(a: nat, b: nat)
    requires
        a <= b,
    ensures
        1 <= ten_pow(a) <= ten_pow(b),
    decreases b,
{
    lemma_ten_pow_pos(a);
    if a < b {
        lemma_ten_pow_monotone(a, (b - 1) as nat);
    }
}

proof fn lemma_ten_pow_pos(k: nat)
    ensures
        ten_pow(k) >= 1,
    decreases k,
{
    if k > 0 {
        lemma_ten_pow_pos((k - 1) as nat);
    }
}

proof fn lemma_digits_at_most(n: nat)
    requires
        n >= 1,
    ensures
        num_digits(n) <= n,
    decreases n,
{
    if n >= 10 {
        lemma_digits_at_most(n / 10);
    }
}

/// `n` rounded to `digits` significant figures.
pub fn round_natural(n: u128, digits: u64) -> (r: u128)
    requires
        n > 0,
        1 <= digits <= num_digits(n as nat),
        round_sig(n as nat, digits as nat) <= u128::MAX,
    ensures
        r == round_sig(n as nat, digits as nat),
{
    let mut count: u128 = 1;
    let mut m: u128 = n;
    proof {
        lemma_digits_at_most(n as nat);
    }
    while m >= 10
        invariant
            m >= 1,
            count + num_digits(m as nat) == num_digits(n as nat) + 1,
            num_digits(n as nat) <= n,
            num_digits(m as nat) >= 1,
        decreases m,
    {
        proof {
            lemma_ten_pow_below((m / 10) as nat);
        }
        m = m / 10;
        count = count + 1;
    }
    proof {
        lemma_ten_pow_below(n as nat);
        lemma_ten_pow_monotone((count - digits) as nat, (count - 1) as nat);
    }
    let mut p: u128 = 1;
    let mut k: u128 = 0;
    let digits = digits as u128;
    while k < count - digits
        invariant
            k <= count - digits,
            count == num_digits(n as nat),
            1 <= digits <= count,
            p == ten_pow(k as nat),
            ten_pow((count - digits) as nat) <= n,
        decreases count - digits - k,
    {
        proof {
            lemma_ten_pow_monotone((k + 1) as nat, (count - digits) as nat);
        }
        p = p * 10;
        k = k + 1;
    }
    let q = n / p;
    let rem = n % p;
    proof {
        assert(p as nat == ten_pow((num_digits(n as nat) - digits) as nat));
        assert(q as nat == n as nat / p as nat);
        assert(rem as nat == n as nat % p as nat);
    }
    if p > 1 && rem >= p - rem {
        proof {
            assert(2 * rem >= p);
            assert(q < u128::MAX) by (nonlinear_arith)
                requires
                    q == n / p,
                    p > 1,
            ;
            assert((q + 1) * p == round_sig(n as nat, digits as nat));
        }
        (q + 1) * p
    } else {
        q * p
    }
}

/// Rounding to significant figures.
pub trait Round: Sized {
    spec fn value(&self) -> int;

    spec fn largest() -> int;

    /// Rounds to `digits` significant figures, a half away from zero, and
    /// stores the result.
    fn with_significant_figures(&mut self, digits: u64) -> (r: Self)
        requires
            old(self).value() > 0,
            1 <= digits <= num_digits(old(self).value() as nat),
            round_sig(old(self).value() as nat, digits as nat) <= Self::largest(),
        ensures
            r.value() == round_sig(old(self).value() as nat, digits as nat),
            final(self).value() == r.value(),
    ;
}

impl Round for u128 {
    open spec fn value(&self) -> int {
        *self as int
    }

    open spec fn largest() -> int {
        u128::MAX as int
    }

    fn with_significant_figures(&mut self, digits: u64) -> (r: u128) {
        let v = round_natural(*self, digits);
        *self = v;
        v
    }
}

impl Round for u64 {
    open spec fn value(&self) -> int {
        *self as int
    }

    open spec fn largest() -> int {
        u64::MAX as int
    }

    fn with_significant_figures(&mut self, digits: u64) -> (r: u64) {
        let v = round_natural(*self as u128, digits) as u64;
        *self = v;
        v
    }
}

impl Round for i64 {
    open spec fn value(&self) -> int {
        *self as int
    }

    open spec fn largest() -> int {
        i64::MAX as int
    }

    fn with_significant_figures(&mut self, digits: u64) -> (r: i64) {
        let v = round_natural(*self as u128, digits) as i64;
        *self = v;
        v
    }
}

impl Round for i32 {
    open spec fn value(&self) -> int {
        *self as int
    }

    open spec fn largest() -> int {
        i32::MAX as int
    }

    fn with_significant_figures(&mut self, digits: u64) -> (r: i32) {
        let v = round_natural(*self as u128, digits) as i32;
        *self = v;
        v
    }
}

} // verus!
