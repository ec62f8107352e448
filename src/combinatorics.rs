use vstd::prelude::*;

verus! {

pub open spec fn factorial(n: nat) -> nat
    decreases n,
{
    if n == 0 {
        1
    } else {
        n * factorial((n - 1) as nat)
    }
}

pub proof fn lemma_factorial_pos(n: nat)
    ensures
        factorial(n) >= 1,
    decreases n,
{
    if n > 0 {
        lemma_factorial_pos((n - 1) as nat);
        assert(n * factorial((n - 1) as nat) >= 1) by (nonlinear_arith)
            requires
                n >= 1,
                factorial((n - 1) as nat) >= 1,
        ;
    }
}

pub proof fn lemma_factorial_monotone(m: nat, n: nat)
    requires
        m <= n,
    ensures
        factorial(m) <= factorial(n),
    decreases n,
{
    if m < n {
        lemma_factorial_monotone(m, (n - 1) as nat);
        lemma_factorial_pos((n - 1) as nat);
        assert(factorial((n - 1) as nat) <= n * factorial((n - 1) as nat)) by (nonlinear_arith)
            requires
                n >= 1,
                factorial((n - 1) as nat) >= 1,
        ;
    }
}

/// The factorials that the library's integer types reach.
pub proof fn lemma_factorial_values()
    ensures
        factorial(20) == 2432902008176640000,
        factorial(34) == 295232799039604140847618609643520000000,
{
    reveal_with_fuel(factorial, 2);
    assert(factorial(1) == 1);
    assert(factorial(2) == 2);
    assert(factorial(3) == 6);
    assert(factorial(4) == 24);
    assert(factorial(5) == 120);
    assert(factorial(6) == 720);
    assert(factorial(7) == 5040);
    assert(factorial(8) == 40320);
    assert(factorial(9) == 362880);
    assert(factorial(10) == 3628800);
    assert(factorial(11) == 39916800);
    assert(factorial(12) == 479001600);
    assert(factorial(13) == 6227020800);
    assert(factorial(14) == 87178291200);
    assert(factorial(15) == 1307674368000);
    assert(factorial(16) == 20922789888000);
    assert(factorial(17) == 355687428096000);
    assert(factorial(18) == 6402373705728000);
    assert(factorial(19) == 121645100408832000);
    assert(factorial(20) == 2432902008176640000);
    assert(factorial(21) == 51090942171709440000);
    assert(factorial(22) == 1124000727777607680000);
    assert(factorial(23) == 25852016738884976640000);
    assert(factorial(24) == 620448401733239439360000);
    assert(factorial(25) == 15511210043330985984000000);
    assert(factorial(26) == 403291461126605635584000000);
    assert(factorial(27) == 10888869450418352160768000000);
    assert(factorial(28) == 304888344611713860501504000000);
    assert(factorial(29) == 8841761993739701954543616000000);
    assert(factorial(30) == 265252859812191058636308480000000);
    assert(factorial(31) == 8222838654177922817725562880000000);
    assert(factorial(32) == 263130836933693530167218012160000000);
    assert(factorial(33) == 8683317618811886495518194401280000000);
    assert(factorial(34) == 295232799039604140847618609643520000000);
}

/// `n!` for `n <= 34`, the largest factorial that fits in 128 bits.
pub fn factorial_integer(numb: u128) -> (r: u128)
    requires
        numb <= 34,
    ensures
        r == factorial(numb as nat),
{
    proof {
        lemma_factorial_values();
    }
    let mut res: u128 = 1;
    let mut i: u128 = 1;
    while i <= numb
        invariant
            1 <= i <= numb + 1,
            numb <= 34,
            res == factorial((i - 1) as nat),
        decreases numb + 1 - i,
    {
        proof {
            lemma_factorial_monotone(i as nat, 34);
        }
        assert(factorial(i as nat) == i * factorial((i - 1) as nat));
        assert(res * i == i * res) by (nonlinear_arith);
        assert(res * i <= factorial(34));
        assert(factorial(34) <= u128::MAX) by {
            lemma_factorial_values();
        }
        res = res * i;
        i = i + 1;
    }
    res
}

pub open spec fn sum_of(v: Seq<usize>) -> nat
    decreases v.len(),
{
    if v.len() == 0 {
        0
    } else {
        sum_of(v.drop_last()) + v.last() as nat
    }
}

pub open spec fn factorial_product(v: Seq<usize>) -> nat
    decreases v.len(),
{
    if v.len() == 0 {
        1
    } else {
        factorial_product(v.drop_last()) * factorial(v.last() as nat)
    }
}

/// A way to write `exponent` as an ordered sum of `len` natural numbers.
pub open spec fn is_composition(v: Seq<usize>, len: nat, exponent: nat) -> bool {
    v.len() == len && sum_of(v) == exponent
}

/// Every part of `v` is at least the matching part of `lo`.
pub open spec fn dominates(v: Seq<usize>, lo: Seq<usize>) -> bool {
    v.len() == lo.len() && forall|i: int| 0 <= i < v.len() ==> lo[i] <= #[trigger] v[i]
}

pub proof fn lemma_factorial_split(a: nat, b: nat)
    ensures
        factorial(a) * factorial(b) <= factorial(a + b),
    decreases b,
{
    lemma_factorial_pos(a);
    lemma_factorial_pos(b);
    if b > 0 {
        lemma_factorial_split(a, (b - 1) as nat);
        assert(a + (b - 1) as nat == (a + b - 1) as nat);
        let fa = factorial(a);
        let fb1 = factorial((b - 1) as nat);
        let fab1 = factorial((a + b - 1) as nat);
        assert(factorial(b) == b * fb1);
        assert(factorial(a + b) == (a + b) * fab1);
        assert(fa * (b * fb1) <= (a + b) * fab1) by (nonlinear_arith)
            requires
                fa * fb1 <= fab1,
                b <= a + b,
                fa >= 0,
                fb1 >= 0,
        ;
    } else {
        assert(factorial(0) == 1);
        assert(factorial(a) * 1 == factorial(a));
    }
}

proof fn lemma_factorial_product_bound(v: Seq<usize>)
    ensures
        1 <= factorial_product(v) <= factorial(sum_of(v)),
    decreases v.len(),
{
    if v.len() > 0 {
        let w = v.drop_last();
        lemma_factorial_product_bound(w);
        lemma_factorial_split(sum_of(w), v.last() as nat);
        lemma_factorial_pos(v.last() as nat);
        let p = factorial_product(w);
        let f = factorial(v.last() as nat);
        assert(p * f <= factorial(sum_of(w)) * f) by (nonlinear_arith)
            requires
                p <= factorial(sum_of(w)),
                f >= 1,
        ;
        assert(1 <= p * f) by (nonlinear_arith)
            requires
                p >= 1,
                f >= 1,
        ;
    }
}

/// The multinomial coefficient `n! / (i_1! * ... * i_k!)`.
pub fn multinomial_coefficient(n_terms: usize, indexes: &Vec<usize>) -> (r: usize)
    requires
        n_terms <= 34,
        sum_of(indexes@) <= n_terms,
        factorial(n_terms as nat) <= usize::MAX,
    ensures
        r == factorial(n_terms as nat) / factorial_product(indexes@),
{
    let mut denominator: u128 = 1;
    let mut i: usize = 0;
    proof {
        lemma_factorial_product_bound(indexes@);
        lemma_factorial_monotone(sum_of(indexes@), n_terms as nat);
    }
    while i < indexes.len()
        invariant
            i <= indexes@.len(),
            n_terms <= 34,
            sum_of(indexes@) <= n_terms,
            denominator == factorial_product(indexes@.subrange(0, i as int)),
            factorial_product(indexes@) <= factorial(n_terms as nat),
        decreases indexes@.len() - i,
    {
        let ghost pre = indexes@.subrange(0, i as int);
        let ghost next = indexes@.subrange(0, i + 1);
        proof {
            assert(next.drop_last() =~= pre);
            lemma_prefix_sum(indexes@, i + 1);
            lemma_parts_bounded(indexes@);
            lemma_factorial_product_bound(next);
            lemma_factorial_monotone(sum_of(next), n_terms as nat);
            lemma_factorial_values();
            lemma_factorial_monotone(n_terms as nat, 34);
        }
        let f = factorial_integer(indexes[i] as u128);
        denominator = denominator * f;
        i = i + 1;
    }
    proof {
        assert(indexes@.subrange(0, indexes@.len() as int) =~= indexes@);
        lemma_factorial_product_bound(indexes@);
        lemma_factorial_values();
        lemma_factorial_monotone(n_terms as nat, 34);
    }
    (factorial_integer(n_terms as u128) / denominator) as usize
}

proof fn lemma_prefix_sum(v: Seq<usize>, i: int)
    requires
        0 <= i <= v.len(),
    ensures
        sum_of(v.subrange(0, i)) <= sum_of(v),
    decreases v.len(),
{
    if i == v.len() {
        assert(v.subrange(0, i) =~= v);
    } else {
        let w = v.drop_last();
        lemma_prefix_sum(w, i);
        assert(w.subrange(0, i) =~= v.subrange(0, i));
    }
}

proof fn lemma_parts_bounded(v: Seq<usize>)
    ensures
        forall|j: int| 0 <= j < v.len() ==> v[j] <= sum_of(v),
    decreases v.len(),
{
    if v.len() > 0 {
        let w = v.drop_last();
        lemma_parts_bounded(w);
        assert forall|j: int| 0 <= j < v.len() implies v[j] <= sum_of(v) by {
            if j < v.len() - 1 {
                assert(v[j] == w[j]);
            }
        }
    }
}

/// `t` is one of the vectors held in `v` from index `a` on.
pub open spec fn holds_from(v: Seq<Vec<usize>>, a: int, t: Seq<usize>) -> bool {
    exists|k: int| a <= k < v.len() && #[trigger] v[k]@ == t
}

/// `t` is one of the vectors held in `v`.
pub open spec fn holds(v: Seq<Vec<usize>>, t: Seq<usize>) -> bool {
    exists|k: int| 0 <= k < v.len() && #[trigger] v[k]@ == t
}

proof fn lemma_sum_update(v: Seq<usize>, i: int, x: usize)
    requires
        0 <= i < v.len(),
    ensures
        sum_of(v.update(i, x)) + v[i] == sum_of(v) + x,
    decreases v.len(),
{
    let w = v.update(i, x);
    if i == v.len() - 1 {
        assert(w.drop_last() =~= v.drop_last());
    } else {
        lemma_sum_update(v.drop_last(), i, x);
        assert(w.drop_last() =~= v.drop_last().update(i, x));
    }
}

/// A vector at least as large in every part has at least the sum, and with
/// the same sum it is the same vector.
proof fn lemma_dominates_sum(t: Seq<usize>, c: Seq<usize>)
    requires
        dominates(t, c),
    ensures
        sum_of(t) >= sum_of(c),
        sum_of(t) == sum_of(c) ==> t == c,
        sum_of(t) > sum_of(c) ==> exists|j: int| 0 <= j < t.len() && #[trigger] t[j] > c[j],
    decreases t.len(),
{
    if t.len() > 0 {
        lemma_dominates_sum(t.drop_last(), c.drop_last());
        if sum_of(t) == sum_of(c) {
            assert(t[t.len() - 1] >= c[t.len() - 1]);
            assert(t.last() == c.last());
            assert(sum_of(t.drop_last()) == sum_of(c.drop_last()));
            assert(t.drop_last() == c.drop_last());
            assert forall|j: int| 0 <= j < t.len() implies t[j] == c[j] by {
                if j < t.len() - 1 {
                    assert(t.drop_last()[j] == c.drop_last()[j]);
                }
            }
            assert(t =~= c);
        }
        if sum_of(t) > sum_of(c) {
            if t.last() > c.last() {
                assert(t[t.len() - 1] > c[t.len() - 1]);
            } else {
                let j = choose|j: int|
                    0 <= j < t.drop_last().len() && #[trigger] t.drop_last()[j] > c.drop_last()[j];
                assert(t[j] > c[j]);
            }
        }
    } else {
        assert(t =~= c);
    }
}

/// Adds, by adding one to each part in turn, every composition of
/// `exponent` that is at least `comb` in every part.
pub fn iterate_combination(comb: Vec<usize>, combinations: &mut Vec<Vec<usize>>, exponent: usize)
    requires
        comb@.len() == 0 || sum_of(comb@) < exponent,
    ensures
        final(combinations)@.subrange(0, old(combinations)@.len() as int) == old(combinations)@,
        final(combinations)@.len() >= old(combinations)@.len(),
        forall|k: int|
            old(combinations)@.len() <= k < final(combinations)@.len() ==> is_composition(
                #[trigger] final(combinations)@[k]@,
                comb@.len(),
                exponent as nat,
            ) && dominates(final(combinations)@[k]@, comb@),
        sum_of(comb@) < exponent ==> forall|t: Seq<usize>|
            is_composition(t, comb@.len(), exponent as nat) && #[trigger] dominates(t, comb@)
                ==> holds_from(final(combinations)@, old(combinations)@.len() as int, t),
    decreases exponent - sum_of(comb@),
{
    let ghost start = combinations@;
    let mut i: usize = 0;
    while i < comb.len()
        invariant
            i <= comb@.len(),
            comb@.len() > 0 ==> sum_of(comb@) < exponent,
            combinations@.len() >= start.len(),
            combinations@.subrange(0, start.len() as int) == start,
            forall|k: int|
                start.len() <= k < combinations@.len() ==> is_composition(
                    #[trigger] combinations@[k]@,
                    comb@.len(),
                    exponent as nat,
                ) && dominates(combinations@[k]@, comb@),
            forall|t: Seq<usize>|
                is_composition(t, comb@.len(), exponent as nat) && #[trigger] dominates(t, comb@)
                    && (exists|j: int| 0 <= j < i && t[j] > comb@[j]) ==> holds_from(
                    combinations@,
                    start.len() as int,
                    t,
                ),
        decreases comb@.len() - i,
    {
        let ghost before = combinations@;
        proof {
            lemma_parts_bounded(comb@);
        }
        let mut new_comb: Vec<usize> = Vec::new();
        let mut j: usize = 0;
        while j < comb.len()
            invariant
                j <= comb@.len(),
                i < comb@.len(),
                sum_of(comb@) < exponent,
                new_comb@.len() == j,
                forall|m: int| 0 <= m < j ==> new_comb@[m] == if m == i {
                    (comb@[m] + 1) as usize
                } else {
                    comb@[m]
                },
            decreases comb@.len() - j,
        {
            proof {
                lemma_parts_bounded(comb@);
            }
            if j == i {
                new_comb.push(comb[j] + 1);
            } else {
                new_comb.push(comb[j]);
            }
            j = j + 1;
        }
        proof {
            lemma_parts_bounded(comb@);
            assert(new_comb@ =~= comb@.update(i as int, (comb@[i as int] + 1) as usize));
            lemma_sum_update(comb@, i as int, (comb@[i as int] + 1) as usize);
        }
        let ghost nc = new_comb@;
        let mut total: usize = 0;
        let mut m: usize = 0;
        while m < new_comb.len()
            invariant
                m <= new_comb@.len(),
                new_comb@ == nc,
                sum_of(nc) <= exponent,
                total == sum_of(nc.subrange(0, m as int)),
            decreases new_comb@.len() - m,
        {
            proof {
                assert(nc.subrange(0, m + 1).drop_last() =~= nc.subrange(0, m as int));
                lemma_prefix_sum(nc, m + 1);
            }
            total = total + new_comb[m];
            m = m + 1;
        }
        proof {
            assert(nc.subrange(0, nc.len() as int) =~= nc);
        }
        if total == exponent {
            combinations.push(new_comb);
            proof {
                assert(combinations@.subrange(0, start.len() as int) =~= start) by {
                    assert(combinations@.subrange(0, before.len() as int) =~= before);
                }
                assert(combinations@[before.len() as int]@ == nc);
                assert forall|t: Seq<usize>|
                    is_composition(t, comb@.len(), exponent as nat) && #[trigger] dominates(
                        t,
                        comb@,
                    ) && (exists|j: int| 0 <= j < i + 1 && t[j] > comb@[j]) implies holds_from(
                    combinations@,
                    start.len() as int,
                    t,
                ) by {
                    if exists|j: int| 0 <= j < i && t[j] > comb@[j] {
                        let k = choose|k: int|
                            start.len() <= k < before.len() && #[trigger] before[k]@ == t;
                        assert(combinations@[k]@ == t);
                    } else {
                        assert(t[i as int] > comb@[i as int]);
                        assert(dominates(t, nc));
                        lemma_dominates_sum(t, nc);
                        assert(combinations@[before.len() as int]@ == t);
                    }
                }
            }
        } else {
            iterate_combination(new_comb, combinations, exponent);
            proof {
                assert(combinations@.subrange(0, start.len() as int) =~= start) by {
                    assert(combinations@.subrange(0, before.len() as int) =~= before);
                }
                assert forall|k: int| start.len() <= k < combinations@.len() implies is_composition(
                    #[trigger] combinations@[k]@,
                    comb@.len(),
                    exponent as nat,
                ) && dominates(combinations@[k]@, comb@) by {
                    if k < before.len() {
                        assert(combinations@[k] == before[k]);
                    } else {
                        assert(dominates(combinations@[k]@, nc));
                    }
                }
                assert forall|t: Seq<usize>|
                    is_composition(t, comb@.len(), exponent as nat) && #[trigger] dominates(
                        t,
                        comb@,
                    ) && (exists|j: int| 0 <= j < i + 1 && t[j] > comb@[j]) implies holds_from(
                    combinations@,
                    start.len() as int,
                    t,
                ) by {
                    if exists|j: int| 0 <= j < i && t[j] > comb@[j] {
                        let k = choose|k: int|
                            start.len() <= k < before.len() && #[trigger] before[k]@ == t;
                        assert(combinations@[k] == before[k]);
                    } else {
                        assert(t[i as int] > comb@[i as int]);
                        assert(dominates(t, nc));
                    }
                }
            }
        }
        i = i + 1;
    }
    proof {
        if sum_of(comb@) < exponent {
            assert forall|t: Seq<usize>|
                is_composition(t, comb@.len(), exponent as nat) && #[trigger] dominates(t, comb@)
                    implies holds_from(combinations@, start.len() as int, t) by {
                lemma_dominates_sum(t, comb@);
            }
        }
    }
}

/// The vectors of `v`, each once, in the order of their first occurrence.
fn clear_duplicates(v: &Vec<Vec<usize>>) -> (r: Vec<Vec<usize>>)
    ensures
        forall|t: Seq<usize>| holds(v@, t) <==> #[trigger] holds(r@, t),
        forall|a: int, b: int| 0 <= a < b < r@.len() ==> #[trigger] r@[a]@ != #[trigger] r@[b]@,
{
    let mut kept: Vec<Vec<usize>> = Vec::new();
    let mut i: usize = 0;
    while i < v.len()
        invariant
            i <= v@.len(),
            forall|t: Seq<usize>| #[trigger] holds(kept@, t) <==> (exists|k: int|
                0 <= k < i && #[trigger] v@[k]@ == t),
            forall|a: int, b: int|
                0 <= a < b < kept@.len() ==> #[trigger] kept@[a]@ != #[trigger] kept@[b]@,
        decreases v@.len() - i,
    {
        let mut seen = false;
        let mut k: usize = 0;
        while k < kept.len()
            invariant
                k <= kept@.len(),
                i < v@.len(),
                seen <==> exists|m: int| 0 <= m < k && #[trigger] kept@[m]@ == v@[i as int]@,
            decreases kept@.len() - k,
        {
            if same_parts(&kept[k], &v[i]) {
                seen = true;
            }
            k = k + 1;
        }
        let ghost before = kept@;
        if !seen {
            let copy = copy_parts(&v[i]);
            kept.push(copy);
            proof {
                assert forall|t: Seq<usize>| #[trigger] holds(kept@, t) <==> (exists|k: int|
                    0 <= k < i + 1 && #[trigger] v@[k]@ == t) by {
                    if holds(kept@, t) {
                        let m = choose|m: int| 0 <= m < kept@.len() && #[trigger] kept@[m]@ == t;
                        if m < before.len() {
                            assert(holds(before, t));
                        } else {
                            assert(v@[i as int]@ == t);
                        }
                    }
                    if exists|k: int| 0 <= k < i + 1 && #[trigger] v@[k]@ == t {
                        let k = choose|k: int| 0 <= k < i + 1 && #[trigger] v@[k]@ == t;
                        if k < i {
                            assert(holds(before, t));
                            let m = choose|m: int| 0 <= m < before.len() && #[trigger] before[m]@ == t;
                            assert(kept@[m]@ == t);
                        } else {
                            assert(kept@[before.len() as int]@ == t);
                        }
                    }
                }
                assert forall|a: int, b: int|
                    0 <= a < b < kept@.len() implies #[trigger] kept@[a]@ != #[trigger] kept@[b]@ by {
                    if b == before.len() {
                        assert(kept@[a] == before[a]);
                    } else {
                        assert(kept@[a] == before[a]);
                        assert(kept@[b] == before[b]);
                    }
                }
            }
        } else {
            proof {
                assert forall|t: Seq<usize>| #[trigger] holds(kept@, t) <==> (exists|k: int|
                    0 <= k < i + 1 && #[trigger] v@[k]@ == t) by {
                    if exists|k: int| 0 <= k < i + 1 && #[trigger] v@[k]@ == t {
                        let k = choose|k: int| 0 <= k < i + 1 && #[trigger] v@[k]@ == t;
                        if k == i {
                            let m = choose|m: int|
                                0 <= m < kept@.len() && #[trigger] kept@[m]@ == v@[i as int]@;
                            assert(kept@[m]@ == t);
                        }
                    }
                }
            }
        }
        i = i + 1;
    }
    proof {
        assert forall|t: Seq<usize>| holds(v@, t) <==> #[trigger] holds(kept@, t) by {
            if holds(v@, t) {
                let k = choose|k: int| 0 <= k < v@.len() && #[trigger] v@[k]@ == t;
                assert(exists|k: int| 0 <= k < v@.len() && #[trigger] v@[k]@ == t);
            }
        }
    }
    kept
}

fn same_parts(a: &Vec<usize>, b: &Vec<usize>) -> (r: bool)
    ensures
        r == (a@ == b@),
{
    if a.len() != b.len() {
        return false;
    }
    let mut i: usize = 0;
    while i < a.len()
        invariant
            i <= a@.len(),
            a@.len() == b@.len(),
            forall|j: int| 0 <= j < i ==> a@[j] == b@[j],
        decreases a@.len() - i,
    {
        if a[i] != b[i] {
            return false;
        }
        i = i + 1;
    }
    proof {
        assert(a@ =~= b@);
    }
    true
}

fn copy_parts(a: &Vec<usize>) -> (r: Vec<usize>)
    ensures
        r@ == a@,
{
    let mut out: Vec<usize> = Vec::new();
    let mut i: usize = 0;
    while i < a.len()
        invariant
            i <= a@.len(),
            out@ == a@.subrange(0, i as int),
        decreases a@.len() - i,
    {
        out.push(a[i]);
        proof {
            assert(out@ =~= a@.subrange(0, i + 1));
        }
        i = i + 1;
    }
    proof {
        assert(a@.subrange(0, a@.len() as int) =~= a@);
    }
    out
}

/// Every way to write `exponent` as an ordered sum of `len` natural
/// numbers, each once.
pub fn generate_combinations(len: usize, exponent: usize) -> (r: Vec<Vec<usize>>)
    ensures
        forall|k: int| 0 <= k < r@.len() ==> is_composition(#[trigger] r@[k]@, len as nat, exponent as nat),
        forall|t: Seq<usize>| is_composition(t, len as nat, exponent as nat) ==> #[trigger] holds(r@, t),
        forall|a: int, b: int| 0 <= a < b < r@.len() ==> #[trigger] r@[a]@ != #[trigger] r@[b]@,
{
    let mut comb: Vec<usize> = Vec::new();
    let mut i: usize = 0;
    while i < len
        invariant
            i <= len,
            comb@.len() == i,
            forall|j: int| 0 <= j < i ==> comb@[j] == 0,
        decreases len - i,
    {
        comb.push(0);
        i = i + 1;
    }
    proof {
        lemma_zero_sum(comb@);
        assert forall|t: Seq<usize>| t.len() == len implies dominates(t, comb@) by {}
    }
    let mut combinations: Vec<Vec<usize>> = Vec::new();
    if exponent == 0 {
        combinations.push(comb);
        proof {
            assert forall|t: Seq<usize>| is_composition(t, len as nat, exponent as nat) implies #[trigger] holds(
                combinations@,
                t,
            ) by {
                assert(dominates(t, combinations@[0]@));
                lemma_dominates_sum(t, combinations@[0]@);
                assert(combinations@[0]@ == t);
            }
        }
        return combinations;
    }
    iterate_combination(comb, &mut combinations, exponent);
    let r = clear_duplicates(&combinations);
    proof {
        assert forall|k: int| 0 <= k < r@.len() implies is_composition(#[trigger] r@[k]@, len as nat, exponent as nat) by {
            assert(holds(r@, r@[k]@));
            assert(holds(combinations@, r@[k]@));
            let m = choose|m: int| 0 <= m < combinations@.len() && #[trigger] combinations@[m]@ == r@[k]@;
        }
        assert forall|t: Seq<usize>| is_composition(t, len as nat, exponent as nat) implies #[trigger] holds(r@, t) by {
            assert(dominates(t, comb@));
            assert(holds_from(combinations@, 0, t));
            let k = choose|k: int| 0 <= k < combinations@.len() && #[trigger] combinations@[k]@ == t;
            assert(holds(combinations@, t));
        }
    }
    r
}

proof fn lemma_zero_sum(v: Seq<usize>)
    requires
        forall|j: int| 0 <= j < v.len() ==> v[j] == 0,
    ensures
        sum_of(v) == 0,
    decreases v.len(),
{
    if v.len() > 0 {
        lemma_zero_sum(v.drop_last());
    }
}

/// `n!` for natural numbers, `x! = x * (x - 1)!` and `0! = 1`.
pub trait Factorial {
    spec fn natural(&self) -> nat;

    fn factorial(&self) -> (r: u128)
        requires
            self.natural() <= 34,
        ensures
            r == crate::combinatorics::factorial(self.natural()),
    ;
}

impl Factorial for u8 {
    open spec fn natural(&self) -> nat {
        *self as nat
    }

    fn factorial(&self) -> (r: u128) {
        factorial_integer(*self as u128)
    }
}

impl Factorial for u16 {
    open spec fn natural(&self) -> nat {
        *self as nat
    }

    fn factorial(&self) -> (r: u128) {
        factorial_integer(*self as u128)
    }
}

impl Factorial for u32 {
    open spec fn natural(&self) -> nat {
        *self as nat
    }

    fn factorial(&self) -> (r: u128) {
        factorial_integer(*self as u128)
    }
}

impl Factorial for u64 {
    open spec fn natural(&self) -> nat {
        *self as nat
    }

    fn factorial(&self) -> (r: u128) {
        factorial_integer(*self as u128)
    }
}

impl Factorial for u128 {
    open spec fn natural(&self) -> nat {
        *self as nat
    }

    fn factorial(&self) -> (r: u128) {
        factorial_integer(*self as u128)
    }
}

impl Factorial for usize {
    open spec fn natural(&self) -> nat {
        *self as nat
    }

    fn factorial(&self) -> (r: u128) {
        factorial_integer(*self as u128)
    }
}

} // verus!
