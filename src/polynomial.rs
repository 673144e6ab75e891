//! The mathematics behind Bezier evaluation: binomial coefficients,
//! Bernstein terms over a homogeneous parameter, the closed-form Bezier sum
//! and the De Casteljau recursion, with the facts that tie them together.
use vstd::prelude::*;
use vstd::arithmetic::power::*;
use vstd::math::abs;

verus! {

pub open spec fn fact(n: nat) -> nat
    decreases n,
{
    if n == 0 { 1 } else { n * fact((n - 1) as nat) }
}

/// The binomial coefficient, by Pascal's rule.
pub open spec fn binom(n: nat, k: nat) -> nat
    decreases n,
{
    if k == 0 {
        1
    } else if n == 0 {
        0
    } else {
        binom((n - 1) as nat, (k - 1) as nat) + binom((n - 1) as nat, k)
    }
}

/// The Bernstein term `C(n, i) * a^i * b^(n - i)`, zero for `i > n`.
///
/// For a parameter `xi = t / w` it is taken with `a = t`, `b = w - t`; the
/// Bernstein value `B(n, i)(xi)` is then this term divided by `w^n`.
pub open spec fn basis(n: nat, i: nat, a: int, b: int) -> int {
    if i <= n {
        binom(n, i) * pow(a, i) * pow(b, (n - i) as nat)
    } else {
        0
    }
}

/// The sum of the first `k` Bernstein terms of degree `n`.
pub open spec fn basis_sum(n: nat, a: int, b: int, k: nat) -> int
    decreases k,
{
    if k == 0 {
        0
    } else {
        basis_sum(n, a, b, (k - 1) as nat) + basis(n, (k - 1) as nat, a, b)
    }
}

/// The sum of the first `k` values of `s`, each weighted by its Bernstein term.
pub open spec fn weighted_sum(s: Seq<int>, n: nat, a: int, b: int, k: nat) -> int
    decreases k,
{
    if k == 0 {
        0
    } else {
        weighted_sum(s, n, a, b, (k - 1) as nat) + basis(n, (k - 1) as nat, a, b) * s[k - 1]
    }
}

/// The closed-form Bezier sum over the control values `s` (degree `s.len() - 1`).
pub open spec fn bezier_direct(s: Seq<int>, a: int, b: int) -> int {
    if s.len() == 0 {
        0
    } else {
        weighted_sum(s, (s.len() - 1) as nat, a, b, s.len())
    }
}

/// The De Casteljau recursion over the control values `s`: the curve of
/// the first `len - 1` values and that of the last `len - 1` values,
/// blended with weights `b` and `a`.
pub open spec fn de_casteljau(s: Seq<int>, a: int, b: int) -> int
    decreases s.len(),
{
    if s.len() == 0 {
        0
    } else if s.len() == 1 {
        s[0]
    } else {
        b * de_casteljau(s.drop_last(), a, b) + a * de_casteljau(s.drop_first(), a, b)
    }
}

/// `|t| + |w - t|`: the largest growth factor of one interpolation step.
pub open spec fn reach(t: int, w: int) -> int {
    (abs(t) + abs(w - t)) as int
}

pub proof fn lemma_fact_pos(n: nat)
    ensures
        fact(n) >= 1,
    decreases n,
{
    if n > 0 {
        lemma_fact_pos((n - 1) as nat);
        assert(n * fact((n - 1) as nat) >= 1) by (nonlinear_arith)
            requires n >= 1, fact((n - 1) as nat) >= 1;
    }
}

pub proof fn lemma_fact_monotone(i: nat, j: nat)
    requires
        i <= j,
    ensures
        fact(i) <= fact(j),
    decreases j,
{
    if i < j {
        lemma_fact_monotone(i, (j - 1) as nat);
        lemma_fact_pos((j - 1) as nat);
        assert(fact((j - 1) as nat) <= j * fact((j - 1) as nat)) by (nonlinear_arith)
            requires j >= 1, fact((j - 1) as nat) >= 1;
    }
}

pub proof fn lemma_binom_above(n: nat, k: nat)
    requires
        k > n,
    ensures
        binom(n, k) == 0,
    decreases n,
{
    if n > 0 {
        lemma_binom_above((n - 1) as nat, (k - 1) as nat);
        lemma_binom_above((n - 1) as nat, k);
    }
}

pub proof fn lemma_binom_diag(n: nat)
    ensures
        binom(n, n) == 1,
    decreases n,
{
    if n > 0 {
        lemma_binom_diag((n - 1) as nat);
        lemma_binom_above((n - 1) as nat, n);
    }
}

/// `n! = C(n, k) * k! * (n - k)!`.
pub proof fn lemma_binom_fact(n: nat, k: nat)
    requires
        k <= n,
    ensures
        fact(n) == binom(n, k) * fact(k) * fact((n - k) as nat),
    decreases n,
{
    if k == 0 {
        assert(fact(0) == 1);
        assert(binom(n, 0) == 1);
        assert(fact(n) == binom(n, k) * fact(k) * fact((n - k) as nat));
    } else if k == n {
        lemma_binom_diag(n);
        assert(fact(0) == 1);
        assert((n - k) as nat == 0);
        assert(fact((n - k) as nat) == 1);
        assert(binom(n, k) == 1);
        assert(fact(n) == binom(n, k) * fact(k) * fact((n - k) as nat));
    } else {
        let m = (n - 1) as nat;
        lemma_binom_fact(m, (k - 1) as nat);
        lemma_binom_fact(m, k);
        let c1 = binom(m, (k - 1) as nat);
        let c2 = binom(m, k);
        let fk1 = fact((k - 1) as nat);
        let fnk1 = fact((m - k) as nat);
        assert(fact(k) == k * fk1);
        assert(fact((n - k) as nat) == (n - k) * fnk1);
        assert(fact(m) == c1 * fk1 * ((n - k) * fnk1));
        assert(fact(m) == c2 * (k * fk1) * fnk1);
        let fm = fact(m);
        let fk = fact(k);
        let fnk = fact((n - k) as nat);
        assert(binom(n, k) == c1 + c2);
        assert(fact(n) == n * fm);
        assert(n * fm == (c1 + c2) * fk * fnk) by (nonlinear_arith)
            requires
                fk == k * fk1,
                fnk == (n - k) * fnk1,
                fm == c1 * fk1 * ((n - k) * fnk1),
                fm == c2 * (k * fk1) * fnk1,
        ;
        assert(fact(n) == binom(n, k) * fact(k) * fact((n - k) as nat));
    }
}

pub proof fn lemma_binom_pos(n: nat, k: nat)
    requires
        k <= n,
    ensures
        binom(n, k) >= 1,
{
    lemma_binom_fact(n, k);
    lemma_fact_pos(n);
    if binom(n, k) == 0 {
        assert(binom(n, k) * fact(k) * fact((n - k) as nat) == 0) by (nonlinear_arith)
            requires binom(n, k) == 0;
    }
}

/// Pascal's rule carried over to the Bernstein terms.
pub proof fn lemma_basis_pascal(n: nat, k: nat, a: int, b: int)
    requires
        1 <= k <= n,
    ensures
        basis(n, k, a, b) == b * basis((n - 1) as nat, k, a, b) + a * basis(
            (n - 1) as nat,
            (k - 1) as nat,
            a,
            b,
        ),
{
    let m = (n - 1) as nat;
    let c1 = binom(m, (k - 1) as nat);
    let c2 = binom(m, k);
    let pa = pow(a, (k - 1) as nat);
    let pb = pow(b, (n - k) as nat);
    assert(pow(a, k) == a * pa) by {
        reveal(pow);
    }
    assert(binom(n, k) == c1 + c2);
    assert(basis(m, (k - 1) as nat, a, b) == c1 * pa * pb);
    if k == n {
        lemma_binom_above(m, k);
        assert(basis(n, k, a, b) == (c1 + c2) * (a * pa) * pb);
        assert(c2 == 0);
        assert((c1 + 0) * (a * pa) * pb == a * (c1 * pa * pb)) by (nonlinear_arith);
    } else {
        let pb1 = pow(b, (m - k) as nat);
        assert(pb == b * pb1) by {
            reveal(pow);
        }
        assert(basis(m, k, a, b) == c2 * (a * pa) * pb1);
        assert(basis(n, k, a, b) == (c1 + c2) * (a * pa) * (b * pb1));
        assert((c1 + c2) * (a * pa) * (b * pb1) == b * (c2 * (a * pa) * pb1) + a * (c1 * pa * (b
            * pb1))) by (nonlinear_arith);
    }
}

/// A weighted sum reads only the first `k` values.
pub proof fn lemma_weighted_sum_ext(s1: Seq<int>, s2: Seq<int>, n: nat, a: int, b: int, k: nat)
    requires
        forall|j: int| 0 <= j < k ==> s1[j] == s2[j],
    ensures
        weighted_sum(s1, n, a, b, k) == weighted_sum(s2, n, a, b, k),
    decreases k,
{
    if k > 0 {
        lemma_weighted_sum_ext(s1, s2, n, a, b, (k - 1) as nat);
    }
}

/// The first `k` terms of a Bezier sum of degree `n`, split by Pascal's rule
/// into two sums of degree `n - 1`.
pub proof fn lemma_weighted_sum_split(s: Seq<int>, n: nat, a: int, b: int, k: nat)
    requires
        1 <= n,
        1 <= k <= n + 1,
        k <= s.len(),
    ensures
        weighted_sum(s, n, a, b, k) == b * weighted_sum(s, (n - 1) as nat, a, b, k) + a
            * weighted_sum(s.drop_first(), (n - 1) as nat, a, b, (k - 1) as nat),
    decreases k,
{
    let m = (n - 1) as nat;
    if k == 1 {
        assert(pow(a, 0) == 1) by {
            reveal(pow);
        }
        assert(binom(n, 0) == 1 && binom(m, 0) == 1);
        assert(basis(n, 0, a, b) == 1 * 1 * pow(b, n));
        assert(basis(m, 0, a, b) == 1 * 1 * pow(b, m));
        assert(weighted_sum(s, n, a, b, 0) == 0);
        assert(weighted_sum(s, m, a, b, 0) == 0);
        assert(pow(b, n) == b * pow(b, m)) by {
            reveal(pow);
        }
        assert(weighted_sum(s, n, a, b, 1) == basis(n, 0, a, b) * s[0]);
        assert(weighted_sum(s, m, a, b, 1) == basis(m, 0, a, b) * s[0]);
        assert(b * pow(b, m) * s[0] == b * (pow(b, m) * s[0])) by (nonlinear_arith);
    } else {
        let j = (k - 1) as nat;
        lemma_weighted_sum_split(s, n, a, b, j);
        lemma_basis_pascal(n, j, a, b);
        let x = basis(m, j, a, b);
        let y = basis(m, (j - 1) as nat, a, b);
        let v = s[j as int];
        assert(s.drop_first()[j - 1] == v);
        let p = weighted_sum(s, m, a, b, j);
        let q = weighted_sum(s.drop_first(), m, a, b, (j - 1) as nat);
        assert(weighted_sum(s, m, a, b, k) == p + x * v);
        assert(weighted_sum(s.drop_first(), m, a, b, j) == q + y * v);
        assert((b * x + a * y) * v == b * (x * v) + a * (y * v)) by (nonlinear_arith);
        assert(b * (p + x * v) == b * p + b * (x * v)) by (nonlinear_arith);
        assert(a * (q + y * v) == a * q + a * (y * v)) by (nonlinear_arith);
    }
}

/// The De Casteljau recursion and the closed-form Bezier sum agree exactly.
pub proof fn lemma_evaluators_agree(s: Seq<int>, a: int, b: int)
    requires
        s.len() >= 1,
    ensures
        de_casteljau(s, a, b) == bezier_direct(s, a, b),
    decreases s.len(),
{
    if s.len() == 1 {
        assert(pow(a, 0) == 1 && pow(b, 0) == 1) by {
            reveal(pow);
        }
        assert(weighted_sum(s, 0, a, b, 0) == 0);
        assert(binom(0, 0) == 1);
        assert(basis(0, 0, a, b) == 1 * 1 * 1);
        assert(weighted_sum(s, 0, a, b, 1) == basis(0, 0, a, b) * s[0]);
    } else {
        let n = (s.len() - 1) as nat;
        let m = (n - 1) as nat;
        lemma_evaluators_agree(s.drop_last(), a, b);
        lemma_evaluators_agree(s.drop_first(), a, b);
        lemma_weighted_sum_split(s, n, a, b, n + 1);
        assert(weighted_sum(s, m, a, b, n + 1) == weighted_sum(s, m, a, b, n));
        lemma_weighted_sum_ext(s, s.drop_last(), m, a, b, n);
    }
}

pub open spec fn ones(m: nat) -> Seq<int> {
    Seq::new(m, |j: int| 1int)
}

proof fn lemma_basis_sum_is_weighted(n: nat, a: int, b: int, k: nat, m: nat)
    requires
        k <= m,
    ensures
        basis_sum(n, a, b, k) == weighted_sum(ones(m), n, a, b, k),
    decreases k,
{
    if k > 0 {
        lemma_basis_sum_is_weighted(n, a, b, (k - 1) as nat, m);
    }
}

proof fn lemma_de_casteljau_ones(m: nat, a: int, b: int)
    requires
        m >= 1,
    ensures
        de_casteljau(ones(m), a, b) == pow(a + b, (m - 1) as nat),
    decreases m,
{
    if m == 1 {
        assert(pow(a + b, 0) == 1) by {
            reveal(pow);
        }
    } else {
        lemma_de_casteljau_ones((m - 1) as nat, a, b);
        assert(ones(m).drop_last() =~= ones((m - 1) as nat));
        assert(ones(m).drop_first() =~= ones((m - 1) as nat));
        let p = pow(a + b, (m - 2) as nat);
        assert(pow(a + b, (m - 1) as nat) == (a + b) * p) by {
            reveal(pow);
        }
        assert(b * p + a * p == (a + b) * p) by (nonlinear_arith);
    }
}

/// The binomial theorem: the Bernstein terms of degree `n` add up to `(a + b)^n`.
pub proof fn lemma_binomial_theorem(n: nat, a: int, b: int)
    ensures
        basis_sum(n, a, b, n + 1) == pow(a + b, n),
{
    lemma_de_casteljau_ones(n + 1, a, b);
    lemma_evaluators_agree(ones(n + 1), a, b);
    lemma_basis_sum_is_weighted(n, a, b, n + 1, n + 1);
}


pub proof fn lemma_pow_nonneg(x: int, e: nat)
    requires
        x >= 0,
    ensures
        pow(x, e) >= 0,
    decreases e,
{
    reveal(pow);
    if e > 0 {
        lemma_pow_nonneg(x, (e - 1) as nat);
        assert(x * pow(x, (e - 1) as nat) >= 0) by (nonlinear_arith)
            requires x >= 0, pow(x, (e - 1) as nat) >= 0;
    }
}

pub proof fn lemma_pow_abs(x: int, e: nat)
    ensures
        abs(pow(x, e)) == pow(abs(x) as int, e),
    decreases e,
{
    reveal(pow);
    if e > 0 {
        lemma_pow_abs(x, (e - 1) as nat);
        let p = pow(x, (e - 1) as nat);
        assert(abs(x * p) == abs(x) * abs(p)) by (nonlinear_arith);
    }
}

pub proof fn lemma_pow_base_monotone(x: int, y: int, e: nat)
    requires
        0 <= x <= y,
    ensures
        pow(x, e) <= pow(y, e),
    decreases e,
{
    reveal(pow);
    if e > 0 {
        lemma_pow_base_monotone(x, y, (e - 1) as nat);
        lemma_pow_nonneg(x, (e - 1) as nat);
        let px = pow(x, (e - 1) as nat);
        let py = pow(y, (e - 1) as nat);
        assert(x * px <= y * py) by (nonlinear_arith)
            requires 0 <= x <= y, 0 <= px <= py;
    }
}

/// `|a|^e <= r^n` whenever `|a| <= r`, `r >= 1` and `e <= n`.
pub proof fn lemma_pow_within(a: int, r: int, e: nat, n: nat)
    requires
        abs(a) <= r,
        r >= 1,
        e <= n,
    ensures
        abs(pow(a, e)) <= pow(r, n),
{
    lemma_pow_abs(a, e);
    lemma_pow_base_monotone(abs(a) as int, r, e);
    lemma_pow_increases(r as nat, e, n);
}

/// Bernstein terms of nonnegative arguments are nonnegative.
pub proof fn lemma_basis_nonneg(n: nat, i: nat, x: int, y: int)
    requires
        x >= 0,
        y >= 0,
    ensures
        basis(n, i, x, y) >= 0,
{
    if i <= n {
        lemma_pow_nonneg(x, i);
        lemma_pow_nonneg(y, (n - i) as nat);
        let c = binom(n, i) as int;
        let px = pow(x, i);
        let py = pow(y, (n - i) as nat);
        assert(c * px * py >= 0) by (nonlinear_arith)
            requires c >= 0, px >= 0, py >= 0;
    }
}

pub proof fn lemma_basis_abs(n: nat, i: nat, a: int, b: int)
    ensures
        abs(basis(n, i, a, b)) == basis(n, i, abs(a) as int, abs(b) as int),
{
    if i <= n {
        lemma_pow_abs(a, i);
        lemma_pow_abs(b, (n - i) as nat);
        let c = binom(n, i) as int;
        let pa = pow(a, i);
        let pb = pow(b, (n - i) as nat);
        assert(abs(c * pa * pb) == c * abs(pa) * abs(pb)) by (nonlinear_arith)
            requires c >= 0;
    }
}

/// With nonnegative arguments the partial sums of Bernstein terms grow with `k`.
pub proof fn lemma_basis_sum_monotone(n: nat, x: int, y: int, k: nat, m: nat)
    requires
        x >= 0,
        y >= 0,
        k <= m,
    ensures
        0 <= basis_sum(n, x, y, k) <= basis_sum(n, x, y, m),
    decreases m,
{
    if k < m {
        lemma_basis_sum_monotone(n, x, y, k, (m - 1) as nat);
        lemma_basis_nonneg(n, (m - 1) as nat, x, y);
    } else {
        lemma_basis_sum_nonneg(n, x, y, k);
    }
}

proof fn lemma_basis_sum_nonneg(n: nat, x: int, y: int, k: nat)
    requires
        x >= 0,
        y >= 0,
    ensures
        basis_sum(n, x, y, k) >= 0,
    decreases k,
{
    if k > 0 {
        lemma_basis_sum_nonneg(n, x, y, (k - 1) as nat);
        lemma_basis_nonneg(n, (k - 1) as nat, x, y);
    }
}

/// Every Bernstein term is bounded by `(|a| + |b|)^n`.
pub proof fn lemma_basis_bounded(n: nat, i: nat, a: int, b: int)
    ensures
        abs(basis(n, i, a, b)) <= pow((abs(a) + abs(b)) as int, n),
{
    let x = abs(a) as int;
    let y = abs(b) as int;
    lemma_basis_abs(n, i, a, b);
    lemma_binomial_theorem(n, x, y);
    if i <= n {
        lemma_basis_sum_monotone(n, x, y, i, i + 1);
        lemma_basis_sum_monotone(n, x, y, i + 1, n + 1);
    } else {
        lemma_basis_sum_monotone(n, x, y, 0, n + 1);
    }
}

/// A weighted sum of values bounded by `l` is bounded by `l` times the sum of
/// the absolute Bernstein terms.
pub proof fn lemma_weighted_sum_bounded(s: Seq<int>, n: nat, a: int, b: int, k: nat, l: int)
    requires
        k <= s.len(),
        forall|j: int| 0 <= j < k ==> abs(#[trigger] s[j]) <= l,
    ensures
        abs(weighted_sum(s, n, a, b, k)) <= l * basis_sum(n, abs(a) as int, abs(b) as int, k),
    decreases k,
{
    if k > 0 {
        let j = (k - 1) as nat;
        lemma_weighted_sum_bounded(s, n, a, b, j, l);
        lemma_basis_abs(n, j, a, b);
        let t = basis(n, j, a, b);
        let v = s[j as int];
        let ta = basis(n, j, abs(a) as int, abs(b) as int);
        let prev = weighted_sum(s, n, a, b, j);
        let bs = basis_sum(n, abs(a) as int, abs(b) as int, j);
        assert(abs(v) <= l);
        assert(abs(prev + t * v) <= l * (bs + ta)) by (nonlinear_arith)
            requires
                abs(prev) <= l * bs,
                abs(t) == ta,
                abs(v) <= l,
        ;
    }
}

/// Negating both arguments of a Bernstein term multiplies it by `(-1)^n`.
pub proof fn lemma_basis_negated(n: nat, i: nat, a: int, b: int)
    ensures
        basis(n, i, a, b) == pow(-1, n) * basis(n, i, -a, -b),
{
    if i <= n {
        let e = (n - i) as nat;
        lemma_pow_distributes(-1, -a, i);
        lemma_pow_distributes(-1, -b, e);
        assert(-1 * -a == a && -1 * -b == b);
        lemma_pow_adds(-1, i, e);
        let c = binom(n, i) as int;
        let sa = pow(-1, i);
        let sb = pow(-1, e);
        let pa = pow(-a, i);
        let pb = pow(-b, e);
        assert(c * (sa * pa) * (sb * pb) == (sa * sb) * (c * pa * pb)) by (nonlinear_arith);
    } else {
        assert(pow(-1, n) * 0 == 0);
    }
}

} // verus!
