//! Bernstein basis polynomials and Bezier curves in space.
use vstd::prelude::*;
use vstd::arithmetic::power::{
    lemma1_pow, lemma_pow0, lemma_pow1, lemma_pow_adds, lemma_pow_distributes, pow,
};
use vstd::math::abs;
use crate::point::{Point, in_range, vscale, vsum};
use crate::polynomial::{
    basis, basis_sum, bezier_direct, binom, de_casteljau, fact, lemma_basis_bounded,
    lemma_basis_negated, lemma_basis_nonneg, lemma_basis_sum_monotone, lemma_binom_fact,
    lemma_binom_pos, lemma_binomial_theorem, lemma_evaluators_agree, lemma_fact_monotone,
    lemma_fact_pos, lemma_pow_abs, lemma_pow_base_monotone, lemma_pow_nonneg, lemma_pow_within,
    lemma_weighted_sum_bounded, reach, weighted_sum,
};

verus! {

broadcast use crate::point::lemma_point_len;

proof fn lemma_fact_20()
    ensures
        fact(20) == 2432902008176640000,
{
    reveal_with_fuel(fact, 21);
}

/// The factorial of `n`, for `n` up to 20 (the largest whose factorial fits in `u64`).
pub fn factorial(n: u32) -> (r: u64)
    requires
        n <= 20,
    ensures
        r == fact(n as nat),
{
    proof {
        lemma_fact_20();
    }
    let mut r: u64 = 1;
    let mut k: u32 = 0;
    while k < n
        invariant
            k <= n <= 20,
            r == fact(k as nat),
            fact(20) == 2432902008176640000,
        decreases n - k,
    {
        proof {
            lemma_fact_monotone((k + 1) as nat, 20);
            assert(fact((k + 1) as nat) == (k + 1) * fact(k as nat));
            assert(r * (k + 1) == fact((k + 1) as nat)) by (nonlinear_arith)
                requires fact((k + 1) as nat) == (k + 1) * fact(k as nat), r == fact(k as nat);
        }
        r = r * ((k + 1) as u64);
        k = k + 1;
    }
    r
}

/// Relies on num::pow: exponentiation by squaring, exact whenever the power
/// fits in `i64` (every intermediate square is then bounded by the power).
#[verifier::external_body]
fn power(base: i64, exp: usize) -> (r: i64)
    requires
        abs(pow(base as int, exp as nat)) <= i64::MAX,
    ensures
        r == pow(base as int, exp as nat),
{
    num::pow(base, exp)
}

/// The Bernstein basis polynomial of degree `n` and index `i`, with `i <= n`.
pub struct Bernstein {
    n: u32,
    i: u32,
}

impl View for Bernstein {
    type V = (nat, nat);

    /// The degree and the index.
    closed spec fn view(&self) -> (nat, nat) {
        (self.n as nat, self.i as nat)
    }
}

impl Bernstein {
    #[verifier::type_invariant]
    spec fn index_within_degree(&self) -> bool {
        self.i <= self.n
    }

    /// The basis polynomial of degree `n` and index `i`; none when `i > n`.
    pub fn create(n: u32, i: u32) -> (r: Option<Bernstein>)
        ensures
            r is Some <==> i <= n,
            r matches Some(b) ==> b@ == (n as nat, i as nat),
    {
        if i > n {
            return None;
        }
        Some(Bernstein { n: n, i: i })
    }

    /// The value at the parameter `xi = t / w`, given as the homogeneous
    /// point `(t, w)`; the value comes back in the same form, as the pair
    /// `(C(n, i) * t^i * (w - t)^(n - i), w^n)`.
    pub fn evaluate(&self, xi: &Point<2>) -> (r: Point<2>)
        requires
            self@.0 <= 20,
            xi@[1] != 0,
            reach(xi@[0], xi@[1]) <= i64::MAX,
            pow(reach(xi@[0], xi@[1]), self@.0) <= i64::MAX,
        ensures
            r@ == seq![basis(self@.0, self@.1, xi@[0], xi@[1] - xi@[0]), pow(xi@[1], self@.0)],
    {
        proof {
            use_type_invariant(self);
        }
        let n = self.n;
        let i = self.i;
        let t = xi.x();
        let w = xi.y();
        let ghost rr = reach(t as int, w as int);
        let ghost rn = pow(rr, n as nat);
        let b = w - t;
        proof {
            lemma_binom_fact(n as nat, i as nat);
            lemma_binom_pos(n as nat, i as nat);
            lemma_fact_pos(i as nat);
            lemma_fact_pos((n - i) as nat);
            lemma_fact_monotone(n as nat, 20);
            let c = binom(n as nat, i as nat);
            let fi = fact(i as nat);
            let fni = fact((n - i) as nat);
            let d = fi * fni;
            assert(fact(n as nat) == c * d && d >= 1) by (nonlinear_arith)
                requires fact(n as nat) == c * fi * fni, fi >= 1, fni >= 1, d == fi * fni;
            assert(d <= fact(n as nat)) by (nonlinear_arith)
                requires fact(n as nat) == c * d, c >= 1, d >= 1;
            assert(fact(n as nat) / d == c) by (nonlinear_arith)
                requires fact(n as nat) == c * d, d >= 1;
            assert(c <= fact(n as nat)) by (nonlinear_arith)
                requires fact(n as nat) == c * d, d >= 1;
        }
        let c = factorial(n) / (factorial(i) * factorial(n - i));
        proof {
            assert(c == binom(n as nat, i as nat));
            lemma_fact_20();
            lemma_pow_within(t as int, rr, i as nat, n as nat);
            lemma_pow_within(b as int, rr, (n - i) as nat, n as nat);
            lemma_pow_within(w as int, rr, n as nat, n as nat);
        }
        let pa = power(t, i as usize);
        let pb = power(b, (n - i) as usize);
        proof {
            lemma_pow_abs(t as int, i as nat);
            lemma_pow_abs(b as int, (n - i) as nat);
            lemma_pow_base_monotone(abs(t as int) as int, rr, i as nat);
            lemma_pow_base_monotone(abs(b as int) as int, rr, (n - i) as nat);
            lemma_pow_adds(rr, i as nat, (n - i) as nat);
            lemma_pow_nonneg(abs(t as int) as int, i as nat);
            lemma_pow_nonneg(abs(b as int) as int, (n - i) as nat);
            let x = pow(rr, i as nat);
            let y = pow(rr, (n - i) as nat);
            assert(abs(pa * pb) <= rn) by (nonlinear_arith)
                requires abs(pa as int) <= x, abs(pb as int) <= y, rn == x * y;
            lemma_basis_bounded(n as nat, i as nat, t as int, b as int);
            assert(basis(n as nat, i as nat, t as int, b as int) == c * (pa * pb)) by (nonlinear_arith)
                requires basis(n as nat, i as nat, t as int, b as int) == c * pa * pb;
        }
        let prod = pa * pb;
        let num = (c as i64) * prod;
        let wn = power(w, n as usize);
        Point::point2d(num, wn)
    }
}

/// The `c`-th coordinates of a sequence of points.
pub open spec fn coords(pts: Seq<Point<3>>, c: int) -> Seq<int> {
    Seq::new(pts.len(), |j: int| pts[j]@[c])
}

/// The control points `pts` form a curve that can be evaluated at the
/// parameter `t / w` without any intermediate value leaving `i64`.
pub open spec fn evaluable(pts: Seq<Point<3>>, t: int, w: int) -> bool {
    &&& pts.len() >= 1
    &&& w != 0
    &&& reach(t, w) <= i64::MAX
    &&& pow(reach(t, w), (pts.len() - 1) as nat) <= i64::MAX
    &&& forall|j: int, c: int|
        0 <= j < pts.len() && 0 <= c < 3 ==> abs(#[trigger] pts[j]@[c]) * pow(
            reach(t, w),
            (pts.len() - 1) as nat,
        ) <= i64::MAX
}

/// The curve point at `t / w` by the closed-form sum, in homogeneous form.
pub open spec fn curve_direct(pts: Seq<Point<3>>, t: int, w: int) -> Seq<int> {
    seq![
        bezier_direct(coords(pts, 0), t, w - t),
        bezier_direct(coords(pts, 1), t, w - t),
        bezier_direct(coords(pts, 2), t, w - t),
        pow(w, (pts.len() - 1) as nat),
    ]
}

/// The curve point at `t / w` by the De Casteljau recursion, in homogeneous form.
pub open spec fn curve_de_casteljau(pts: Seq<Point<3>>, t: int, w: int) -> Seq<int> {
    seq![
        de_casteljau(coords(pts, 0), t, w - t),
        de_casteljau(coords(pts, 1), t, w - t),
        de_casteljau(coords(pts, 2), t, w - t),
        pow(w, (pts.len() - 1) as nat),
    ]
}

/// `v` holds, for each coordinate, the De Casteljau value of the `k + 1`
/// control points starting at `j`, and stays within `bound`.
spec fn stage_holds(v: Seq<int>, pts: Seq<Point<3>>, j: int, k: int, t: int, b: int, bound: int) -> bool {
    forall|c: int|
        0 <= c < 3 ==> #[trigger] v[c] == de_casteljau(coords(pts, c).subrange(j, j + k + 1), t, b)
            && abs(v[c]) <= bound
}

proof fn lemma_le_div(x: int, p: int, m: int)
    requires
        x * p <= m,
        p >= 1,
        m >= 0,
    ensures
        x <= m / p,
        (m / p) * p <= m,
        m / p >= 0,
{
    vstd::arithmetic::div_mod::lemma_fundamental_div_mod(m, p);
    let q = m / p;
    let r = m % p;
    assert(x <= q && q * p <= m && q >= 0) by (nonlinear_arith)
        requires x * p <= m, p >= 1, m == p * q + r, 0 <= r < p, m >= 0;
}

/// Each control coordinate is bounded by `i64::MAX / reach^n`.
proof fn lemma_control_bound(pts: Seq<Point<3>>, t: int, w: int, l: int)
    requires
        evaluable(pts, t, w),
        l == (i64::MAX as int) / pow(reach(t, w), (pts.len() - 1) as nat),
    ensures
        l >= 0,
        l * pow(reach(t, w), (pts.len() - 1) as nat) <= i64::MAX,
        forall|j: int, c: int| 0 <= j < pts.len() && 0 <= c < 3 ==> abs(#[trigger] pts[j]@[c]) <= l,
{
    let rr = reach(t, w);
    let n = (pts.len() - 1) as nat;
    assert(rr >= 1);
    vstd::arithmetic::power::lemma_pow_positive(rr, n);
    lemma_le_div(0, pow(rr, n), i64::MAX as int);
    assert forall|j: int, c: int| 0 <= j < pts.len() && 0 <= c < 3 implies abs(
        #[trigger] pts[j]@[c],
    ) <= l by {
        lemma_le_div(abs(pts[j]@[c]) as int, pow(rr, n), i64::MAX as int);
    }
}

/// One interpolation step of the De Casteljau scheme stays in range and
/// yields the next stage.
proof fn lemma_interpolation_step(
    x: Seq<int>,
    y: Seq<int>,
    pts: Seq<Point<3>>,
    j: int,
    k: nat,
    t: int,
    b: int,
    l: int,
    rr: int,
)
    requires
        k >= 1,
        0 <= j,
        j + k < pts.len(),
        x.len() == 3,
        y.len() == 3,
        rr == abs(t) + abs(b),
        rr >= 1,
        l >= 0,
        l * pow(rr, k) <= i64::MAX,
        stage_holds(x, pts, j, k - 1, t, b, l * pow(rr, (k - 1) as nat)),
        stage_holds(y, pts, j + 1, k - 1, t, b, l * pow(rr, (k - 1) as nat)),
    ensures
        in_range(vscale(x, b)),
        in_range(vscale(y, t)),
        in_range(vsum(vscale(x, b), vscale(y, t))),
        stage_holds(vsum(vscale(x, b), vscale(y, t)), pts, j, k as int, t, b, l * pow(rr, k)),
{
    let prev = l * pow(rr, (k - 1) as nat);
    assert(pow(rr, k) == rr * pow(rr, (k - 1) as nat)) by {
        reveal(pow);
    }
    assert(l * pow(rr, k) == rr * prev) by (nonlinear_arith)
        requires pow(rr, k) == rr * pow(rr, (k - 1) as nat), prev == l * pow(rr, (k - 1) as nat);
    let nv = vsum(vscale(x, b), vscale(y, t));
    assert forall|c: int| 0 <= c < 3 implies #[trigger] nv[c] == de_casteljau(
        coords(pts, c).subrange(j, j + k + 1),
        t,
        b,
    ) && abs(nv[c]) <= l * pow(rr, k) && i64::MIN <= x[c] * b <= i64::MAX && i64::MIN <= y[c] * t
        <= i64::MAX by {
        let s = coords(pts, c);
        let sub = s.subrange(j, j + k + 1);
        assert(sub.drop_last() =~= s.subrange(j, j + k));
        assert(sub.drop_first() =~= s.subrange(j + 1, j + 1 + k));
        assert(x[c] == de_casteljau(s.subrange(j, j + k), t, b));
        assert(y[c] == de_casteljau(s.subrange(j + 1, j + 1 + k), t, b));
        let xc = x[c];
        let yc = y[c];
        assert(abs(xc) <= prev && abs(yc) <= prev);
        assert(abs(xc * b) <= abs(b) * prev && abs(yc * t) <= abs(t) * prev) by (nonlinear_arith)
            requires abs(xc) <= prev, abs(yc) <= prev;
        assert(abs(b) * prev + abs(t) * prev == rr * prev) by (nonlinear_arith)
            requires rr == abs(t) + abs(b);
        assert(abs(xc * b + yc * t) <= rr * prev);
        assert(nv[c] == xc * b + yc * t);
        assert(xc * b + yc * t == b * xc + t * yc) by (nonlinear_arith);
    }
    assert forall|c: int| 0 <= c < 3 implies i64::MIN <= #[trigger] vscale(x, b)[c] <= i64::MAX
        && i64::MIN <= vscale(y, t)[c] <= i64::MAX && i64::MIN <= nv[c] <= i64::MAX by {
        assert(nv[c] == x[c] * b + y[c] * t);
    }
    assert forall|c: int| 0 <= c < 3 implies i64::MIN <= #[trigger] vscale(y, t)[c] <= i64::MAX by {
        assert(nv[c] == x[c] * b + y[c] * t);
    }
}

/// A Bezier curve in space, given by its control points in order; its degree
/// is one less than their number.
pub struct BezierCurve {
    pub p: Vec<Point<3>>,
}

impl BezierCurve {
    /// The curve value at the parameter `t / w`, given as the homogeneous
    /// point `(t, w)`, computed as the sum of the control points weighted by
    /// the Bernstein basis. It comes back in homogeneous form `(X, Y, Z, w^n)`.
    pub fn evaluate_direct(&self, xi: &Point<2>) -> (r: Point<4>)
        requires
            self.p@.len() <= 21,
            evaluable(self.p@, xi@[0], xi@[1]),
        ensures
            r@ == curve_direct(self.p@, xi@[0], xi@[1]),
    {
        let n = self.p.len() - 1;
        let t = xi.x();
        let w = xi.y();
        let ghost pts = self.p@;
        let ghost b = w - t;
        let ghost rr = reach(t as int, w as int);
        let ghost l = (i64::MAX as int) / pow(rr, n as nat);
        proof {
            lemma_control_bound(pts, t as int, w as int, l);
            lemma_binomial_theorem(n as nat, abs(t as int) as int, abs(b) as int);
        }
        let mut x: i64 = 0;
        let mut y: i64 = 0;
        let mut z: i64 = 0;
        let mut j: usize = 0;
        while j <= n
            invariant
                n + 1 == pts.len(),
                n <= 20,
                pts == self.p@,
                evaluable(pts, t as int, w as int),
                t == xi@[0],
                w == xi@[1],
                b == w - t,
                rr == reach(t as int, w as int),
                rr == abs(t as int) + abs(b),
                l >= 0,
                l * pow(rr, n as nat) <= i64::MAX,
                basis_sum(n as nat, abs(t as int) as int, abs(b) as int, (n + 1) as nat) == pow(rr, n as nat),
                forall|jj: int, c: int| 0 <= jj < pts.len() && 0 <= c < 3 ==> abs(#[trigger] pts[jj]@[c]) <= l,
                j <= n + 1,
                x == weighted_sum(coords(pts, 0), n as nat, t as int, b, j as nat),
                y == weighted_sum(coords(pts, 1), n as nat, t as int, b, j as nat),
                z == weighted_sum(coords(pts, 2), n as nat, t as int, b, j as nat),
            decreases n + 1 - j,
        {
            let bern = Bernstein::create(n as u32, j as u32).unwrap();
            let v = bern.evaluate(xi).x();
            let q = self.p[j];
            proof {
                lemma_direct_step(coords(pts, 0), n as nat, t as int, b, j as nat, l, rr);
                lemma_direct_step(coords(pts, 1), n as nat, t as int, b, j as nat, l, rr);
                lemma_direct_step(coords(pts, 2), n as nat, t as int, b, j as nat, l, rr);
            }
            x = x + v * q.x();
            y = y + v * q.y();
            z = z + v * q.z();
            j = j + 1;
        }
        proof {
            lemma_pow_within(w as int, rr, n as nat, n as nat);
        }
        let wn = power(w, n);
        let mut r = Point::<4>::origin();
        r.set_value(0, x);
        r.set_value(1, y);
        r.set_value(2, z);
        r.set_value(3, wn);
        assert(r@ =~= curve_direct(self.p@, xi@[0], xi@[1]));
        r
    }

    /// The curve value at the parameter `t / w`, given as the homogeneous
    /// point `(t, w)`, computed by repeated linear interpolation of the
    /// control points (De Casteljau). It comes back in homogeneous form
    /// `(X, Y, Z, w^n)`.
    pub fn evaluate_de_casteljau(&self, xi: &Point<2>) -> (r: Point<4>)
        requires
            evaluable(self.p@, xi@[0], xi@[1]),
        ensures
            r@ == curve_de_casteljau(self.p@, xi@[0], xi@[1]),
    {
        let n = self.p.len() - 1;
        let t = xi.x();
        let w = xi.y();
        let b = w - t;
        let ghost pts = self.p@;
        let ghost rr = reach(t as int, w as int);
        let ghost l = (i64::MAX as int) / pow(rr, n as nat);
        proof {
            lemma_control_bound(pts, t as int, w as int, l);
            assert(pow(rr, 0) == 1) by {
                reveal(pow);
            }
        }
        let mut q: Vec<Point<3>> = Vec::new();
        let mut i: usize = 0;
        while i <= n
            invariant
                n + 1 == pts.len(),
                n + 1 <= usize::MAX,
                pts == self.p@,
                l >= 0,
                forall|jj: int, c: int| 0 <= jj < pts.len() && 0 <= c < 3 ==> abs(#[trigger] pts[jj]@[c]) <= l,
                pow(rr, 0) == 1,
                i <= n + 1,
                q@.len() == i,
                forall|j: int| 0 <= j < i ==> stage_holds(#[trigger] q@[j]@, pts, j, 0, t as int, b as int, l * pow(rr, 0)),
            decreases n + 1 - i,
        {
            let pi = self.p[i];
            proof {
                assert forall|c: int| 0 <= c < 3 implies #[trigger] pi@[c] == de_casteljau(coords(pts, c).subrange(i as int, i + 1), t as int, b as int)
                    && abs(pi@[c]) <= l * pow(rr, 0) by {
                    assert(pts[i as int]@[c] == pi@[c]);
                }
            }
            q.push(pi);
            i = i + 1;
        }
        let mut k: usize = 1;
        while k <= n
            invariant
                n + 1 == pts.len(),
                n + 1 <= usize::MAX,
                pts == self.p@,
                evaluable(pts, t as int, w as int),
                rr == reach(t as int, w as int),
                rr == abs(t as int) + abs(b as int),
                b == w - t,
                rr >= 1,
                l >= 0,
                l * pow(rr, n as nat) <= i64::MAX,
                1 <= k <= n + 1,
                q@.len() == n + 1,
                forall|j: int| 0 <= j <= n + 1 - k ==> stage_holds(#[trigger] q@[j]@, pts, j, k - 1, t as int, b as int, l * pow(rr, (k - 1) as nat)),
            decreases n + 1 - k,
        {
            proof {
                vstd::arithmetic::power::lemma_pow_increases(rr as nat, k as nat, n as nat);
                vstd::arithmetic::power::lemma_pow_positive(rr, k as nat);
                assert(l * pow(rr, k as nat) <= l * pow(rr, n as nat)) by (nonlinear_arith)
                    requires l >= 0, pow(rr, k as nat) <= pow(rr, n as nat);
            }
            let mut i: usize = 0;
            while i <= n - k
                invariant
                    n + 1 == pts.len(),
                    pts == self.p@,
                    rr == abs(t as int) + abs(b as int),
                    rr >= 1,
                    l >= 0,
                    l * pow(rr, k as nat) <= i64::MAX,
                    1 <= k <= n,
                    i <= n - k + 1,
                    q@.len() == n + 1,
                    forall|j: int| 0 <= j < i ==> stage_holds(#[trigger] q@[j]@, pts, j, k as int, t as int, b as int, l * pow(rr, k as nat)),
                    forall|j: int| i <= j <= n + 1 - k ==> stage_holds(#[trigger] q@[j]@, pts, j, k - 1, t as int, b as int, l * pow(rr, (k - 1) as nat)),
                decreases n - k + 1 - i,
            {
                let x = q[i];
                let y = q[i + 1];
                proof {
                    lemma_interpolation_step(x@, y@, pts, i as int, k as nat, t as int, b as int, l, rr);
                }
                let v = x.mul(b).add(y.mul(t));
                q.set(i, v);
                i = i + 1;
            }
            k = k + 1;
        }
        let v = q[0];
        proof {
            lemma_pow_within(w as int, rr, n as nat, n as nat);
            vstd::arithmetic::power::lemma_pow_positive(rr, n as nat);
            assert forall|c: int| 0 <= c < 3 implies #[trigger] v@[c] == de_casteljau(coords(pts, c), t as int, b as int) by {
                assert(coords(pts, c).subrange(0, n + 1) =~= coords(pts, c));
            }
        }
        let wn = power(w, n);
        let mut r = Point::<4>::origin();
        r.set_value(0, v.x());
        r.set_value(1, v.y());
        r.set_value(2, v.z());
        r.set_value(3, wn);
        assert(r@ =~= curve_de_casteljau(self.p@, xi@[0], xi@[1]));
        r
    }
}

/// One term of the closed-form sum stays in range, and so does the sum so far.
proof fn lemma_direct_step(s: Seq<int>, n: nat, t: int, b: int, j: nat, l: int, rr: int)
    requires
        s.len() == n + 1,
        j <= n,
        rr == abs(t) + abs(b),
        l >= 0,
        l * pow(rr, n) <= i64::MAX,
        basis_sum(n, abs(t) as int, abs(b) as int, n + 1) == pow(rr, n),
        forall|jj: int| 0 <= jj < s.len() ==> abs(#[trigger] s[jj]) <= l,
    ensures
        i64::MIN <= basis(n, j, t, b) * s[j as int] <= i64::MAX,
        i64::MIN <= weighted_sum(s, n, t, b, j + 1) <= i64::MAX,
        weighted_sum(s, n, t, b, j + 1) == weighted_sum(s, n, t, b, j) + basis(n, j, t, b) * s[j as int],
{
    let rn = pow(rr, n);
    lemma_basis_bounded(n, j, t, b);
    lemma_weighted_sum_bounded(s, n, t, b, j + 1, l);
    lemma_basis_sum_monotone(n, abs(t) as int, abs(b) as int, j + 1, n + 1);
    let bs = basis_sum(n, abs(t) as int, abs(b) as int, j + 1);
    let v = basis(n, j, t, b);
    let sj = s[j as int];
    assert(abs(v * sj) <= l * rn) by (nonlinear_arith)
        requires abs(v) <= rn, abs(sj) <= l, l >= 0;
    assert(l * bs <= l * rn) by (nonlinear_arith)
        requires bs <= rn, l >= 0;
}


impl BezierCurve {
    /// The curve value at `xi`, by the closed-form sum.
    pub fn evaluate(&self, xi: &Point<2>) -> (r: Point<4>)
        requires
            self.p@.len() <= 21,
            evaluable(self.p@, xi@[0], xi@[1]),
        ensures
            r@ == curve_direct(self.p@, xi@[0], xi@[1]),
    {
        self.evaluate_direct(xi)
    }
}

/// The closed-form evaluation and the De Casteljau evaluation of a curve give
/// the same point, for every curve and every parameter.
pub proof fn lemma_curve_evaluators_agree(pts: Seq<Point<3>>, t: int, w: int)
    requires
        pts.len() >= 1,
    ensures
        curve_direct(pts, t, w) == curve_de_casteljau(pts, t, w),
{
    lemma_evaluators_agree(coords(pts, 0), t, w - t);
    lemma_evaluators_agree(coords(pts, 1), t, w - t);
    lemma_evaluators_agree(coords(pts, 2), t, w - t);
}

/// A curve of degree one is the straight blend `(1 - xi) * P0 + xi * P1`:
/// at `xi = t / w` both evaluations give `(w - t) * P0 + t * P1` over the weight `w`.
pub proof fn lemma_linear_curve(p0: Point<3>, p1: Point<3>, t: int, w: int)
    ensures
        curve_de_casteljau(seq![p0, p1], t, w) == vsum(vscale(p0@, w - t), vscale(p1@, t)).push(w),
        curve_direct(seq![p0, p1], t, w) == vsum(vscale(p0@, w - t), vscale(p1@, t)).push(w),
{
    let pts = seq![p0, p1];
    let b = w - t;
    lemma_pow1(w);
    lemma_pow0(t);
    lemma_pow0(b);
    lemma_pow1(t);
    lemma_pow1(b);
    assert forall|c: int| 0 <= c < 3 implies #[trigger] de_casteljau(coords(pts, c), t, b) == p0@[c] * b + p1@[c] * t by {
        let s = coords(pts, c);
        assert(s.drop_last() =~= seq![p0@[c]]);
        assert(s.drop_first() =~= seq![p1@[c]]);
        assert(de_casteljau(seq![p0@[c]], t, b) == p0@[c]);
        assert(de_casteljau(seq![p1@[c]], t, b) == p1@[c]);
        assert(b * p0@[c] == p0@[c] * b && t * p1@[c] == p1@[c] * t) by (nonlinear_arith);
    }
    lemma_curve_evaluators_agree(pts, t, w);
    assert(curve_de_casteljau(pts, t, w) =~= vsum(vscale(p0@, w - t), vscale(p1@, t)).push(w));
}

/// A curve with a single control point is constant: every parameter gives
/// that point, with weight one.
pub proof fn lemma_constant_curve(p: Point<3>, t: int, w: int)
    ensures
        curve_de_casteljau(seq![p], t, w) == p@.push(1),
        curve_direct(seq![p], t, w) == p@.push(1),
{
    let pts = seq![p];
    assert(pow(w, 0) == 1) by {
        reveal(pow);
    }
    assert forall|c: int| 0 <= c < 3 implies #[trigger] de_casteljau(coords(pts, c), t, w - t) == p@[c] by {
        assert(coords(pts, c)[0] == p@[c]);
    }
    lemma_curve_evaluators_agree(pts, t, w);
    assert(curve_de_casteljau(pts, t, w) =~= p@.push(1));
}

/// For every parameter `xi = t / w` in `[0, 1]` the Bernstein values are
/// nonnegative and add up to one: each term has the sign of `w^n`, and the
/// terms add up to `w^n`.
pub proof fn lemma_partition_of_unity(n: nat, i: nat, t: int, w: int)
    requires
        w != 0,
        0 <= t * w <= w * w,
    ensures
        basis(n, i, t, w - t) * pow(w, n) >= 0,
        basis_sum(n, t, w - t, n + 1) == pow(w, n),
{
    lemma_binomial_theorem(n, t, w - t);
    if w > 0 {
        assert(0 <= t <= w) by (nonlinear_arith)
            requires w > 0, 0 <= t * w <= w * w;
        lemma_basis_nonneg(n, i, t, w - t);
        lemma_pow_nonneg(w, n);
        let v = basis(n, i, t, w - t);
        let p = pow(w, n);
        assert(v * p >= 0) by (nonlinear_arith)
            requires v >= 0, p >= 0;
    } else {
        assert(w <= t <= 0) by (nonlinear_arith)
            requires w < 0, 0 <= t * w <= w * w;
        lemma_basis_nonneg(n, i, -t, t - w);
        lemma_pow_nonneg(-w, n);
        lemma_basis_negated(n, i, t, w - t);
        lemma_pow_distributes(-1, -w, n);
        assert(-1 * -w == w);
        let s = pow(-1, n);
        let v = basis(n, i, -t, t - w);
        let p = pow(-w, n);
        lemma_pow_distributes(-1, -1, n);
        lemma1_pow(n);
        assert(-1 * -1 == 1);
        assert((s * v) * (s * p) >= 0) by (nonlinear_arith)
            requires s * s == 1, v >= 0, p >= 0;
    }
}

} // verus!
