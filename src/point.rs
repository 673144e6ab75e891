//! Points of fixed dimension with integer coordinates, their arithmetic and
//! their homogeneous and cartesian forms.
use vstd::prelude::*;

verus! {

/// Coordinate-wise sum of two coordinate sequences.
pub open spec fn vsum(u: Seq<int>, v: Seq<int>) -> Seq<int> {
    Seq::new(u.len(), |i: int| u[i] + v[i])
}

/// Coordinate-wise difference of two coordinate sequences.
pub open spec fn vdiff(u: Seq<int>, v: Seq<int>) -> Seq<int> {
    Seq::new(u.len(), |i: int| u[i] - v[i])
}

/// Every coordinate multiplied by `s`.
pub open spec fn vscale(u: Seq<int>, s: int) -> Seq<int> {
    Seq::new(u.len(), |i: int| u[i] * s)
}

/// True when every coordinate lies in the range of `i64`.
pub open spec fn in_range(u: Seq<int>) -> bool {
    forall|i: int| 0 <= i < u.len() ==> i64::MIN <= #[trigger] u[i] <= i64::MAX
}

/// Integer division rounding toward zero, as the machine division does.
pub open spec fn div_toward_zero(a: int, b: int) -> int {
    if a >= 0 { a / b } else { -((-a) / b) }
}

proof fn lemma_div_toward_zero_bounded(a: int, b: int)
    requires
        b != 0,
    ensures
        a >= 0 ==> -a <= a / b <= a,
        a < 0 && b != -1 ==> a <= -((-a) / b) <= (-a) / 2,
{
    if a >= 0 {
        assert(-a <= a / b <= a) by (nonlinear_arith)
            requires a >= 0, b != 0;
    } else if b != -1 {
        if b == 1 {
            assert(-((-a) / b) == a);
            assert(a <= (-a) / 2);
        } else if b >= 2 {
            assert(0 <= (-a) / b <= (-a) / 2) by (nonlinear_arith)
                requires a < 0, b >= 2;
        } else {
            assert((-a) / b == -((-a) / (-b))) by (nonlinear_arith)
                requires a < 0, b <= -2;
            assert(0 <= (-a) / (-b) <= (-a) / 2) by (nonlinear_arith)
                requires a < 0, -b >= 2;
        }
    }
}

/// The homogeneous coordinates of `u` on the plane of weight `w`.
pub open spec fn homogeneous(u: Seq<int>, w: int) -> Seq<int> {
    vscale(u, w).push(w)
}

/// The cartesian coordinates of the homogeneous coordinates `h`: all but the
/// last, each divided by the last.
pub open spec fn cartesian(h: Seq<int>) -> Seq<int> {
    Seq::new((h.len() - 1) as nat, |i: int| div_toward_zero(h[i], h.last()))
}

/// A point of the `N`-dimensional integer lattice.
#[derive(Debug, Clone, Copy)]
pub struct Point<const N: usize> {
    data: [i64; N],
}

/// A point with integer coordinates.
pub type IntPoint<const N: usize> = Point<N>;

impl<const N: usize> View for Point<N> {
    type V = Seq<int>;

    closed spec fn view(&self) -> Seq<int> {
        Seq::new(N as nat, |i: int| self.data@[i] as int)
    }
}

/// A point of dimension `N` has `N` coordinates.
pub broadcast proof fn lemma_point_len<const N: usize>(p: Point<N>)
    ensures
        #[trigger] p@.len() == N,
{
}

impl<const N: usize> Point<N> {
    /// The coordinate at `idx`, zero past the last one.
    pub open spec fn value_at(&self, idx: int) -> int {
        if 0 <= idx < self@.len() { self@[idx] } else { 0 }
    }

    /// The point whose coordinates are all zero.
    pub fn origin() -> (r: Point<N>)
        ensures
            r@ == Seq::new(N as nat, |i: int| 0int),
    {
        let r = Point { data: [0i64; N] };
        assert(r@ =~= Seq::new(N as nat, |i: int| 0int));
        r
    }

    /// The dimension of the space holding this point.
    pub fn dim(&self) -> (r: usize)
        ensures
            r == N,
            r == self@.len(),
    {
        N
    }

    /// Sets every coordinate to zero.
    pub fn reset(&mut self)
        ensures
            final(self)@ == Seq::new(N as nat, |i: int| 0int),
    {
        let mut i: usize = 0;
        while i < N
            invariant
                i <= N,
                forall|j: int| 0 <= j < i ==> self.data@[j] == 0,
            decreases N - i,
        {
            self.data[i] = 0;
            i = i + 1;
        }
        assert(self@ =~= Seq::new(N as nat, |i: int| 0int));
    }

    /// The coordinate at `idx`, or zero when `idx` is past the last one.
    pub fn value(&self, idx: usize) -> (r: i64)
        ensures
            r == self.value_at(idx as int),
    {
        if idx < N {
            self.data[idx]
        } else {
            0
        }
    }

    /// Sets the coordinate at `idx`; an index past the last one changes nothing.
    /// Returns the point, for chained calls.
    pub fn set_value(&mut self, idx: usize, val: i64) -> (r: &mut Self)
        ensures
            idx < N ==> (*r)@ == old(self)@.update(idx as int, val as int),
            idx >= N ==> (*r)@ == old(self)@,
            *final(self) == *final(r),
    {
        if idx < N {
            self.data[idx] = val;
            assert(self@ =~= old(self)@.update(idx as int, val as int));
        }
        self
    }
}


impl<const N: usize> Point<N> {
    /// This point in homogeneous coordinates on the plane of weight `w`:
    /// every coordinate is scaled by `w` and `w` is appended.
    pub fn to_homogeneous<const M: usize>(&self, w: i64) -> (r: Point<M>)
        requires
            M == N + 1,
            in_range(vscale(self@, w as int)),
        ensures
            r@ == homogeneous(self@, w as int),
    {
        let mut res = Point::<M>::origin();
        let mut i: usize = 0;
        while i < N
            invariant
                M == N + 1,
                i <= N,
                in_range(vscale(self@, w as int)),
                res@.len() == M,
                forall|j: int| 0 <= j < i ==> res@[j] == self@[j] * w,
            decreases N - i,
        {
            assert(vscale(self@, w as int)[i as int] == self@[i as int] * w);
            let v = self.data[i] * w;
            res.set_value(i, v);
            i = i + 1;
        }
        res.set_value(N, w);
        assert(res@ =~= homogeneous(self@, w as int));
        res
    }

    /// This point, read in homogeneous coordinates, in cartesian coordinates:
    /// every coordinate but the last is divided by the last, which is dropped.
    pub fn to_cartesian<const M: usize>(&self) -> (r: Point<M>)
        requires
            N == M + 1,
            self@[M as int] != 0,
            self@[M as int] == -1 ==> forall|i: int| 0 <= i < M ==> self@[i] != i64::MIN,
        ensures
            r@ == cartesian(self@),
    {
        let w = self.data[M];
        let mut res = Point::<M>::origin();
        let mut i: usize = 0;
        while i < M
            invariant
                N == M + 1,
                i <= M,
                w == self@[M as int],
                w != 0,
                w == -1 ==> forall|i: int| 0 <= i < M ==> self@[i] != i64::MIN,
                res@.len() == M,
                forall|j: int| 0 <= j < i ==> res@[j] == div_toward_zero(self@[j], w as int),
            decreases M - i,
        {
            let a = self.data[i];
            assert(self@[i as int] == a);
            proof { lemma_div_toward_zero_bounded(a as int, w as int); }
            let v = a / w;
            assert(v == div_toward_zero(a as int, w as int));
            res.set_value(i, v);
            assert(res@[i as int] == div_toward_zero(self@[i as int], w as int));
            i = i + 1;
        }
        assert(res@ =~= cartesian(self@));
        res
    }
}


impl<const N: usize> Point<N> {
    /// The coordinate-wise sum of two points.
    pub fn add(self, other: Self) -> (r: Self)
        requires
            in_range(vsum(self@, other@)),
        ensures
            r@ == vsum(self@, other@),
    {
        let mut data = self.data;
        let mut i: usize = 0;
        while i < N
            invariant
                i <= N,
                in_range(vsum(self@, other@)),
                forall|j: int| 0 <= j < i ==> data@[j] == self.data@[j] + other.data@[j],
                forall|j: int| i <= j < N ==> data@[j] == self.data@[j],
            decreases N - i,
        {
            assert(vsum(self@, other@)[i as int] == self.data@[i as int] + other.data@[i as int]);
            data[i] = data[i] + other.data[i];
            i = i + 1;
        }
        let r = Point { data };
        assert(r@ =~= vsum(self@, other@));
        r
    }

    /// Adds `rhs` to this point, coordinate by coordinate.
    pub fn add_assign(&mut self, rhs: Self)
        requires
            in_range(vsum(old(self)@, rhs@)),
        ensures
            final(self)@ == vsum(old(self)@, rhs@),
    {
        *self = self.add(rhs);
    }

    /// The coordinate-wise difference of two points.
    pub fn sub(self, other: Self) -> (r: Self)
        requires
            in_range(vdiff(self@, other@)),
        ensures
            r@ == vdiff(self@, other@),
    {
        let mut data = self.data;
        let mut i: usize = 0;
        while i < N
            invariant
                i <= N,
                in_range(vdiff(self@, other@)),
                forall|j: int| 0 <= j < i ==> data@[j] == self.data@[j] - other.data@[j],
                forall|j: int| i <= j < N ==> data@[j] == self.data@[j],
            decreases N - i,
        {
            assert(vdiff(self@, other@)[i as int] == self.data@[i as int] - other.data@[i as int]);
            data[i] = data[i] - other.data[i];
            i = i + 1;
        }
        let r = Point { data };
        assert(r@ =~= vdiff(self@, other@));
        r
    }

    /// Subtracts `rhs` from this point, coordinate by coordinate.
    pub fn sub_assign(&mut self, rhs: Self)
        requires
            in_range(vdiff(old(self)@, rhs@)),
        ensures
            final(self)@ == vdiff(old(self)@, rhs@),
    {
        *self = self.sub(rhs);
    }

    /// This point with every coordinate multiplied by `scalar`.
    pub fn mul(self, scalar: i64) -> (r: Self)
        requires
            in_range(vscale(self@, scalar as int)),
        ensures
            r@ == vscale(self@, scalar as int),
    {
        let mut data = self.data;
        let mut i: usize = 0;
        while i < N
            invariant
                i <= N,
                in_range(vscale(self@, scalar as int)),
                forall|j: int| 0 <= j < i ==> data@[j] == self.data@[j] * scalar,
                forall|j: int| i <= j < N ==> data@[j] == self.data@[j],
            decreases N - i,
        {
            assert(vscale(self@, scalar as int)[i as int] == self.data@[i as int] * scalar);
            data[i] = data[i] * scalar;
            i = i + 1;
        }
        let r = Point { data };
        assert(r@ =~= vscale(self@, scalar as int));
        r
    }

    /// Multiplies every coordinate of this point by `rhs`.
    pub fn mul_assign(&mut self, rhs: i64)
        requires
            in_range(vscale(old(self)@, rhs as int)),
        ensures
            final(self)@ == vscale(old(self)@, rhs as int),
    {
        *self = self.mul(rhs);
    }
}

/// Two points with the same coordinates are the same point.
pub proof fn lemma_view_injective<const N: usize>(p: Point<N>, q: Point<N>)
    requires
        p@ == q@,
    ensures
        p == q,
{
    assert forall|i: int| 0 <= i < N implies p.data@[i] == q.data@[i] by {
        assert(p@[i] == q@[i]);
        assert(p@[i] == p.data@[i] as int);
        assert(q@[i] == q.data@[i] as int);
    }
    assert(p.data =~= q.data);
}

impl<const N: usize> vstd::std_specs::ops::AddSpecImpl for Point<N> {
    open spec fn obeys_add_spec() -> bool {
        true
    }

    open spec fn add_req(self, rhs: Self) -> bool {
        in_range(vsum(self@, rhs@))
    }

    open spec fn add_spec(self, rhs: Self) -> Self {
        choose|r: Point<N>| r@ == vsum(self@, rhs@)
    }
}

impl<const N: usize> std::ops::Add for Point<N> {
    type Output = Self;

    fn add(self, other: Self) -> (r: Self)
        ensures
            r@ == vsum(self@, other@),
    {
        let r = Point::<N>::add(self, other);
        proof {
            let c = choose|c: Point<N>| c@ == vsum(self@, other@);
            lemma_view_injective(r, c);
        }
        r
    }
}

impl<const N: usize> vstd::std_specs::ops::SubSpecImpl for Point<N> {
    open spec fn obeys_sub_spec() -> bool {
        true
    }

    open spec fn sub_req(self, rhs: Self) -> bool {
        in_range(vdiff(self@, rhs@))
    }

    open spec fn sub_spec(self, rhs: Self) -> Self {
        choose|r: Point<N>| r@ == vdiff(self@, rhs@)
    }
}

impl<const N: usize> std::ops::Sub for Point<N> {
    type Output = Self;

    fn sub(self, other: Self) -> (r: Self)
        ensures
            r@ == vdiff(self@, other@),
    {
        let r = Point::<N>::sub(self, other);
        proof {
            let c = choose|c: Point<N>| c@ == vdiff(self@, other@);
            lemma_view_injective(r, c);
        }
        r
    }
}

impl<const N: usize> vstd::std_specs::ops::MulSpecImpl<i64> for Point<N> {
    open spec fn obeys_mul_spec() -> bool {
        true
    }

    open spec fn mul_req(self, rhs: i64) -> bool {
        in_range(vscale(self@, rhs as int))
    }

    open spec fn mul_spec(self, rhs: i64) -> Self {
        choose|r: Point<N>| r@ == vscale(self@, rhs as int)
    }
}

impl<const N: usize> std::ops::Mul<i64> for Point<N> {
    type Output = Self;

    fn mul(self, scalar: i64) -> (r: Self)
        ensures
            r@ == vscale(self@, scalar as int),
    {
        let r = Point::<N>::mul(self, scalar);
        proof {
            let c = choose|c: Point<N>| c@ == vscale(self@, scalar as int);
            lemma_view_injective(r, c);
        }
        r
    }
}

impl<const N: usize> PartialEq for Point<N> {
    fn eq(&self, other: &Self) -> (r: bool)
        ensures
            r == (self@ == other@),
    {
        let mut i: usize = 0;
        while i < N
            invariant
                i <= N,
                forall|j: int| 0 <= j < i ==> self.data@[j] == other.data@[j],
            decreases N - i,
        {
            if self.data[i] != other.data[i] {
                assert(self@[i as int] != other@[i as int]);
                return false;
            }
            i = i + 1;
        }
        assert(self@ =~= other@);
        true
    }
}

impl<const N: usize> vstd::std_specs::cmp::PartialEqSpecImpl for Point<N> {
    open spec fn obeys_eq_spec() -> bool {
        true
    }

    open spec fn eq_spec(&self, other: &Self) -> bool {
        self@ == other@
    }
}

impl<const N: usize> Eq for Point<N> {
}


impl Point<1> {
    /// A point on a straight line.
    pub fn point1d(x: i64) -> (r: Point<1>)
        ensures
            r@ == seq![x as int],
    {
        let r = Point { data: [x] };
        assert(r@ =~= seq![x as int]);
        r
    }

    pub fn x(&self) -> (r: i64)
        ensures
            r == self@[0],
    {
        self.data[0]
    }

    pub fn set_x(&mut self, x: i64)
        ensures
            final(self)@ == old(self)@.update(0, x as int),
    {
        self.set_value(0, x);
    }
}

impl Point<2> {
    /// A point of the plane.
    pub fn point2d(x: i64, y: i64) -> (r: Point<2>)
        ensures
            r@ == seq![x as int, y as int],
    {
        let r = Point { data: [x, y] };
        assert(r@ =~= seq![x as int, y as int]);
        r
    }

    pub fn x(&self) -> (r: i64)
        ensures
            r == self@[0],
    {
        self.data[0]
    }

    pub fn set_x(&mut self, x: i64)
        ensures
            final(self)@ == old(self)@.update(0, x as int),
    {
        self.set_value(0, x);
    }

    pub fn y(&self) -> (r: i64)
        ensures
            r == self@[1],
    {
        self.data[1]
    }

    pub fn set_y(&mut self, y: i64)
        ensures
            final(self)@ == old(self)@.update(1, y as int),
    {
        self.set_value(1, y);
    }
}

impl Point<3> {
    /// A point of space.
    pub fn point3d(x: i64, y: i64, z: i64) -> (r: Point<3>)
        ensures
            r@ == seq![x as int, y as int, z as int],
    {
        let r = Point { data: [x, y, z] };
        assert(r@ =~= seq![x as int, y as int, z as int]);
        r
    }

    pub fn x(&self) -> (r: i64)
        ensures
            r == self@[0],
    {
        self.data[0]
    }

    pub fn set_x(&mut self, x: i64)
        ensures
            final(self)@ == old(self)@.update(0, x as int),
    {
        self.set_value(0, x);
    }

    pub fn y(&self) -> (r: i64)
        ensures
            r == self@[1],
    {
        self.data[1]
    }

    pub fn set_y(&mut self, y: i64)
        ensures
            final(self)@ == old(self)@.update(1, y as int),
    {
        self.set_value(1, y);
    }

    pub fn z(&self) -> (r: i64)
        ensures
            r == self@[2],
    {
        self.data[2]
    }

    pub fn set_z(&mut self, z: i64)
        ensures
            final(self)@ == old(self)@.update(2, z as int),
    {
        self.set_value(2, z);
    }
}

/// Point addition is commutative.
pub proof fn lemma_add_commutative<const N: usize>(a: Point<N>, b: Point<N>)
    ensures
        vsum(a@, b@) == vsum(b@, a@),
{
    lemma_point_len(a);
    lemma_point_len(b);
    assert(vsum(a@, b@) =~= vsum(b@, a@));
}

/// Point addition is associative.
pub proof fn lemma_add_associative<const N: usize>(a: Point<N>, b: Point<N>, c: Point<N>)
    ensures
        vsum(vsum(a@, b@), c@) == vsum(a@, vsum(b@, c@)),
{
    lemma_point_len(a);
    lemma_point_len(b);
    lemma_point_len(c);
    assert(vsum(vsum(a@, b@), c@) =~= vsum(a@, vsum(b@, c@)));
}

/// Multiplication by a scalar distributes over point addition.
pub proof fn lemma_mul_distributes<const N: usize>(a: Point<N>, b: Point<N>, s: int)
    ensures
        vscale(vsum(a@, b@), s) == vsum(vscale(a@, s), vscale(b@, s)),
{
    lemma_point_len(a);
    lemma_point_len(b);
    assert forall|i: int| 0 <= i < N implies #[trigger] vscale(vsum(a@, b@), s)[i] == vsum(
        vscale(a@, s),
        vscale(b@, s),
    )[i] by {
        assert((a@[i] + b@[i]) * s == a@[i] * s + b@[i] * s) by (nonlinear_arith);
    }
    assert(vscale(vsum(a@, b@), s) =~= vsum(vscale(a@, s), vscale(b@, s)));
}

/// Converting to homogeneous coordinates with a nonzero weight and back to
/// cartesian coordinates gives the point back.
pub proof fn lemma_homogeneous_round_trip<const N: usize>(p: Point<N>, w: int)
    requires
        w != 0,
    ensures
        cartesian(homogeneous(p@, w)) == p@,
{
    lemma_point_len(p);
    assert forall|i: int| 0 <= i < N implies #[trigger] div_toward_zero(
        vscale(p@, w).push(w)[i],
        w,
    ) == p@[i] by {
        let v = p@[i];
        assert(vscale(p@, w).push(w)[i] == v * w);
        assert((v * w) / w == v) by (nonlinear_arith)
            requires w != 0;
        assert((-(v * w)) / w == -v) by (nonlinear_arith)
            requires w != 0;
        assert(-(v * w) == (-v) * w) by (nonlinear_arith);
    }
    assert(cartesian(homogeneous(p@, w)) =~= p@);
}


} // verus!
