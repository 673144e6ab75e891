use isogeometric_analysis::bezier::{factorial, Bernstein, BezierCurve};
use isogeometric_analysis::point::Point;

#[test]
fn bernstein_index_above_degree_is_absent() {
    assert!(Bernstein::create(3, 5).is_none());
    assert!(Bernstein::create(3, 4).is_none());
    assert!(Bernstein::create(3, 3).is_some());
    assert!(Bernstein::create(0, 0).is_some());
}

#[test]
fn bernstein_value() {
    // B(3, 1)(1/2) = 3 * (1/2) * (1/2)^2 = 3/8
    let b = Bernstein::create(3, 1).unwrap();
    assert_eq!(b.evaluate(&Point::point2d(1, 2)), Point::point2d(3, 8));
    // B(4, 2)(1/3) = 6 * (1/3)^2 * (2/3)^2 = 24/81
    let b = Bernstein::create(4, 2).unwrap();
    assert_eq!(b.evaluate(&Point::point2d(1, 3)), Point::point2d(24, 81));
}

#[test]
fn bernstein_values_sum_to_one() {
    for n in 0..8u32 {
        let xi = Point::point2d(2, 5);
        let mut sum = 0i64;
        let mut weight = 0i64;
        for i in 0..=n {
            let v = Bernstein::create(n, i).unwrap().evaluate(&xi);
            assert!(v.x() >= 0);
            sum += v.x();
            weight = v.y();
        }
        assert_eq!(sum, weight);
        assert_eq!(weight, 5i64.pow(n));
    }
}

#[test]
fn bernstein_outside_unit_interval() {
    // B(2, 1)(2) = 2 * 2 * (1 - 2) = -4
    let b = Bernstein::create(2, 1).unwrap();
    assert_eq!(b.evaluate(&Point::point2d(2, 1)), Point::point2d(-4, 1));
}

#[test]
fn factorial_values() {
    assert_eq!(factorial(0), 1);
    assert_eq!(factorial(5), 120);
    assert_eq!(factorial(20), 2432902008176640000);
}

#[test]
fn linear_curve_is_a_blend() {
    let c = BezierCurve { p: vec![Point::point3d(0, 0, 0), Point::point3d(4, 8, 12)] };
    let xi = Point::point2d(1, 4);
    let d = c.evaluate_direct(&xi);
    let q = c.evaluate_de_casteljau(&xi);
    assert_eq!(d.value(0), 4);
    assert_eq!(d.value(1), 8);
    assert_eq!(d.value(2), 12);
    assert_eq!(d.value(3), 4);
    assert_eq!(d, q);
    assert_eq!(d.to_cartesian::<3>(), Point::point3d(1, 2, 3));
}

#[test]
fn linear_curve_at_its_ends() {
    let p0 = Point::point3d(-3, 5, 7);
    let p1 = Point::point3d(9, -1, 2);
    let c = BezierCurve { p: vec![p0, p1] };
    assert_eq!(c.evaluate_de_casteljau(&Point::point2d(0, 1)).to_cartesian::<3>(), p0);
    assert_eq!(c.evaluate_de_casteljau(&Point::point2d(1, 1)).to_cartesian::<3>(), p1);
    assert_eq!(c.evaluate_direct(&Point::point2d(0, 1)).to_cartesian::<3>(), p0);
    assert_eq!(c.evaluate_direct(&Point::point2d(1, 1)).to_cartesian::<3>(), p1);
}

#[test]
fn linear_curve_beyond_its_ends() {
    // xi = 2: (1 - 2) * P0 + 2 * P1
    let c = BezierCurve { p: vec![Point::point3d(1, 1, 1), Point::point3d(3, 0, -2)] };
    let xi = Point::point2d(2, 1);
    let expected = Point::point3d(5, -1, -5).to_homogeneous::<4>(1);
    assert_eq!(c.evaluate_direct(&xi), expected);
    assert_eq!(c.evaluate_de_casteljau(&xi), expected);
}

#[test]
fn cubic_curve_evaluators_agree() {
    let c = BezierCurve {
        p: vec![
            Point::point3d(0, 0, 0),
            Point::point3d(1, 2, 0),
            Point::point3d(3, 3, 1),
            Point::point3d(4, 0, 2),
        ],
    };
    let xi = Point::point2d(1, 3);
    let d = c.evaluate_direct(&xi);
    let q = c.evaluate_de_casteljau(&xi);
    assert_eq!(d.value(0), 34);
    assert_eq!(d.value(1), 42);
    assert_eq!(d.value(2), 8);
    assert_eq!(d.value(3), 27);
    assert_eq!(d, q);
    assert_eq!(c.evaluate(&xi), d);
}

#[test]
fn degree_ten_curve_evaluators_agree() {
    let mut p = Vec::new();
    for i in 0..11i64 {
        p.push(Point::point3d(i * i - 7, 3 - 2 * i, (i % 3) * 5));
    }
    let c = BezierCurve { p };
    for t in 0..=7 {
        let xi = Point::point2d(t, 7);
        assert_eq!(c.evaluate_direct(&xi), c.evaluate_de_casteljau(&xi));
    }
}

#[test]
fn single_point_curve_is_constant() {
    let p = Point::point3d(5, -6, 7);
    let c = BezierCurve { p: vec![p] };
    for t in -2..5 {
        let xi = Point::point2d(t, 3);
        assert_eq!(c.evaluate_direct(&xi), p.to_homogeneous::<4>(1));
        assert_eq!(c.evaluate_de_casteljau(&xi), p.to_homogeneous::<4>(1));
    }
}

#[test]
fn high_degree_de_casteljau() {
    // 31 equal control points: the curve is that point everywhere.
    let c = BezierCurve { p: vec![Point::point3d(1, -1, 2); 31] };
    let r = c.evaluate_de_casteljau(&Point::point2d(1, 2));
    assert_eq!(r.to_cartesian::<3>(), Point::point3d(1, -1, 2));
    assert_eq!(r.value(3), 1 << 30);
}

#[test]
fn bernstein_value_with_negative_weight() {
    // xi = (-1) / (-2) = 1/2: B(3, 1)(1/2) = -3 / -8 = 3/8
    let b = Bernstein::create(3, 1).unwrap();
    assert_eq!(b.evaluate(&Point::point2d(-1, -2)), Point::point2d(-3, -8));
}

#[test]
fn bernstein_end_values() {
    // At xi = 0 only the first basis polynomial is nonzero, at xi = 1 only the last.
    for i in 0..=4u32 {
        let b = Bernstein::create(4, i).unwrap();
        let at_zero = b.evaluate(&Point::point2d(0, 1));
        let at_one = b.evaluate(&Point::point2d(1, 1));
        assert_eq!(at_zero.x(), if i == 0 { 1 } else { 0 });
        assert_eq!(at_one.x(), if i == 4 { 1 } else { 0 });
    }
}
