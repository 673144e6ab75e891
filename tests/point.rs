use isogeometric_analysis::point::{IntPoint, Point};

#[test]
fn test_eq() {
    assert_eq!(IntPoint::<2>::point2d(6, 5), IntPoint::<2>::point2d(6, 5));
    assert_eq!(Point::point2d(56, 12), Point::point2d(56, 12));
    assert_eq!(Point::point2d(1, 2).to_homogeneous::<3>(11), Point::point3d(11, 22, 11));
    assert_eq!(Point::point2d(1, 2).to_homogeneous::<3>(11).to_cartesian::<2>(), Point::point2d(1, 2));
}

#[test]
fn points_with_different_coordinates_differ() {
    assert_ne!(Point::point2d(6, 5), Point::point2d(5, 6));
    assert_ne!(Point::point3d(1, 2, 3), Point::point3d(1, 2, 4));
}

#[test]
fn homogeneous_round_trip_with_negative_weight() {
    let p = Point::point3d(-4, 0, 9);
    let h = p.to_homogeneous::<4>(-3);
    assert_eq!(h.value(0), 12);
    assert_eq!(h.value(1), 0);
    assert_eq!(h.value(2), -27);
    assert_eq!(h.value(3), -3);
    assert_eq!(h.to_cartesian::<3>(), p);
}

#[test]
fn cartesian_division_rounds_toward_zero() {
    let c = Point::point3d(7, -7, 2).to_cartesian::<2>();
    assert_eq!(c, Point::point2d(3, -3));
    let d = Point::point3d(7, -7, -2).to_cartesian::<2>();
    assert_eq!(d, Point::point2d(-3, 3));
}

#[test]
fn value_past_the_last_coordinate_is_zero() {
    let p = Point::point2d(4, 9);
    assert_eq!(p.value(0), 4);
    assert_eq!(p.value(1), 9);
    assert_eq!(p.value(2), 0);
    assert_eq!(p.value(100), 0);
}

#[test]
fn set_value_past_the_last_coordinate_changes_nothing() {
    let mut p = Point::point3d(1, 2, 3);
    p.set_value(3, 40);
    assert_eq!(p, Point::point3d(1, 2, 3));
    p.set_value(1, 40);
    assert_eq!(p, Point::point3d(1, 40, 3));
}

#[test]
fn origin_reset_and_dim() {
    let o = Point::<4>::origin();
    assert_eq!(o.dim(), 4);
    for i in 0..4 {
        assert_eq!(o.value(i), 0);
    }
    let mut p = Point::point3d(5, -6, 7);
    assert_eq!(p.dim(), 3);
    p.reset();
    assert_eq!(p, Point::<3>::origin());
}

#[test]
fn named_accessors() {
    let mut a = Point::point1d(3);
    assert_eq!(a.x(), 3);
    a.set_x(-8);
    assert_eq!(a.x(), -8);

    let mut b = Point::point2d(1, 2);
    assert_eq!((b.x(), b.y()), (1, 2));
    b.set_x(10);
    b.set_y(20);
    assert_eq!(b, Point::point2d(10, 20));

    let mut c = Point::point3d(1, 2, 3);
    assert_eq!((c.x(), c.y(), c.z()), (1, 2, 3));
    c.set_x(4);
    c.set_y(5);
    c.set_z(6);
    assert_eq!(c, Point::point3d(4, 5, 6));
}

#[test]
fn arithmetic() {
    let a = Point::point3d(1, -2, 3);
    let b = Point::point3d(10, 20, -30);
    assert_eq!(a.add(b), Point::point3d(11, 18, -27));
    assert_eq!(a.sub(b), Point::point3d(-9, -22, 33));
    assert_eq!(a.mul(-4), Point::point3d(-4, 8, -12));

    let mut c = a;
    c.add_assign(b);
    assert_eq!(c, Point::point3d(11, 18, -27));
    c.sub_assign(b);
    assert_eq!(c, a);
    c.mul_assign(3);
    assert_eq!(c, Point::point3d(3, -6, 9));
}

#[test]
fn addition_commutes_and_associates() {
    let a = Point::point3d(1, -2, 3);
    let b = Point::point3d(7, 5, -11);
    let c = Point::point3d(-4, 13, 2);
    assert_eq!(a.add(b), b.add(a));
    assert_eq!(a.add(b).add(c), a.add(b.add(c)));
}

#[test]
fn scaling_distributes_over_addition() {
    let a = Point::point2d(3, -5);
    let b = Point::point2d(-8, 2);
    assert_eq!(a.add(b).mul(7), a.mul(7).add(b.mul(7)));
}

#[test]
fn operators_match_the_named_methods() {
    let a = Point::point3d(1, -2, 3);
    let b = Point::point3d(10, 20, -30);
    assert_eq!(a + b, Point::point3d(11, 18, -27));
    assert_eq!(a - b, Point::point3d(-9, -22, 33));
    assert_eq!(a * 5, Point::point3d(5, -10, 15));
    assert_eq!(a + b, b + a);
}

#[test]
fn set_value_chains() {
    let mut p = Point::<3>::origin();
    p.set_value(0, 4).set_value(2, -1).set_value(7, 9);
    assert_eq!(p, Point::point3d(4, 0, -1));
}
