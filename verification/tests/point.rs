use ecc::errors::Errors;
use ecc::point::{Curve, Point};
use num_bigint::BigInt;

#[test]
fn test_create_valid_point() {
    let curve = Curve::new(5, 7);
    assert!(curve.new_point(BigInt::from(-1), BigInt::from(-1)).is_ok());
}

#[test]
fn test_create_valid_point_and_check_result() {
    let curve = Curve::new(5, 7);
    let result = curve.new_point(BigInt::from(-1), BigInt::from(-1));
    assert!(result.is_ok());

    let point = result.unwrap();
    assert!(point.eq(&Point::OnCurve(BigInt::from(-1), BigInt::from(-1))));
}

#[test]
fn test_create_valid_point_at_infinity() {
    let curve = Curve::new(5, 7);
    assert!(curve.new_infinity().eq(&Point::Infinity));
}

#[test]
fn test_eq() {
    let curve = Curve::new(5, 7);
    assert!(curve.new_infinity().eq(&Point::Infinity));
    assert!(
        Point::OnCurve(BigInt::from(-1), BigInt::from(-1))
            .eq(&Point::OnCurve(BigInt::from(-1), BigInt::from(-1)))
    );
    assert!(
        !Point::OnCurve(BigInt::from(-1), BigInt::from(-1))
            .eq(&Point::OnCurve(BigInt::from(-1), BigInt::from(1)))
    );
    assert!(!Point::Infinity.eq(&Point::OnCurve(BigInt::from(-1), BigInt::from(1))));
}

#[test]
fn test_add_infinity_to_point() {
    let curve = Curve::new(5, 7);
    let infinity = curve.new_infinity();
    let point = curve.new_point(BigInt::from(-1), BigInt::from(-1)).unwrap();

    let expected = curve.new_point(BigInt::from(-1), BigInt::from(-1)).unwrap();
    assert!(curve.add(&infinity, &point).eq(&expected));
}

#[test]
fn test_add_infinity_to_point_reverse() {
    let curve = Curve::new(5, 7);
    let infinity = curve.new_infinity();
    let point = curve.new_point(BigInt::from(-1), BigInt::from(-1)).unwrap();

    let expected = curve.new_point(BigInt::from(-1), BigInt::from(-1)).unwrap();
    assert!(curve.add(&point, &infinity).eq(&expected));
}

#[test]
fn test_add_vertical_line() {
    // This happens when points have the same x and different y coordinates
    let curve = Curve::new(5, 7);
    let point1 = curve.new_point(BigInt::from(-1), BigInt::from(1)).unwrap();
    let point2 = curve.new_point(BigInt::from(-1), BigInt::from(-1)).unwrap();

    assert!(curve.add(&point1, &point2).eq(&curve.new_infinity()));
}

#[test]
fn test_add_same_point_with_vertical_slope() {
    // This happens when the points are the same and have y == 0
    let curve = Curve::new(0, 0);
    let point1 = curve.new_point(BigInt::from(0), BigInt::from(0)).unwrap();
    let point2 = curve.new_point(BigInt::from(0), BigInt::from(0)).unwrap();

    assert!(point1.eq(&point2));
    assert!(curve.add(&point1, &point2).eq(&curve.new_infinity()));
}

#[test]
fn test_add_same_point() {
    // p(-1,-1) + p(-1,-1) = p(18,77)
    let curve = Curve::new(5, 7);
    let point1 = curve.new_point(BigInt::from(-1), BigInt::from(-1)).unwrap();
    let point2 = curve.new_point(BigInt::from(-1), BigInt::from(-1)).unwrap();

    assert!(point1.eq(&point2));
    let expected = curve.new_point(BigInt::from(18), BigInt::from(77)).unwrap();
    assert!(curve.add(&point1, &point2).eq(&expected));
}

#[test]
fn test_add_points_with_different_x() {
    // p(2,5) + p(-1,-1) = p(3,-7)
    let curve = Curve::new(5, 7);
    let point1 = curve.new_point(BigInt::from(2), BigInt::from(5)).unwrap();
    let point2 = curve.new_point(BigInt::from(-1), BigInt::from(-1)).unwrap();

    assert!(!point1.eq(&point2));
    let expected = curve.new_point(BigInt::from(3), BigInt::from(-7)).unwrap();
    assert!(curve.add(&point1, &point2).eq(&expected));
}

#[test]
fn test_create_invalid_point() {
    // (1,1): 1 != 1 + 5 + 7
    let curve = Curve::new(5, 7);
    let result = curve.new_point(BigInt::from(1), BigInt::from(1));
    assert_eq!(result.err(), Some(Errors::InvalidPoint));
}

#[test]
fn test_add_both_infinity() {
    let curve = Curve::new(5, 7);
    let sum = curve.add(&curve.new_infinity(), &curve.new_infinity());
    assert!(sum.eq(&Point::Infinity));
}

#[test]
fn test_add_inverse_points_large_coordinates() {
    // (18, 77) and (18, -77) are mutual inverses
    let curve = Curve::new(5, 7);
    let p = curve.new_point(BigInt::from(18), BigInt::from(77)).unwrap();
    let q = curve.new_point(BigInt::from(18), BigInt::from(-77)).unwrap();
    assert!(curve.add(&p, &q).eq(&Point::Infinity));
}

#[test]
fn test_duplicate_copies_point() {
    let curve = Curve::new(5, 7);
    let p = curve.new_point(BigInt::from(2), BigInt::from(5)).unwrap();
    assert!(p.duplicate().eq(&p));
    assert!(curve.new_infinity().duplicate().eq(&Point::Infinity));
}
