use gouache::geom::isqrt;
use gouache::{Point, Ratio};

fn pt(x: i32, y: i32) -> Point {
    Point::new(x, y)
}

#[test]
fn dot_and_cross_products() {
    assert_eq!(Point::dot(pt(1, 2), pt(3, 4)), 11);
    assert_eq!(Point::cross(pt(1, 2), pt(3, 4)), -2);
    assert_eq!(Point::cross(pt(3, 4), pt(1, 2)), 2);
    assert_eq!(Point::dot(pt(5, 0), pt(0, 7)), 0);
    assert_eq!(Point::cross(pt(5, 0), pt(0, 7)), 35);
    let low = pt(i32::MIN, i32::MIN);
    assert_eq!(Point::dot(low, low), 1 << 63);
    assert_eq!(Point::cross(low, pt(i32::MAX, i32::MIN)), (1i128 << 62) + (i32::MAX as i128) * (1i128 << 31));
}

#[test]
fn lengths_are_rounded_down() {
    assert_eq!(pt(3, 4).length(), 5);
    assert_eq!(pt(-3, 4).length(), 5);
    assert_eq!(pt(1, 1).length(), 1);
    assert_eq!(pt(0, 0).length(), 0);
    assert_eq!(pt(10, 10).length(), 14);
    assert_eq!(pt(i32::MIN, i32::MIN).length(), isqrt(1 << 63));
    assert_eq!(pt(i32::MIN, i32::MIN).length(), 3037000499);
}

#[test]
fn distances_are_rounded_down() {
    assert_eq!(pt(1, 1).distance(pt(4, 5)), 5);
    assert_eq!(pt(4, 5).distance(pt(1, 1)), 5);
    assert_eq!(pt(7, 7).distance(pt(7, 7)), 0);
    let far = pt(i32::MIN, i32::MIN).distance(pt(i32::MAX, i32::MAX)) as u128;
    let square = 2 * (u32::MAX as u128) * (u32::MAX as u128);
    assert!(far * far <= square && square < (far + 1) * (far + 1));
}

#[test]
fn a_normalized_vector_is_65536_long() {
    assert_eq!(pt(3, 4).normalized(), pt(39321, 52428));
    assert_eq!(pt(-3, 0).normalized(), pt(-65536, 0));
    assert_eq!(pt(0, 1).normalized(), pt(0, 65536));
    assert_eq!(pt(1, 1).normalized(), pt(46341, 46341));
    assert_eq!(pt(-1, 1).normalized(), pt(-46341, 46341));
    // 65536 / sqrt(2) is 46340.95: a short vector is rounded up by less
    // than one, a long one is rounded down.
    assert_eq!(pt(i32::MIN, i32::MIN).normalized(), pt(-46340, -46340));
    assert_eq!(pt(i32::MAX, 1).normalized(), pt(65536, 0));
}

#[test]
fn points_are_interpolated_by_coordinate() {
    let t = Ratio { num: 1, den: 4 };
    assert_eq!(Point::lerp(t, pt(0, 100), pt(100, 0)), pt(25, 75));
    assert_eq!(Point::lerp(Ratio { num: 0, den: 5 }, pt(3, 4), pt(9, 9)), pt(3, 4));
    assert_eq!(Point::lerp(Ratio { num: 5, den: 5 }, pt(3, 4), pt(9, 9)), pt(9, 9));
}

#[test]
fn a_vector_is_a_point() {
    let v: gouache::Vec2 = gouache::Vec2::new(3, 4);
    assert_eq!(v, pt(3, 4));
    assert_eq!(v.length(), 5);
}
