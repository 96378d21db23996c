use gouache::{Command, Mat2x2, Path, Point, Wide};

fn wide(x: i64, y: i64) -> Wide {
    Wide { x, y }
}

fn boxed(x0: i32, y0: i32, x1: i32, y1: i32) -> Path {
    Path::build(&[Command::Move(Point::new(x0, y0)), Command::Move(Point::new(x1, y1))])
}

const ID: Mat2x2 = Mat2x2 { a: 65536, b: 0, c: 0, d: 65536 };

#[test]
fn the_quad_is_the_box_widened_by_half_a_pixel() {
    let path = boxed(0, 0, 100, 50);
    let quad = path.get_quad(Point::new(10, 20), ID, 64);
    assert_eq!(quad.vertices, [wide(-22, -12), wide(142, -12), wide(142, 102), wide(-22, 102)]);
    // Half a pixel is 32 of 100 units wide and 32 of 50 units high: 0.32 and
    // 0.64 of the box, which are 20971.52 and 41943.04 65536ths.
    assert_eq!(quad.uv, [wide(-20972, -41943), wide(86508, -41943), wide(86508, 107479), wide(-20972, 107479)]);
}

#[test]
fn the_quad_turns_with_the_map() {
    let path = boxed(0, 0, 100, 50);
    let quarter = Mat2x2 { a: 0, b: -65536, c: 65536, d: 0 };
    let quad = path.get_quad(Point::new(10, 20), quarter, 64);
    assert_eq!(quad.vertices, [wide(42, -12), wide(42, 152), wide(-72, 152), wide(-72, -12)]);
    assert_eq!(quad.uv, [wide(-20972, -41943), wide(86508, -41943), wide(86508, 107479), wide(-20972, 107479)]);
}

#[test]
fn the_quad_grows_with_the_map() {
    let path = boxed(10, 10, 20, 30);
    let double = Mat2x2 { a: 131072, b: 0, c: 0, d: 131072 };
    let quad = path.get_quad(Point::new(0, 0), double, 8);
    // The box goes from (20, 20) to (40, 60); half a pixel is 4 units.
    assert_eq!(quad.vertices, [wide(16, 16), wide(44, 16), wide(44, 64), wide(16, 64)]);
    assert_eq!(quad.uv[0], wide(-13107, -6554));
}

#[test]
fn a_sheared_box_is_widened_across_its_sides() {
    let path = boxed(0, 0, 100, 100);
    let shear = Mat2x2 { a: 65536, b: 65536, c: 0, d: 65536 };
    let quad = path.get_quad(Point::new(0, 0), shear, 64);
    // The sides go to (100, 0) and (100, 100), the latter 141.4 long; the
    // area is 10000. The quad reaches beyond the first side by 64 * 142 /
    // 20000 of it, which is 45.4 units and is rounded up to 46, and beyond
    // the second by 64 * 100 / 20000 of it, which is 32.
    assert_eq!(quad.vertices[0], wide(-78, -32));
    assert_eq!(quad.vertices[2], wide(278, 132));
    assert_eq!(quad.uv[0], wide(-29570, -20972));
}

#[test]
fn a_box_without_area_is_not_widened() {
    let path = boxed(5, 5, 5, 55);
    let quad = path.get_quad(Point::new(1, 1), ID, 64);
    assert_eq!(quad.vertices, [wide(6, 6), wide(6, 6), wide(6, 56), wide(6, 56)]);
    assert_eq!(quad.uv, [wide(0, 0), wide(65536, 0), wide(65536, 65536), wide(0, 65536)]);
    let flat = Mat2x2 { a: 65536, b: 0, c: 65536, d: 0 };
    let quad = boxed(0, 0, 10, 10).get_quad(Point::new(0, 0), flat, 64);
    assert_eq!(quad.vertices, [wide(0, 0), wide(10, 10), wide(10, 10), wide(0, 0)]);
}

#[test]
fn images_are_rounded_down() {
    let path = boxed(-3, -3, 0, 0);
    let half = Mat2x2 { a: 32768, b: 0, c: 0, d: 32768 };
    let quad = path.get_quad(Point::new(0, 0), half, 0);
    // The corner (-3, -3) goes to (-2, -2), the sides of 3 to 1.
    assert_eq!(quad.vertices, [wide(-2, -2), wide(-1, -2), wide(-1, -1), wide(-2, -1)]);
}

#[test]
fn the_largest_box_under_the_largest_map_has_a_quad() {
    let path = boxed(i32::MIN, i32::MIN, i32::MAX, i32::MAX);
    let huge = Mat2x2 { a: i32::MAX, b: i32::MIN, c: i32::MIN, d: i32::MAX };
    let quad = path.get_quad(Point::new(i32::MAX, i32::MIN), huge, u16::MAX);
    assert_eq!(quad.uv[1].x - quad.uv[0].x, 65536 + 2 * quad.uv[2].x - 2 * 65536);
}

#[test]
fn the_viewport_goes_from_minus_one_to_one() {
    let one = 1 << 30;
    assert_eq!(gouache::pixel_to_ndc(wide(0, 0), 800, 600), wide(-one, one));
    assert_eq!(gouache::pixel_to_ndc(wide(800, 600), 800, 600), wide(one, -one));
    assert_eq!(gouache::pixel_to_ndc(wide(400, 300), 800, 600), wide(0, 0));
    assert_eq!(gouache::pixel_to_ndc(wide(200, 150), 800, 600), wide(-one / 2, one / 2));
    assert_eq!(gouache::pixel_to_ndc(wide(-400, 900), 800, 600), wide(-2 * one, -2 * one));
    assert_eq!(gouache::pixel_to_ndc(wide(1, 1), 3, 3), wide(-357913941, 357913941));
}

#[test]
fn a_viewport_without_extent_maps_to_zero() {
    assert_eq!(gouache::pixel_to_ndc(wide(5, 5), 0, 0), wide(0, 0));
    assert_eq!(gouache::pixel_to_ndc(wide(5, 5), 10, 0), wide(0, 0));
}

#[test]
fn far_points_are_cut_off() {
    let far = gouache::pixel_to_ndc(wide(i64::MAX, i64::MIN), 1, 1);
    assert_eq!(far, wide(1 << 60, 1 << 60));
}

#[test]
fn a_box_of_ten_pixels_has_a_twentieth_of_itself_as_margin() {
    // 64 units to a pixel.
    let path = boxed(0, 0, 640, 640);
    let quad = path.get_quad(Point::new(0, 0), ID, 64);
    assert_eq!(quad.vertices, [wide(-32, -32), wide(672, -32), wide(672, 672), wide(-32, 672)]);
    // 0.05 is 3276.8 65536ths.
    assert_eq!(quad.uv, [wide(-3277, -3277), wide(68813, -3277), wide(68813, 68813), wide(-3277, 68813)]);
    for v in quad.uv.iter() {
        let u = v.x as f64 / 65536.0;
        assert!((u + 0.05).abs() < 1.0e-5 || (u - 1.05).abs() < 1.0e-5);
    }
}

#[test]
fn the_margin_is_never_short_of_half_a_pixel() {
    // A turn by an eighth with a stretch: the sides go to (640, 640) and
    // (-640, 640); half a pixel along them is 22.6 units in each coordinate.
    let turn = Mat2x2 { a: 65536, b: -65536, c: 65536, d: 65536 };
    let quad = boxed(0, 0, 640, 640).get_quad(Point::new(0, 0), turn, 64);
    // The first corner lies at -(23, 23) - (-23, 23).
    assert_eq!(quad.vertices[0], wide(0, -46));
    assert_eq!(quad.vertices[1], wide(686, 640));
    // On a lattice of 2 units to a pixel the margin is one unit, not none.
    let quad = boxed(0, 0, 20, 20).get_quad(Point::new(0, 0), turn, 2);
    assert_eq!(quad.vertices[0], wide(0, -2));
    assert_eq!(quad.vertices[2], wide(0, 42));
    // On a lattice of one unit to a pixel half a pixel is rounded up to one.
    let quad = boxed(0, 0, 10, 10).get_quad(Point::new(0, 0), ID, 1);
    assert_eq!(quad.vertices, [wide(-1, -1), wide(11, -1), wide(11, 11), wide(-1, 11)]);
}
