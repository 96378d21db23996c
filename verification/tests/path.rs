use gouache::curve::{is_monotone, push_monotone, split_at, stationary_point, ratio_cmp_le, rebase};
use gouache::geom::{lerp_coord, mid_coord};
use gouache::path::{bounding_box, monotonize_commands, quantize_coord};
use gouache::{Command, Extent, Path, PathBuilder, Point, Ratio};

fn p(x: i32, y: i32) -> Point {
    Point::new(x, y)
}

/// Decodes a buffer into segments `(start, control, end)` of encoded
/// coordinates; a move sets the start of the next segment.
fn segments(buffer: &[[u16; 4]], first: (u16, u16)) -> Vec<[(u16, u16); 3]> {
    let mut out = Vec::new();
    let mut last = first;
    for t in buffer {
        if t[0] == 0 {
            last = (t[2], t[3]);
        } else {
            out.push([last, (t[0], t[1]), (t[2], t[3])]);
            last = (t[2], t[3]);
        }
    }
    out
}

fn monotone3(a: u16, b: u16, c: u16) -> bool {
    (a <= b && b <= c) || (c <= b && b <= a)
}

#[test]
fn rectangle_path_has_its_box_and_four_segments() {
    let mut builder = PathBuilder::new();
    builder.move_to(0, 0).line_to(10, 0).line_to(10, 10).line_to(0, 10);
    let path = builder.build();
    assert_eq!(path.offset, p(0, 0));
    assert_eq!(path.size, Extent { w: 10, h: 10 });
    assert_eq!(path.buffer.len(), 5);
    assert_eq!(path.buffer[0], [0, 0, 1, 1]);
    assert_eq!(path.buffer[1], [32768, 1, 65534, 1]);
    assert_eq!(path.buffer[2], [65534, 32768, 65534, 65534]);
    assert_eq!(path.buffer[3], [32768, 65534, 1, 65534]);
    assert_eq!(path.buffer[4], [1, 32768, 1, 1]);
    let segs = segments(&path.buffer, (1, 1));
    assert_eq!(segs.len(), 4);
    for s in segs {
        assert!(monotone3(s[0].0, s[1].0, s[2].0));
        assert!(monotone3(s[0].1, s[1].1, s[2].1));
    }
}

#[test]
fn a_curve_that_turns_on_both_axes_gives_three_monotone_pieces() {
    let commands = [Command::Move(p(0, 0)), Command::Quad(p(100, 50), p(20, -30))];
    let pieces = monotonize_commands(&commands);
    assert_eq!(pieces.len(), 4);
    let mut last = p(0, 0);
    for c in pieces.iter().skip(1) {
        match *c {
            Command::Quad(c1, e) => {
                assert!(is_monotone(last.x, c1.x, e.x));
                assert!(is_monotone(last.y, c1.y, e.y));
                last = e;
            }
            Command::Move(_) => panic!("a move among the pieces"),
        }
    }
    assert_eq!(last, p(20, -30));
    let path = Path::build(&commands);
    assert_eq!(path.buffer.len(), 4);
    let first = (path.buffer[0][2], path.buffer[0][3]);
    for s in segments(&path.buffer, first) {
        assert!(monotone3(s[0].0, s[1].0, s[2].0));
        assert!(monotone3(s[0].1, s[1].1, s[2].1));
    }
}

#[test]
fn a_curve_that_turns_on_one_axis_gives_two_pieces() {
    // x goes 0, 10, 0: it turns at t = 1/2, where the curve is at x = 5.
    let mut out = Vec::new();
    push_monotone(&mut out, p(0, 0), p(10, 4), p(0, 8));
    assert_eq!(out, vec![Command::Quad(p(5, 2), p(5, 4)), Command::Quad(p(5, 6), p(0, 8))]);
}

#[test]
fn a_monotone_curve_stays_one_piece() {
    let mut out = Vec::new();
    push_monotone(&mut out, p(0, 0), p(4, 9), p(10, 10));
    assert_eq!(out, vec![Command::Quad(p(4, 9), p(10, 10))]);
}

#[test]
fn monotone_test_is_betweenness() {
    assert!(is_monotone(0, 5, 10));
    assert!(is_monotone(10, 5, 0));
    assert!(is_monotone(3, 3, 3));
    assert!(is_monotone(0, 0, 10));
    assert!(!is_monotone(0, 11, 10));
    assert!(!is_monotone(0, -1, 10));
    assert!(is_monotone(i32::MIN, 0, i32::MAX));
}

#[test]
fn stationary_parameter_is_the_quotient_of_the_differences() {
    // (a - b) / (a - 2b + c) for 0, 10, 0 is 10 / 20.
    let t = stationary_point(0, 10, 0);
    assert_eq!((t.num, t.den), (10, 20));
    // for 0, -3, 9 it is 3 / 15.
    let t = stationary_point(0, -3, 9);
    assert_eq!((t.num, t.den), (3, 15));
    let t = stationary_point(i32::MAX, i32::MIN, i32::MAX);
    assert_eq!((t.num, t.den), (4294967295, 8589934590));
}

#[test]
fn ratios_compare_and_rebase() {
    let a = Ratio { num: 1, den: 4 };
    let b = Ratio { num: 1, den: 2 };
    assert!(ratio_cmp_le(a, b));
    assert!(!ratio_cmp_le(b, a));
    assert!(ratio_cmp_le(a, a));
    // (1/2 - 1/4) / (1 - 1/4) = 1/3
    let t = rebase(a, b);
    assert_eq!((t.num, t.den), (2, 6));
}

#[test]
fn interpolation_rounds_towards_the_first_end() {
    let third = Ratio { num: 1, den: 3 };
    assert_eq!(lerp_coord(0, 10, third), 3);
    assert_eq!(lerp_coord(10, 0, third), 7);
    assert_eq!(lerp_coord(-10, 0, third), -7);
    assert_eq!(lerp_coord(0, -10, third), -3);
    assert_eq!(lerp_coord(5, 5, third), 5);
    assert_eq!(lerp_coord(i32::MIN, i32::MAX, Ratio { num: 1, den: 1 }), i32::MAX);
    assert_eq!(lerp_coord(i32::MAX, i32::MIN, Ratio { num: 0, den: 1 }), i32::MAX);
}

#[test]
fn midpoint_rounds_down() {
    assert_eq!(mid_coord(0, 10), 5);
    assert_eq!(mid_coord(0, 1), 0);
    assert_eq!(mid_coord(-3, 0), -2);
    assert_eq!(mid_coord(-1, -2), -2);
    assert_eq!(mid_coord(i32::MAX, i32::MAX), i32::MAX);
    assert_eq!(mid_coord(i32::MIN, i32::MIN), i32::MIN);
    assert_eq!(Point::midpoint(p(0, 0), p(7, -7)), p(3, -4));
}

#[test]
fn split_without_snap_is_de_casteljau() {
    let half = Ratio { num: 1, den: 2 };
    let s = split_at(p(0, 0), p(8, 16), p(16, 0), half, false, false);
    assert_eq!(s.c1, p(4, 8));
    assert_eq!(s.c2, p(12, 8));
    assert_eq!(s.mid, p(8, 8));
}

#[test]
fn split_with_snap_takes_the_further_control_value() {
    let third = Ratio { num: 1, den: 3 };
    // y: 0, 10, 0 gives inner control values 3 and 7; the snapped point is 7.
    let s = split_at(p(0, 0), p(3, 10), p(6, 0), third, false, true);
    assert_eq!(s.c1, p(1, 3));
    assert_eq!(s.c2, p(4, 7));
    assert_eq!(s.mid, p(2, 7));
}

#[test]
fn encoded_coordinates_span_one_to_65534() {
    assert_eq!(quantize_coord(0, 0, 10), 1);
    assert_eq!(quantize_coord(10, 0, 10), 65534);
    assert_eq!(quantize_coord(5, 0, 10), 32768);
    assert_eq!(quantize_coord(-7, -7, 65533), 1);
    assert_eq!(quantize_coord(-6, -7, 65533), 2);
    assert_eq!(quantize_coord(65526, -7, 65533), 65534);
}

#[test]
fn encoded_coordinates_are_clamped() {
    assert_eq!(quantize_coord(-1, 0, 10), 1);
    assert_eq!(quantize_coord(11, 0, 10), 65534);
    assert_eq!(quantize_coord(i32::MIN, i32::MAX, u32::MAX), 1);
    assert_eq!(quantize_coord(i32::MAX, i32::MIN, u32::MAX), 65534);
}

#[test]
fn a_box_without_extent_encodes_to_one() {
    assert_eq!(quantize_coord(5, 5, 0), 1);
    assert_eq!(quantize_coord(9, 5, 0), 1);
}

#[test]
fn coordinates_on_a_step_come_back_exactly() {
    // A box of 65533 units has one unit for each step.
    let off = -1000;
    let size: u32 = 65533;
    for v in [off, off + 1, off + 777, off + 32766, off + 65532, off + 65533] {
        let q = quantize_coord(v, off, size) as i64;
        let decoded = off as i64 + (q - 1) * size as i64 / 65533;
        assert_eq!(decoded, v as i64);
    }
    // A box of twice that: every second unit lies on a step.
    let size: u32 = 131066;
    for k in [0i64, 2, 4, 65532, 131066] {
        let q = quantize_coord(k as i32, 0, size) as i64;
        assert_eq!((q - 1) * size as i64, k * 65533);
    }
}

#[test]
fn any_coordinate_comes_back_within_a_step() {
    let off = 17;
    let size: u32 = 1_000_003;
    for k in [0i64, 1, 2, 3, 500_000, 999_999, 1_000_003] {
        let q = quantize_coord((off as i64 + k) as i32, off, size) as i64;
        let err = ((q - 1) * size as i64 - k * 65533).abs();
        assert!(2 * err <= size as i64);
        assert!(65535 * err <= 65533 * size as i64);
    }
}

#[test]
fn bounding_box_of_no_commands_is_at_the_origin() {
    let (offset, size) = bounding_box(&Vec::new());
    assert_eq!(offset, p(0, 0));
    assert_eq!(size, Extent { w: 0, h: 0 });
}

#[test]
fn bounding_box_holds_control_and_end_points() {
    let commands = vec![Command::Move(p(3, 4)), Command::Quad(p(-5, 20), p(7, 6))];
    let (offset, size) = bounding_box(&commands);
    assert_eq!(offset, p(-5, 4));
    assert_eq!(size, Extent { w: 12, h: 16 });
}

#[test]
fn bounding_box_spans_the_whole_lattice() {
    let commands = vec![Command::Quad(p(i32::MIN, i32::MAX), p(i32::MAX, i32::MIN))];
    let (offset, size) = bounding_box(&commands);
    assert_eq!(offset, p(i32::MIN, i32::MIN));
    assert_eq!(size, Extent { w: u32::MAX, h: u32::MAX });
}

#[test]
fn an_empty_path_builds() {
    let path = PathBuilder::new().build();
    assert_eq!(path.offset, p(0, 0));
    assert_eq!(path.size, Extent { w: 0, h: 0 });
    assert!(path.buffer.is_empty());
}

#[test]
fn a_path_without_area_builds() {
    let mut builder = PathBuilder::new();
    builder.move_to(5, 5).line_to(9, 5);
    let path = builder.build();
    assert_eq!(path.offset, p(5, 5));
    assert_eq!(path.size, Extent { w: 4, h: 0 });
    // The move, the line, and the line that closes the subpath.
    assert_eq!(path.buffer.len(), 3);
    assert_eq!(path.buffer[0], [0, 0, 1, 1]);
    assert_eq!(path.buffer[1], [32768, 1, 65534, 1]);
    assert_eq!(path.buffer[2], [32768, 1, 1, 1]);
}

#[test]
fn a_bare_move_is_dropped() {
    let mut builder = PathBuilder::new();
    builder.move_to(1, 1).move_to(5, 5).line_to(6, 5).move_to(100, 100);
    let path = builder.build();
    // Neither (1, 1) nor (100, 100) is part of the path.
    assert_eq!(path.offset, p(5, 5));
    assert_eq!(path.size, Extent { w: 1, h: 0 });
    assert_eq!(path.buffer.len(), 3);
}

#[test]
fn a_subpath_that_ends_where_it_started_gets_no_closing_line() {
    let mut builder = PathBuilder::new();
    builder.move_to(0, 0).line_to(4, 0).line_to(4, 4).line_to(0, 0);
    let path = builder.build();
    assert_eq!(path.buffer.len(), 4);
}

#[test]
fn move_to_closes_the_open_subpath() {
    let mut builder = PathBuilder::new();
    builder.move_to(0, 0).line_to(4, 0).line_to(4, 4).move_to(10, 10).line_to(12, 10);
    let path = builder.build();
    // move, line, line, closing line, move, line, closing line
    assert_eq!(path.buffer.len(), 7);
    assert_eq!(path.buffer[3][2], 1);
    assert_eq!(path.buffer[3][3], 1);
    assert_eq!(path.buffer[4][0], 0);
    assert_eq!(path.buffer[4][1], 0);
}

#[test]
fn building_twice_gives_the_same_path() {
    let mut builder = PathBuilder::new();
    builder.move_to(0, 0).line_to(4, 0).quadratic_to(8, 8, 0, 4);
    let first = builder.build();
    let second = builder.build();
    assert_eq!(first.offset, second.offset);
    assert_eq!(first.size, second.size);
    assert_eq!(first.buffer, second.buffer);
}

#[test]
fn drawing_without_a_move_starts_at_the_origin() {
    let mut builder = PathBuilder::new();
    builder.line_to(0, 1).line_to(1, 1).line_to(1, 0);
    let path = builder.build();
    assert_eq!(path.offset, p(0, 0));
    assert_eq!(path.size, Extent { w: 1, h: 1 });
    assert_eq!(path.buffer.len(), 4);
    for t in path.buffer.iter() {
        assert!(t[0] != 0);
    }
}
