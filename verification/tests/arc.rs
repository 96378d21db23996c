use gouache::arc::arc_commands;
use gouache::geom::isqrt;
use gouache::{Command, PathBuilder, Point};

fn at(x: i32, y: i32) -> Point {
    Point::new(x, y)
}

/// The largest distance from the circle of the points of the segments,
/// sampled at eleven parameters each.
fn deviation(from: Point, arc: &[Command], centre: (f64, f64), radius: f64) -> f64 {
    let mut worst: f64 = 0.0;
    let mut last = (from.x as f64, from.y as f64);
    for command in arc {
        if let Command::Quad(c, e) = *command {
            let c = (c.x as f64, c.y as f64);
            let e = (e.x as f64, e.y as f64);
            for step in 0..=10 {
                let t = step as f64 / 10.0;
                let x = (1.0 - t) * (1.0 - t) * last.0 + 2.0 * t * (1.0 - t) * c.0 + t * t * e.0;
                let y = (1.0 - t) * (1.0 - t) * last.1 + 2.0 * t * (1.0 - t) * c.1 + t * t * e.1;
                let d = ((x - centre.0).powi(2) + (y - centre.1).powi(2)).sqrt();
                worst = worst.max((d - radius).abs());
            }
            last = e;
        }
    }
    worst
}

#[test]
fn square_roots_are_rounded_down() {
    assert_eq!(isqrt(0), 0);
    assert_eq!(isqrt(1), 1);
    assert_eq!(isqrt(3), 1);
    assert_eq!(isqrt(4), 2);
    assert_eq!(isqrt(8_000_000), 2828);
    assert_eq!(isqrt(99), 9);
    assert_eq!(isqrt(100), 10);
    assert_eq!(isqrt(1 << 98), 1 << 49);
    assert_eq!(isqrt((1 << 98) - 1), (1 << 49) - 1);
    assert_eq!(isqrt(u128::MAX), u64::MAX);
}

#[test]
fn a_quarter_circle_has_two_segments() {
    let arc = arc_commands(at(0, 0), 1000, false, true, at(1000, 1000));
    assert_eq!(
        arc,
        vec![Command::Quad(at(414, 0), at(707, 293)), Command::Quad(at(1000, 586), at(1000, 1000))]
    );
}

#[test]
fn an_arc_stays_on_its_circle_and_ends_at_its_end() {
    // Radius 10 from (0, 0) to (10, 10), at 1024 units of the lattice to 1.
    let unit = 1024.0;
    let from = at(0, 0);
    let to = at(10240, 10240);
    let arc = arc_commands(from, 10240, false, true, to);
    assert_eq!(arc.len(), 2);
    match arc[arc.len() - 1] {
        Command::Quad(_, end) => assert_eq!(end, to),
        Command::Move(_) => panic!("a move in an arc"),
    }
    let worst = deviation(from, &arc, (0.0, 10240.0), 10240.0);
    assert!(worst / unit < 0.05, "deviation {}", worst / unit);
}

#[test]
fn the_other_winding_takes_the_other_centre() {
    let from = at(0, 0);
    let to = at(10240, 10240);
    let arc = arc_commands(from, 10240, false, false, to);
    assert_eq!(arc.len(), 2);
    let worst = deviation(from, &arc, (10240.0, 0.0), 10240.0);
    assert!(worst < 51.0, "deviation {}", worst);
}

#[test]
fn three_quarters_of_a_turn_have_six_segments() {
    let from = at(0, 0);
    let to = at(10000, 10000);
    let arc = arc_commands(from, 10000, true, true, to);
    assert_eq!(arc.len(), 6);
    let worst = deviation(from, &arc, (10000.0, 0.0), 10000.0);
    assert!(worst < 50.0, "deviation {}", worst);
    match arc[5] {
        Command::Quad(_, end) => assert_eq!(end, to),
        Command::Move(_) => panic!("a move in an arc"),
    }
    // The middle of the arc lies opposite the chord.
    match arc[2] {
        Command::Quad(_, end) => {
            assert!((end.x - 17071).abs() <= 2, "{:?}", end);
            assert!((end.y + 7071).abs() <= 2, "{:?}", end);
        }
        Command::Move(_) => panic!("a move in an arc"),
    }
}

#[test]
fn a_radius_that_is_too_short_gives_half_a_circle() {
    let from = at(0, 0);
    let to = at(2000, 0);
    let arc = arc_commands(from, 10, false, true, to);
    assert_eq!(arc.len(), 4);
    let worst = deviation(from, &arc, (1000.0, 0.0), 1000.0);
    assert!(worst < 5.0, "deviation {}", worst);
    match arc[1] {
        Command::Quad(_, end) => assert_eq!(end, at(1000, -1000)),
        Command::Move(_) => panic!("a move in an arc"),
    }
    let back = arc_commands(from, 0, false, false, to);
    match back[1] {
        Command::Quad(_, end) => assert_eq!(end, at(1000, 1000)),
        Command::Move(_) => panic!("a move in an arc"),
    }
}

#[test]
fn a_flat_arc_has_one_segment() {
    // A chord of 2000 on a circle of radius 10000 takes less than an eighth of a turn.
    let from = at(0, 0);
    let to = at(2000, 0);
    let arc = arc_commands(from, 10000, false, true, to);
    assert_eq!(arc.len(), 1);
    let centre_y = (10000.0f64 * 10000.0 - 1000.0 * 1000.0).sqrt();
    let worst = deviation(from, &arc, (1000.0, centre_y), 10000.0);
    assert!(worst < 3.0, "deviation {}", worst);
}

#[test]
fn an_arc_to_the_current_point_is_a_point() {
    assert_eq!(arc_commands(at(5, 7), 100, true, false, at(5, 7)), vec![Command::Quad(at(5, 7), at(5, 7))]);
}

#[test]
fn arcs_at_the_ends_of_the_lattice_stay_in_the_lattice() {
    let from = at(i32::MIN, i32::MIN);
    let to = at(i32::MAX, i32::MAX);
    for radius in [0, 1, u32::MAX] {
        for large_arc in [false, true] {
            for winding in [false, true] {
                let arc = arc_commands(from, radius, large_arc, winding, to);
                assert!(1 <= arc.len() && arc.len() <= 8);
                match arc[arc.len() - 1] {
                    Command::Quad(_, end) => assert_eq!(end, to),
                    Command::Move(_) => panic!("a move in an arc"),
                }
            }
        }
    }
}

#[test]
fn the_builder_draws_an_arc_from_the_current_point() {
    let mut builder = PathBuilder::new();
    builder.move_to(0, 0).arc_to(1000, false, true, 1000, 1000).line_to(0, 1000);
    let path = builder.build();
    // move, two segments of the arc, the line, the closing line
    assert_eq!(path.buffer.len(), 5);
    assert_eq!(path.offset, at(0, 0));
    assert_eq!((path.size.w, path.size.h), (1000, 1000));
}

/// The angles, in degrees, between the arms of consecutive end points of
/// the segments, seen from the centre.
fn steps(from: Point, arc: &[Command], centre: (f64, f64)) -> Vec<f64> {
    let mut out = Vec::new();
    let mut last = (from.x as f64 - centre.0, from.y as f64 - centre.1);
    for command in arc {
        if let Command::Quad(_, e) = *command {
            let arm = (e.x as f64 - centre.0, e.y as f64 - centre.1);
            let cross = last.0 * arm.1 - last.1 * arm.0;
            let dot = last.0 * arm.0 + last.1 * arm.1;
            out.push(cross.atan2(dot).to_degrees());
            last = arm;
        }
    }
    out
}

#[test]
fn an_arc_of_106_degrees_has_three_equal_segments() {
    // From (0, 0) to (8, 0) with radius 5, a thousand units to one: the
    // centre lies at (4, 3) and the arc sweeps 106.26 degrees.
    let from = at(0, 0);
    let to = at(8000, 0);
    let arc = arc_commands(from, 5000, false, true, to);
    assert_eq!(arc.len(), 3);
    match (arc[0], arc[1], arc[2]) {
        (Command::Quad(_, first), Command::Quad(_, second), Command::Quad(_, last)) => {
            assert!((first.x - 2479).abs() <= 2 && (first.y + 1763).abs() <= 2, "{:?}", first);
            assert!((second.x - 5521).abs() <= 2 && (second.y + 1763).abs() <= 2, "{:?}", second);
            assert_eq!(last, to);
        }
        _ => panic!("a move in an arc"),
    }
    for step in steps(from, &arc, (4000.0, 3000.0)) {
        assert!((step - 35.42).abs() < 0.05, "step {}", step);
    }
    assert!(deviation(from, &arc, (4000.0, 3000.0), 5000.0) < 10.0);
    // On the lattice of the example itself the count is the same.
    assert_eq!(arc_commands(at(0, 0), 5, false, true, at(8, 0)).len(), 3);
}

#[test]
fn the_segments_of_an_arc_are_equal_and_at_most_an_eighth_of_a_turn() {
    let from = at(0, 0);
    for (to, radius, large_arc, winding, centre, count) in [
        (at(20000, 0), 10000, false, true, (10000.0, 0.0), 4),
        (at(10000, 10000), 10000, true, true, (10000.0, 0.0), 6),
        (at(10000, 10000), 10000, true, false, (0.0, 10000.0), 6),
        (at(10000, 10000), 10000, false, false, (10000.0, 0.0), 2),
        (at(600, 800), 12500, true, true, (10291.997, -7093.998), 8),
        (at(600, 800), 12500, false, true, (-9691.997, 7893.998), 1),
        (at(19000, 3000), 10000, false, true, (9072.879, 4205.100), 4),
        (at(15000, 3000), 10000, true, false, (6236.610, 7816.949), 6),
    ] {
        let arc = arc_commands(from, radius, large_arc, winding, to);
        assert_eq!(arc.len(), count, "to {:?}", to);
        let angles = steps(from, &arc, centre);
        let whole: f64 = angles.iter().sum();
        for step in angles.iter() {
            assert!(step.abs() <= 45.01, "step {}", step);
            assert!((step - whole / count as f64).abs() < 0.05, "step {} of {}", step, whole);
            assert_eq!(*step > 0.0, winding);
        }
    }
}
