//! Quadratic segments: the monotonicity test, the stationary parameter,
//! De Casteljau subdivision on the lattice, and the split of a segment into
//! pieces that are monotone in both axes.

use vstd::prelude::*;
use crate::geom::{lerp_int, lemma_lerp_between, max_int, min_int, Point, Ratio};

verus! {

/// One drawing command: the start of a subpath, or a quadratic segment from
/// the current point through a control point to an end point.
#[derive(Copy, Clone, Debug, PartialEq, Eq, Structural)]
pub enum Command {
    Move(Point),
    Quad(Point, Point),
}

/// A subdivision of a segment `p0, p1, p2`: the halves are `p0, c1, mid` and
/// `mid, c2, p2`.
#[derive(Copy, Clone, Debug, PartialEq, Eq, Structural)]
pub struct Split {
    pub c1: Point,
    pub mid: Point,
    pub c2: Point,
}

/// The largest denominator of a stationary parameter.
pub const MAX_STATIONARY_DEN: u128 = 0x2_0000_0000;

/// A quadratic with coordinates `a, b, c` on one axis is monotone on it when
/// the control value lies between the two ends.
pub open spec fn monotone(a: int, b: int, c: int) -> bool {
    (a <= b && b <= c) || (c <= b && b <= a)
}

/// The distance between two integers.
pub open spec fn abs_diff(a: int, b: int) -> int {
    if a >= b { a - b } else { b - a }
}

/// The parameter at which a quadratic that is not monotone on an axis turns:
/// `(a - b) / (a - 2b + c)`, with both parts made positive.
pub open spec fn spec_stationary(a: int, b: int, c: int) -> Ratio {
    Ratio { num: abs_diff(a, b) as u128, den: (abs_diff(a, b) + abs_diff(c, b)) as u128 }
}

/// `s <= t` for two fractions.
pub open spec fn ratio_le(s: Ratio, t: Ratio) -> bool {
    s.num * t.den <= t.num * s.den
}

/// The parameter of `t2` on the part of a curve that is left after a split at
/// `t1`: `(t2 - t1) / (1 - t1)`.
pub open spec fn spec_rebase(t1: Ratio, t2: Ratio) -> Ratio {
    Ratio {
        num: (t2.num * t1.den - t1.num * t2.den) as u128,
        den: (t2.den * (t1.den - t1.num)) as u128,
    }
}

/// The point at which one axis is split. With `snap` it is the further of
/// the two inner control values, seen from the start in the direction of the
/// control value, so that both halves are monotone on this axis; without, it
/// is the curve's point at the parameter.
pub open spec fn split_mid(a: int, b: int, c: int, n: int, d: int, snap: bool) -> int {
    let p12 = lerp_int(a, b, n, d);
    let p23 = lerp_int(b, c, n, d);
    if snap {
        if b >= a { max_int(p12, p23) } else { min_int(p12, p23) }
    } else {
        lerp_int(p12, p23, n, d)
    }
}

/// De Casteljau subdivision of `p0, p1, p2` at `t`.
pub open spec fn spec_split(
    p0: Point,
    p1: Point,
    p2: Point,
    t: Ratio,
    snap_x: bool,
    snap_y: bool,
) -> Split {
    let n = t.num as int;
    let d = t.den as int;
    Split {
        c1: Point::spec_lerp(t, p0, p1),
        mid: Point {
            x: split_mid(p0.x as int, p1.x as int, p2.x as int, n, d, snap_x) as i32,
            y: split_mid(p0.y as int, p1.y as int, p2.y as int, n, d, snap_y) as i32,
        },
        c2: Point::spec_lerp(t, p1, p2),
    }
}

/// The two pieces of a segment that turns on one axis only.
pub open spec fn split_once(p0: Point, p1: Point, p2: Point, t: Ratio, on_x: bool) -> Seq<Command> {
    let s = spec_split(p0, p1, p2, t, on_x, !on_x);
    seq![Command::Quad(s.c1, s.mid), Command::Quad(s.c2, p2)]
}

/// The three pieces of a segment that turns on both axes: `t1` is the
/// smaller of the two stationary parameters and belongs to the x axis if
/// `x_first`, `t2` is the other one.
pub open spec fn split_twice(
    p0: Point,
    p1: Point,
    p2: Point,
    t1: Ratio,
    t2: Ratio,
    x_first: bool,
) -> Seq<Command> {
    let s = spec_split(p0, p1, p2, t1, x_first, !x_first);
    let r = spec_split(s.mid, s.c2, p2, spec_rebase(t1, t2), !x_first, x_first);
    seq![Command::Quad(s.c1, s.mid), Command::Quad(r.c1, r.mid), Command::Quad(r.c2, p2)]
}

/// The monotone pieces of the segment `p0, p1, p2`, in order: the segment
/// itself where it is monotone in both axes, two pieces where it turns on one
/// axis, three where it turns on both.
#[verifier::opaque]
pub open spec fn monotonize_quad(p0: Point, p1: Point, p2: Point) -> Seq<Command> {
    let mx = monotone(p0.x as int, p1.x as int, p2.x as int);
    let my = monotone(p0.y as int, p1.y as int, p2.y as int);
    let tx = spec_stationary(p0.x as int, p1.x as int, p2.x as int);
    let ty = spec_stationary(p0.y as int, p1.y as int, p2.y as int);
    if mx && my {
        seq![Command::Quad(p1, p2)]
    } else if !mx && my {
        split_once(p0, p1, p2, tx, true)
    } else if mx && !my {
        split_once(p0, p1, p2, ty, false)
    } else if ratio_le(tx, ty) {
        split_twice(p0, p1, p2, tx, ty, true)
    } else {
        split_twice(p0, p1, p2, ty, tx, false)
    }
}

/// The point at which a command ends.
pub open spec fn end_of(c: Command) -> Point {
    match c {
        Command::Move(p) => p,
        Command::Quad(_, e) => e,
    }
}

/// The current point after `cmds`, starting from `start`.
pub open spec fn end_point(start: Point, cmds: Seq<Command>) -> Point {
    if cmds.len() == 0 { start } else { end_of(cmds.last()) }
}

/// The current point before the command at `i`.
pub open spec fn start_of(start: Point, cmds: Seq<Command>, i: int) -> Point {
    if i == 0 { start } else { end_of(cmds[i - 1]) }
}

/// A segment from `from` is monotone in x and in y; a move always is.
pub open spec fn command_monotone(from: Point, c: Command) -> bool {
    match c {
        Command::Move(_) => true,
        Command::Quad(p1, p2) => {
            &&& monotone(from.x as int, p1.x as int, p2.x as int)
            &&& monotone(from.y as int, p1.y as int, p2.y as int)
        },
    }
}

/// Every segment of `cmds`, drawn from `start`, is monotone in both axes.
pub open spec fn all_monotone(start: Point, cmds: Seq<Command>) -> bool {
    forall|i: int| 0 <= i < cmds.len() ==> command_monotone(start_of(start, cmds, i), #[trigger] cmds[i])
}

/// A split on a snapped axis gives two monotone halves, whatever the
/// parameter is.
pub proof fn lemma_snapped_halves_monotone(a: int, b: int, c: int, n: int, d: int)
    requires
        0 <= n <= d,
        0 < d,
    ensures
        monotone(a, lerp_int(a, b, n, d), split_mid(a, b, c, n, d, true)),
        monotone(split_mid(a, b, c, n, d, true), lerp_int(b, c, n, d), c),
{
    lemma_lerp_between(a, b, n, d);
    lemma_lerp_between(b, c, n, d);
}

/// A split of an axis that is monotone gives two monotone halves, whatever
/// the parameter is.
pub proof fn lemma_monotone_halves_monotone(a: int, b: int, c: int, n: int, d: int, snap: bool)
    requires
        0 <= n <= d,
        0 < d,
        monotone(a, b, c),
    ensures
        monotone(a, lerp_int(a, b, n, d), split_mid(a, b, c, n, d, snap)),
        monotone(split_mid(a, b, c, n, d, snap), lerp_int(b, c, n, d), c),
{
    lemma_lerp_between(a, b, n, d);
    lemma_lerp_between(b, c, n, d);
    lemma_lerp_between(lerp_int(a, b, n, d), lerp_int(b, c, n, d), n, d);
}

/// A split at or before the stationary parameter of an axis leaves a first
/// half that is monotone on that axis.
pub proof fn lemma_early_half_monotone(a: int, b: int, c: int, n: int, d: int)
    requires
        0 <= n <= d,
        0 < d,
        !monotone(a, b, c),
        n * (abs_diff(a, b) + abs_diff(c, b)) <= abs_diff(a, b) * d,
    ensures
        monotone(a, lerp_int(a, b, n, d), split_mid(a, b, c, n, d, false)),
{
    let u = abs_diff(a, b);
    let v = abs_diff(c, b);
    let q1 = (u * n) / d;
    let q2 = (v * n) / d;
    assert(q1 + q2 <= u) by (nonlinear_arith)
        requires
            0 < d,
            0 <= n,
            0 <= u,
            0 <= v,
            q1 == (u * n) / d,
            q2 == (v * n) / d,
            n * (u + v) <= u * d,
    {
        assert(q1 * d <= u * n);
        assert(q2 * d <= v * n);
        assert((q1 + q2) * d <= u * d);
    }
    lemma_lerp_between(a, b, n, d);
    lemma_lerp_between(b, c, n, d);
    lemma_lerp_between(lerp_int(a, b, n, d), lerp_int(b, c, n, d), n, d);
}

/// The fraction that `rebase` gives is a parameter: it lies in `[0, 1]`.
pub proof fn lemma_rebase_wf(t1: Ratio, t2: Ratio)
    requires
        0 < t1.den <= MAX_STATIONARY_DEN,
        0 < t2.den <= MAX_STATIONARY_DEN,
        t1.num < t1.den,
        t2.num <= t2.den,
        ratio_le(t1, t2),
    ensures
        spec_rebase(t1, t2).wf(),
        spec_rebase(t1, t2).num == t2.num * t1.den - t1.num * t2.den,
        spec_rebase(t1, t2).den == t2.den * (t1.den - t1.num),
{
    let a1 = t1.num as int;
    let b1 = t1.den as int;
    let a2 = t2.num as int;
    let b2 = t2.den as int;
    assert(0 <= a2 * b1 - a1 * b2 <= b2 * (b1 - a1) <= 0x2_0000_0000 * 0x2_0000_0000
        && 0 < b2 * (b1 - a1)) by (nonlinear_arith)
        requires
            0 <= a2 <= b2 <= 0x2_0000_0000,
            0 < b2,
            0 <= a1 < b1 <= 0x2_0000_0000,
            a1 * b2 <= a2 * b1,
    ;
}

/// Two pieces of one snapped split are monotone where the other axis was.
proof fn lemma_split_once_monotone(p0: Point, p1: Point, p2: Point, t: Ratio, on_x: bool)
    requires
        t.wf(),
        on_x ==> monotone(p0.y as int, p1.y as int, p2.y as int),
        !on_x ==> monotone(p0.x as int, p1.x as int, p2.x as int),
    ensures
        all_monotone(p0, split_once(p0, p1, p2, t, on_x)),
{
    let n = t.num as int;
    let d = t.den as int;
    let s = spec_split(p0, p1, p2, t, on_x, !on_x);
    lemma_split_in_range(p0, p1, p2, t, on_x, !on_x);
    if on_x {
        lemma_snapped_halves_monotone(p0.x as int, p1.x as int, p2.x as int, n, d);
        lemma_monotone_halves_monotone(p0.y as int, p1.y as int, p2.y as int, n, d, false);
    } else {
        lemma_snapped_halves_monotone(p0.y as int, p1.y as int, p2.y as int, n, d);
        lemma_monotone_halves_monotone(p0.x as int, p1.x as int, p2.x as int, n, d, false);
    }
    let cmds = split_once(p0, p1, p2, t, on_x);
    assert(cmds[0] == Command::Quad(s.c1, s.mid));
    assert(cmds[1] == Command::Quad(s.c2, p2));
}

/// The points of a split are lattice points: no coordinate leaves the range
/// of the segment's own coordinates.
pub proof fn lemma_split_in_range(
    p0: Point,
    p1: Point,
    p2: Point,
    t: Ratio,
    snap_x: bool,
    snap_y: bool,
)
    requires
        t.wf(),
    ensures
        ({
            let s = spec_split(p0, p1, p2, t, snap_x, snap_y);
            let n = t.num as int;
            let d = t.den as int;
            &&& s.c1.x == lerp_int(p0.x as int, p1.x as int, n, d)
            &&& s.c1.y == lerp_int(p0.y as int, p1.y as int, n, d)
            &&& s.c2.x == lerp_int(p1.x as int, p2.x as int, n, d)
            &&& s.c2.y == lerp_int(p1.y as int, p2.y as int, n, d)
            &&& s.mid.x == split_mid(p0.x as int, p1.x as int, p2.x as int, n, d, snap_x)
            &&& s.mid.y == split_mid(p0.y as int, p1.y as int, p2.y as int, n, d, snap_y)
        }),
{
    let n = t.num as int;
    let d = t.den as int;
    lemma_lerp_between(p0.x as int, p1.x as int, n, d);
    lemma_lerp_between(p1.x as int, p2.x as int, n, d);
    lemma_lerp_between(p0.y as int, p1.y as int, n, d);
    lemma_lerp_between(p1.y as int, p2.y as int, n, d);
    lemma_lerp_between(
        lerp_int(p0.x as int, p1.x as int, n, d),
        lerp_int(p1.x as int, p2.x as int, n, d),
        n,
        d,
    );
    lemma_lerp_between(
        lerp_int(p0.y as int, p1.y as int, n, d),
        lerp_int(p1.y as int, p2.y as int, n, d),
        n,
        d,
    );
}

/// Three pieces of two splits are monotone: the first split comes no later
/// than the other axis turns.
proof fn lemma_split_twice_monotone(
    p0: Point,
    p1: Point,
    p2: Point,
    t1: Ratio,
    t2: Ratio,
    x_first: bool,
)
    requires
        !monotone(p0.x as int, p1.x as int, p2.x as int),
        !monotone(p0.y as int, p1.y as int, p2.y as int),
        x_first ==> t1 == spec_stationary(p0.x as int, p1.x as int, p2.x as int) && t2
            == spec_stationary(p0.y as int, p1.y as int, p2.y as int),
        !x_first ==> t1 == spec_stationary(p0.y as int, p1.y as int, p2.y as int) && t2
            == spec_stationary(p0.x as int, p1.x as int, p2.x as int),
        ratio_le(t1, t2),
    ensures
        all_monotone(p0, split_twice(p0, p1, p2, t1, t2, x_first)),
{
    let n = t1.num as int;
    let d = t1.den as int;
    lemma_rebase_wf(t1, t2);
    let t = spec_rebase(t1, t2);
    let s = spec_split(p0, p1, p2, t1, x_first, !x_first);
    let r = spec_split(s.mid, s.c2, p2, t, !x_first, x_first);
    lemma_split_in_range(p0, p1, p2, t1, x_first, !x_first);
    lemma_split_in_range(s.mid, s.c2, p2, t, !x_first, x_first);
    let m = t.num as int;
    let e = t.den as int;
    if x_first {
        lemma_snapped_halves_monotone(p0.x as int, p1.x as int, p2.x as int, n, d);
        lemma_early_half_monotone(p0.y as int, p1.y as int, p2.y as int, n, d);
        lemma_monotone_halves_monotone(s.mid.x as int, s.c2.x as int, p2.x as int, m, e, false);
        lemma_snapped_halves_monotone(s.mid.y as int, s.c2.y as int, p2.y as int, m, e);
    } else {
        lemma_snapped_halves_monotone(p0.y as int, p1.y as int, p2.y as int, n, d);
        lemma_early_half_monotone(p0.x as int, p1.x as int, p2.x as int, n, d);
        lemma_monotone_halves_monotone(s.mid.y as int, s.c2.y as int, p2.y as int, m, e, false);
        lemma_snapped_halves_monotone(s.mid.x as int, s.c2.x as int, p2.x as int, m, e);
    }
    let cmds = split_twice(p0, p1, p2, t1, t2, x_first);
    assert(cmds[0] == Command::Quad(s.c1, s.mid));
    assert(cmds[1] == Command::Quad(r.c1, r.mid));
    assert(cmds[2] == Command::Quad(r.c2, p2));
}

/// Every piece that `monotonize_quad` gives is monotone in x and in y; there
/// are one, two or three of them, and the last ends where the segment ends.
pub proof fn lemma_monotonize_quad(p0: Point, p1: Point, p2: Point)
    ensures
        all_monotone(p0, monotonize_quad(p0, p1, p2)),
        1 <= monotonize_quad(p0, p1, p2).len() <= 3,
        end_point(p0, monotonize_quad(p0, p1, p2)) == p2,
        forall|i: int|
            0 <= i < monotonize_quad(p0, p1, p2).len() ==> #[trigger] monotonize_quad(
                p0,
                p1,
                p2,
            )[i] is Quad,
{
    reveal(monotonize_quad);
    let mx = monotone(p0.x as int, p1.x as int, p2.x as int);
    let my = monotone(p0.y as int, p1.y as int, p2.y as int);
    let tx = spec_stationary(p0.x as int, p1.x as int, p2.x as int);
    let ty = spec_stationary(p0.y as int, p1.y as int, p2.y as int);
    if mx && my {
        assert(monotonize_quad(p0, p1, p2)[0] == Command::Quad(p1, p2));
    } else if !mx && my {
        lemma_split_once_monotone(p0, p1, p2, tx, true);
    } else if mx && !my {
        lemma_split_once_monotone(p0, p1, p2, ty, false);
    } else if ratio_le(tx, ty) {
        lemma_split_twice_monotone(p0, p1, p2, tx, ty, true);
    } else {
        lemma_split_twice_monotone(p0, p1, p2, ty, tx, false);
    }
}

/// Whether the quadratic `a, b, c` is monotone on its axis.
pub fn is_monotone(a: i32, b: i32, c: i32) -> (r: bool)
    ensures
        r == monotone(a as int, b as int, c as int),
{
    (a <= b && b <= c) || (c <= b && b <= a)
}

/// The parameter at which the quadratic `a, b, c` turns on its axis.
pub fn stationary_point(a: i32, b: i32, c: i32) -> (t: Ratio)
    requires
        !monotone(a as int, b as int, c as int),
    ensures
        t == spec_stationary(a as int, b as int, c as int),
        t.wf(),
        0 < t.num < t.den <= MAX_STATIONARY_DEN,
        t.num * abs_diff(a as int - 2 * b + c, 0) == t.den * abs_diff(a as int, b as int),
{
    let n: i64 = if a >= b { a as i64 - b as i64 } else { b as i64 - a as i64 };
    let m: i64 = if c >= b { c as i64 - b as i64 } else { b as i64 - c as i64 };
    let t = Ratio { num: n as u128, den: (n + m) as u128 };
    assert(t.num * abs_diff(a as int - 2 * b + c, 0) == t.den * abs_diff(a as int, b as int)) by {
        assert(abs_diff(a as int - 2 * b + c, 0) == n + m);
        assert(n * (n + m) == (n + m) * n) by (nonlinear_arith);
    }
    t
}

/// Whether `s <= t`.
pub fn ratio_cmp_le(s: Ratio, t: Ratio) -> (r: bool)
    requires
        s.den <= MAX_STATIONARY_DEN,
        t.den <= MAX_STATIONARY_DEN,
        s.num <= s.den,
        t.num <= t.den,
    ensures
        r == ratio_le(s, t),
{
    assert(s.num * t.den <= 0x2_0000_0000 * 0x2_0000_0000) by (nonlinear_arith)
        requires
            s.num <= 0x2_0000_0000,
            t.den <= 0x2_0000_0000,
    ;
    assert(t.num * s.den <= 0x2_0000_0000 * 0x2_0000_0000) by (nonlinear_arith)
        requires
            t.num <= 0x2_0000_0000,
            s.den <= 0x2_0000_0000,
    ;
    s.num * t.den <= t.num * s.den
}

/// The parameter of `t2` on what is left of a curve after a split at `t1`.
pub fn rebase(t1: Ratio, t2: Ratio) -> (t: Ratio)
    requires
        0 < t1.den <= MAX_STATIONARY_DEN,
        0 < t2.den <= MAX_STATIONARY_DEN,
        t1.num < t1.den,
        t2.num <= t2.den,
        ratio_le(t1, t2),
    ensures
        t == spec_rebase(t1, t2),
        t.wf(),
{
    let a1: u128 = t1.num;
    let b1: u128 = t1.den;
    let a2: u128 = t2.num;
    let b2: u128 = t2.den;
    assert(a2 * b1 <= b2 * b1 <= 0x2_0000_0000 * 0x2_0000_0000) by (nonlinear_arith)
        requires
            a2 <= b2 <= 0x2_0000_0000,
            b1 <= 0x2_0000_0000,
    ;
    assert(a2 * b1 - a1 * b2 <= b2 * (b1 - a1) <= 0x2_0000_0000 * 0x2_0000_0000
        && 0 < b2 * (b1 - a1)) by (nonlinear_arith)
        requires
            a2 <= b2 <= 0x2_0000_0000,
            0 < b2,
            a1 < b1 <= 0x2_0000_0000,
            a1 * b2 <= a2 * b1,
    ;
    Ratio { num: a2 * b1 - a1 * b2, den: b2 * (b1 - a1) }
}

/// Splits one axis: the two inner control values and the point between them.
fn split_coord(a: i32, b: i32, c: i32, t: Ratio, snap: bool) -> (r: (i32, i32, i32))
    requires
        t.wf(),
    ensures
        r.0 == lerp_int(a as int, b as int, t.num as int, t.den as int),
        r.1 == split_mid(a as int, b as int, c as int, t.num as int, t.den as int, snap),
        r.2 == lerp_int(b as int, c as int, t.num as int, t.den as int),
{
    let p12 = crate::geom::lerp_coord(a, b, t);
    let p23 = crate::geom::lerp_coord(b, c, t);
    let mid = if snap {
        if b >= a {
            if p12 >= p23 { p12 } else { p23 }
        } else {
            if p12 <= p23 { p12 } else { p23 }
        }
    } else {
        crate::geom::lerp_coord(p12, p23, t)
    };
    (p12, mid, p23)
}

/// Splits the segment `p0, p1, p2` at `t` by De Casteljau subdivision. On an
/// axis that is snapped both halves are monotone, whatever `t` is.
pub fn split_at(p0: Point, p1: Point, p2: Point, t: Ratio, snap_x: bool, snap_y: bool) -> (s: Split)
    requires
        t.wf(),
    ensures
        s == spec_split(p0, p1, p2, t, snap_x, snap_y),
{
    let x = split_coord(p0.x, p1.x, p2.x, t, snap_x);
    let y = split_coord(p0.y, p1.y, p2.y, t, snap_y);
    Split {
        c1: Point { x: x.0, y: y.0 },
        mid: Point { x: x.1, y: y.1 },
        c2: Point { x: x.2, y: y.2 },
    }
}

/// Appends the monotone pieces of the segment `p0, p1, p2` to `out`.
pub fn push_monotone(out: &mut Vec<Command>, p0: Point, p1: Point, p2: Point)
    ensures
        final(out)@ == old(out)@ + monotonize_quad(p0, p1, p2),
{
    reveal(monotonize_quad);
    let mx = is_monotone(p0.x, p1.x, p2.x);
    let my = is_monotone(p0.y, p1.y, p2.y);
    if mx && my {
        out.push(Command::Quad(p1, p2));
        assert(out@ =~= old(out)@ + monotonize_quad(p0, p1, p2));
    } else if !mx && my {
        let t = stationary_point(p0.x, p1.x, p2.x);
        let s = split_at(p0, p1, p2, t, true, false);
        out.push(Command::Quad(s.c1, s.mid));
        out.push(Command::Quad(s.c2, p2));
        assert(out@ =~= old(out)@ + monotonize_quad(p0, p1, p2));
    } else if mx && !my {
        let t = stationary_point(p0.y, p1.y, p2.y);
        let s = split_at(p0, p1, p2, t, false, true);
        out.push(Command::Quad(s.c1, s.mid));
        out.push(Command::Quad(s.c2, p2));
        assert(out@ =~= old(out)@ + monotonize_quad(p0, p1, p2));
    } else {
        let tx = stationary_point(p0.x, p1.x, p2.x);
        let ty = stationary_point(p0.y, p1.y, p2.y);
        let x_first = ratio_cmp_le(tx, ty);
        let t1 = if x_first { tx } else { ty };
        let t2 = if x_first { ty } else { tx };
        let s = split_at(p0, p1, p2, t1, x_first, !x_first);
        let r = split_at(s.mid, s.c2, p2, rebase(t1, t2), !x_first, x_first);
        out.push(Command::Quad(s.c1, s.mid));
        out.push(Command::Quad(r.c1, r.mid));
        out.push(Command::Quad(r.c2, p2));
        assert(out@ =~= old(out)@ + monotonize_quad(p0, p1, p2));
    }
}

} // verus!
