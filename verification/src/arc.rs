//! Circular arcs as quadratic segments, on the lattice: the centre from the
//! chord and the radius, one segment for each eighth of a turn that the arc
//! sweeps, the points between at equal steps, found by halving the arc, and
//! each control point where the tangents of its segment's ends meet.

use vstd::prelude::*;
use crate::curve::Command;
use crate::geom::{
    isqrt, magnitude, scale, scaled, sqrt_ceil, sqrt_floor, Point, Vector, Wide, REACH, SPAN,
};

verus! {

/// The square of the length of a vector.
pub open spec fn norm2(a: Vector) -> int {
    a.x * a.x + a.y * a.y
}

/// The sum of two vectors.
pub open spec fn sum(a: Vector, b: Vector) -> Vector {
    Vector { x: a.x + b.x, y: a.y + b.y }
}

/// The dot product of two vectors.
pub open spec fn dot(a: Vector, b: Vector) -> int {
    a.x * b.x + a.y * b.y
}

/// The cross product of two vectors: positive where `b` lies in the winding
/// direction of `a`, by less than half a turn.
pub open spec fn turn(a: Vector, b: Vector, winding: bool) -> int {
    if winding { a.x * b.y - a.y * b.x } else { a.y * b.x - a.x * b.y }
}

/// The square of the diameter of the arc: the radius is taken as half the
/// chord where it is shorter.
pub open spec fn diameter2(radius: int, chord2: int) -> int {
    if 4 * radius * radius >= chord2 { 4 * radius * radius } else { chord2 }
}

/// The distance of the centre from the chord, over half the chord's length,
/// in 65536ths.
pub open spec fn lean(diameter2: int, chord2: int) -> int {
    sqrt_floor(((diameter2 - chord2) * 0x1_0000_0000) / chord2)
}

/// The vector from the centre to the start of the arc: the centre lies
/// beside the middle of the chord, on the side that the two flags choose.
pub open spec fn start_arm(chord: Vector, radius: int, large_arc: bool, winding: bool) -> Vector {
    let k = lean(diameter2(radius, norm2(chord)), norm2(chord));
    let ox = scaled(-chord.y, k, 65536);
    let oy = scaled(chord.x, k, 65536);
    if large_arc == winding {
        Vector { x: -chord.x + ox, y: -chord.y + oy }
    } else {
        Vector { x: -chord.x - ox, y: -chord.y - oy }
    }
}

/// The vector from the centre to the end of the arc.
pub open spec fn end_arm(chord: Vector, start: Vector) -> Vector {
    Vector { x: start.x + 2 * chord.x, y: start.y + 2 * chord.y }
}

/// The number of eighths of a turn that an angle takes, rounded up and at
/// least 1; the angle is given by the dot product and the cross product of
/// its two arms.
pub open spec fn eighths(dot: int, cross: int) -> int {
    if cross > 0 {
        if dot > 0 {
            if cross <= dot { 1 } else { 2 }
        } else if dot == 0 {
            2
        } else {
            if cross >= -dot { 3 } else { 4 }
        }
    } else if cross == 0 {
        if dot >= 0 { 1 } else { 4 }
    } else {
        if dot < 0 {
            if -cross <= -dot { 5 } else { 6 }
        } else if dot == 0 {
            6
        } else {
            if -cross >= dot { 7 } else { 8 }
        }
    }
}

/// The vector of length `length` in the direction of `w`, or to its right
/// where `w` has no direction. The direction is first made at least as long
/// as `length`, then shortened to `length` by its own length, rounded up.
pub open spec fn toward(w: Vector, length: int) -> Vector {
    let n = sqrt_floor(norm2(w));
    if n == 0 {
        Vector { x: length, y: 0 }
    } else {
        let f = length / n + 1;
        let s = Vector { x: w.x * f, y: w.y * f };
        let c = sqrt_ceil(norm2(s));
        Vector { x: scaled(s.x, length, c), y: scaled(s.y, length, c) }
    }
}

/// The vector from the centre to the middle of the arc from `a` to `b`.
pub open spec fn middle(a: Vector, b: Vector, winding: bool, length: int) -> Vector {
    let c = turn(a, b, winding);
    let w = sum(a, b);
    if c > 0 || (c == 0 && dot(a, b) >= 0) {
        toward(w, length)
    } else if c < 0 {
        toward(Vector { x: -w.x, y: -w.y }, length)
    } else if winding {
        toward(Vector { x: -a.y, y: a.x }, length)
    } else {
        toward(Vector { x: a.y, y: -a.x }, length)
    }
}

/// How often an arc is halved in the search for a point on it.
pub const DEPTH: u32 = 24;

/// The arm at `num / den` of the way along the arc from `u` to `v`, which
/// is less than half a turn: the arc is halved `depth` times, each time
/// keeping the half in which the point lies.
pub open spec fn arm_between(u: Vector, v: Vector, num: int, den: int, length: int, depth: int) -> Vector
    decreases depth,
{
    if num <= 0 {
        toward(u, length)
    } else if num >= den {
        toward(v, length)
    } else if depth <= 0 {
        toward(sum(u, v), length)
    } else {
        let m = toward(sum(u, v), length);
        if 2 * num < den {
            arm_between(u, m, 2 * num, den, length, depth - 1)
        } else {
            arm_between(m, v, 2 * num - den, den, length, depth - 1)
        }
    }
}

/// The arm at `k / count` of the way along the arc from `a` to `b`.
pub open spec fn arc_arm(a: Vector, b: Vector, winding: bool, length: int, k: int, count: int) -> Vector {
    if k <= 0 {
        a
    } else if k >= count {
        b
    } else {
        let m = middle(a, b, winding, length);
        if 2 * k < count {
            arm_between(a, m, 2 * k, count, length, DEPTH as int)
        } else {
            arm_between(m, b, 2 * k - count, count, length, DEPTH as int)
        }
    }
}

/// The arms of the points of an arc of `count` segments: they divide the
/// arc into `count` equal parts.
pub open spec fn arc_arms(a: Vector, b: Vector, winding: bool, length: int, count: int) -> Seq<Vector> {
    Seq::new((count + 1) as nat, |k: int| arc_arm(a, b, winding, length, k, count))
}

/// The vector from the centre to the point where the tangents meet that
/// touch the circle at two points whose arms sum up to `w`.
pub open spec fn pole(w: Vector, length: int) -> Vector {
    let n = norm2(w);
    if n == 0 {
        w
    } else {
        Vector { x: scaled(w.x, 2 * length * length, n), y: scaled(w.y, 2 * length * length, n) }
    }
}

/// A coordinate of the lattice, cut off at the ends of the lattice.
pub open spec fn clamped(v: int) -> int {
    if v < i32::MIN { i32::MIN as int } else if v > i32::MAX { i32::MAX as int } else { v }
}

/// The point of the lattice at the arm `p`, where the arm `a` is at `from`.
pub open spec fn point_at(from: Point, a: Vector, p: Vector) -> Point {
    Point {
        x: clamped(from.x + (p.x - a.x) / 2) as i32,
        y: clamped(from.y + (p.y - a.y) / 2) as i32,
    }
}

/// The length of the arms of an arc that starts with the arm `a`: the
/// length of `a`, rounded down, and `REACH` at most.
pub open spec fn arm_length(a: Vector) -> int {
    let l = sqrt_floor(norm2(a));
    if l > REACH { REACH as int } else { l }
}

/// The segments of the arc from `from` to `to` on a circle of the given
/// radius. Of the two circles through both points, the centre is taken on
/// the side that `large_arc` and `winding` choose; the arc runs in the
/// winding direction if `winding`, against it if not. It has one segment
/// for each eighth of a turn that it sweeps, begun ones counted; their end
/// points divide the arc into equal parts, and the last is `to`. The control
/// point of a segment is where the tangents at its two ends meet.
pub open spec fn arc_of(from: Point, radius: int, large_arc: bool, winding: bool, to: Point) -> Seq<
    Command,
> {
    let chord = Vector { x: to.x - from.x, y: to.y - from.y };
    if norm2(chord) == 0 {
        seq![Command::Quad(to, to)]
    } else {
        let a = start_arm(chord, radius, large_arc, winding);
        let b = end_arm(chord, a);
        let length = arm_length(a);
        let count = eighths(dot(a, b), turn(a, b, winding));
        let arms = arc_arms(a, b, winding, length, count);
        Seq::new(
            count as nat,
            |i: int|
                Command::Quad(
                    point_at(from, a, pole(sum(arms[i], arms[i + 1]), length)),
                    if i + 1 == count { to } else { point_at(from, a, arms[i + 1]) },
                ),
        )
    }
}

/// An arc has one to eight segments, one for each eighth of a turn that
/// it sweeps, and ends where it is asked to end.
pub proof fn lemma_arc_of(from: Point, radius: int, large_arc: bool, winding: bool, to: Point)
    ensures
        ({
            let arc = arc_of(from, radius, large_arc, winding, to);
            let chord = Vector { x: to.x - from.x, y: to.y - from.y };
            let a = start_arm(chord, radius, large_arc, winding);
            let b = end_arm(chord, a);
            &&& 1 <= arc.len() <= 8
            &&& norm2(chord) != 0 ==> arc.len() == eighths(dot(a, b), turn(a, b, winding))
            &&& crate::curve::end_of(arc.last()) == to
            &&& forall|i: int| 0 <= i < arc.len() ==> #[trigger] arc[i] is Quad
        }),
{
}

/// The distance of a coordinate from 0.
pub open spec fn abs_int(v: int) -> int {
    if v >= 0 { v } else { -v }
}

/// The vector `p` ends on the circle of radius `length` about the centre,
/// to the rounding of its coordinates: it is at most `length` long, and
/// with each coordinate moved away from 0 by one it is longer than
/// `length - 1`.
pub open spec fn on_circle(p: Vector, length: int) -> bool {
    &&& norm2(p) <= length * length
    &&& (abs_int(p.x) + 1) * (abs_int(p.x) + 1) + (abs_int(p.y) + 1) * (abs_int(p.y) + 1) > (length
        - 1) * (length - 1)
}

/// One coordinate of a direction, shortened: its square is at most, and
/// the square of the next whole is more than, the exact square.
proof fn lemma_shortened(v: int, length: int, c: int)
    requires
        0 <= length <= REACH,
        c > 0,
        abs_int(v) <= c,
    ensures
        ({
            let m = abs_int(scaled(v, length, c));
            &&& m * m * (c * c) <= (v * v) * (length * length)
            &&& (m + 1) * (m + 1) * (c * c) > (v * v) * (length * length)
        }),
{
    let x = abs_int(v);
    let q = (x * length) / c;
    assert(x * length >= 0) by (nonlinear_arith)
        requires
            x >= 0,
            length >= 0,
    ;
    assert(q * c <= x * length < (q + 1) * c && q >= 0) by (nonlinear_arith)
        requires
            q == (x * length) / c,
            c > 0,
            x * length >= 0,
    ;
    assert(q <= length) by (nonlinear_arith)
        requires
            q * c <= x * length,
            x <= c,
            c > 0,
            length >= 0,
            q >= 0,
    ;
    let m = abs_int(scaled(v, length, c));
    assert(m == q);
    let t = x * length;
    assert((q * c) * (q * c) <= t * t) by (nonlinear_arith)
        requires
            0 <= q * c <= t,
    {
    }
    assert(q * c >= 0) by (nonlinear_arith)
        requires
            q >= 0,
            c > 0,
    ;
    assert(((q + 1) * c) * ((q + 1) * c) > t * t) by (nonlinear_arith)
        requires
            (q + 1) * c > t,
            t >= 0,
    ;
    assert((q * c) * (q * c) == q * q * (c * c)) by (nonlinear_arith);
    assert(((q + 1) * c) * ((q + 1) * c) == (q + 1) * (q + 1) * (c * c)) by (nonlinear_arith);
    assert(t * t == (v * v) * (length * length)) by (nonlinear_arith)
        requires
            t == x * length,
            x == v || x == -v,
    ;
}

/// A vector made by `toward` ends on the circle.
pub proof fn lemma_toward_on_circle(w: Vector, length: int)
    requires
        0 <= length <= REACH,
    ensures
        on_circle(toward(w, length), length),
{
    let n2 = norm2(w);
    assert(n2 >= 0) by (nonlinear_arith)
        requires
            n2 == w.x * w.x + w.y * w.y,
    ;
    crate::geom::lemma_sqrt_exists(n2);
    let n = sqrt_floor(n2);
    let ll = length * length;
    assert(ll >= (length - 1) * (length - 1) || length == 0) by (nonlinear_arith)
        requires
            ll == length * length,
            length >= 0,
    ;
    if n == 0 {
        let p = toward(w, length);
        assert(p.x == length && p.y == 0);
        assert(norm2(p) == ll) by (nonlinear_arith)
            requires
                p.x == length,
                p.y == 0,
                ll == length * length,
        ;
        assert((length + 1) * (length + 1) + 1 > (length - 1) * (length - 1)) by (nonlinear_arith)
            requires
                length >= 0,
        ;
    } else {
        let g = length / n;
        let f = g + 1;
        let s = Vector { x: w.x * f, y: w.y * f };
        let m2 = norm2(s);
        assert(n * g + n > length && g >= 0) by (nonlinear_arith)
            requires
                g == length / n,
                n > 0,
                length >= 0,
        ;
        let nf = n * f;
        assert(nf == n * g + n) by (nonlinear_arith)
            requires
                nf == n * f,
                f == g + 1,
        ;
        assert(m2 == (f * f) * n2) by (nonlinear_arith)
            requires
                m2 == (w.x * f) * (w.x * f) + (w.y * f) * (w.y * f),
                n2 == w.x * w.x + w.y * w.y,
        ;
        assert((f * f) * n2 >= nf * nf) by (nonlinear_arith)
            requires
                n2 >= n * n,
                nf == n * f,
        {
            assert(nf * nf == (f * f) * (n * n));
            assert(f * f >= 0);
        }
        assert(nf * nf >= ll) by (nonlinear_arith)
            requires
                nf >= length,
                length >= 0,
                ll == length * length,
        ;
        assert(m2 >= ll && m2 >= 1 && ll >= 0) by (nonlinear_arith)
            requires
                m2 >= nf * nf,
                nf * nf >= ll,
                ll == length * length,
                nf >= n,
                n >= 1,
        ;
        crate::geom::lemma_sqrt_exists(m2);
        let r = sqrt_floor(m2);
        let c = sqrt_ceil(m2);
        assert(r >= 1) by (nonlinear_arith)
            requires
                m2 < (r + 1) * (r + 1),
                m2 >= 1,
                r >= 0,
        ;
        assert(c * c >= m2 && (c - 1) * (c - 1) <= m2 && c >= 1) by (nonlinear_arith)
            requires
                r * r <= m2 < (r + 1) * (r + 1),
                r >= 1,
                c == r || c == r + 1,
                c == r ==> r * r == m2,
        ;
        assert(c >= length) by (nonlinear_arith)
            requires
                c * c >= ll,
                ll == length * length,
                c >= 1,
                length >= 0,
        ;
        let sxx = s.x * s.x;
        let syy = s.y * s.y;
        assert(sxx >= 0 && syy >= 0 && sxx == abs_int(s.x) * abs_int(s.x) && syy == abs_int(s.y)
            * abs_int(s.y)) by (nonlinear_arith)
            requires
                sxx == s.x * s.x,
                syy == s.y * s.y,
        ;
        assert(abs_int(s.x) <= c && abs_int(s.y) <= c) by (nonlinear_arith)
            requires
                abs_int(s.x) * abs_int(s.x) + abs_int(s.y) * abs_int(s.y) <= c * c,
                c >= 1,
        ;
        lemma_shortened(s.x, length, c);
        lemma_shortened(s.y, length, c);
        let p = toward(w, length);
        assert(p.x == scaled(s.x, length, c) && p.y == scaled(s.y, length, c));
        let mx = abs_int(p.x);
        let my = abs_int(p.y);
        let cc = c * c;
        assert(cc >= 1) by (nonlinear_arith)
            requires
                cc == c * c,
                c >= 1,
        ;
        assert(norm2(p) == mx * mx + my * my) by (nonlinear_arith)
            requires
                mx == p.x || mx == -p.x,
                my == p.y || my == -p.y,
        ;
        // At most `length` long.
        assert((mx * mx + my * my) * cc <= m2 * ll) by (nonlinear_arith)
            requires
                mx * mx * cc <= sxx * ll,
                my * my * cc <= syy * ll,
                m2 == sxx + syy,
        ;
        assert(m2 * ll <= cc * ll) by (nonlinear_arith)
            requires
                m2 <= cc,
                ll >= 0,
        ;
        assert(mx * mx + my * my <= ll) by (nonlinear_arith)
            requires
                (mx * mx + my * my) * cc <= cc * ll,
                cc >= 1,
        ;
        // Moved out by one, longer than `length - 1`.
        let big = (mx + 1) * (mx + 1) + (my + 1) * (my + 1);
        assert(big * cc > m2 * ll) by (nonlinear_arith)
            requires
                (mx + 1) * (mx + 1) * cc > sxx * ll,
                (my + 1) * (my + 1) * cc > syy * ll,
                m2 == sxx + syy,
                big == (mx + 1) * (mx + 1) + (my + 1) * (my + 1),
        ;
        if length == 0 {
            assert(big >= 2) by (nonlinear_arith)
                requires
                    big == (mx + 1) * (mx + 1) + (my + 1) * (my + 1),
                    mx >= 0,
                    my >= 0,
            ;
            assert((length - 1) * (length - 1) == 1) by (nonlinear_arith)
                requires
                    length == 0,
            ;
        } else {
            let low = (c - 1) * length;
            let less = (length - 1) * c;
            assert(low >= less && less >= 0) by (nonlinear_arith)
                requires
                    low == (c - 1) * length,
                    less == (length - 1) * c,
                    c >= length,
                    length >= 1,
            ;
            assert(low * low >= less * less) by (nonlinear_arith)
                requires
                    low >= less,
                    less >= 0,
            ;
            assert(low * low == (c - 1) * (c - 1) * ll) by (nonlinear_arith)
                requires
                    low == (c - 1) * length,
                    ll == length * length,
            ;
            assert(less * less == (length - 1) * (length - 1) * cc) by (nonlinear_arith)
                requires
                    less == (length - 1) * c,
                    cc == c * c,
            ;
            assert(m2 * ll >= (c - 1) * (c - 1) * ll) by (nonlinear_arith)
                requires
                    m2 >= (c - 1) * (c - 1),
                    ll >= 0,
            ;
            assert(big > (length - 1) * (length - 1)) by (nonlinear_arith)
                requires
                    big * cc > (length - 1) * (length - 1) * cc,
                    cc >= 1,
            ;
        }
    }
}

/// A point found by halving ends on the circle.
proof fn lemma_arm_between_on_circle(u: Vector, v: Vector, num: int, den: int, length: int, depth: int)
    requires
        0 <= length <= REACH,
    ensures
        on_circle(arm_between(u, v, num, den, length, depth), length),
    decreases depth,
{
    if num <= 0 {
        lemma_toward_on_circle(u, length);
    } else if num >= den {
        lemma_toward_on_circle(v, length);
    } else if depth <= 0 {
        lemma_toward_on_circle(sum(u, v), length);
    } else {
        let m = toward(sum(u, v), length);
        if 2 * num < den {
            lemma_arm_between_on_circle(u, m, 2 * num, den, length, depth - 1);
        } else {
            lemma_arm_between_on_circle(m, v, 2 * num - den, den, length, depth - 1);
        }
    }
}

/// The points between the ends of an arc lie on the circle: the arm of
/// each, in half units of the lattice, is at most as long as the arm of the
/// start, rounded down, and shorter by less than three.
pub proof fn lemma_arc_on_circle(a: Vector, b: Vector, winding: bool, k: int, count: int)
    requires
        0 < k < count,
    ensures
        on_circle(arc_arm(a, b, winding, arm_length(a), k, count), arm_length(a)),
{
    let n2 = norm2(a);
    assert(n2 >= 0) by (nonlinear_arith)
        requires
            n2 == a.x * a.x + a.y * a.y,
    ;
    crate::geom::lemma_sqrt_exists(n2);
    let length = arm_length(a);
    let m = middle(a, b, winding, length);
    if 2 * k < count {
        lemma_arm_between_on_circle(a, m, 2 * k, count, length, DEPTH as int);
    } else {
        lemma_arm_between_on_circle(m, b, 2 * k - count, count, length, DEPTH as int);
    }
}

/// Whether every coordinate of the vector is at most `bound` from 0.
pub open spec fn within(a: Vector, bound: int) -> bool {
    -bound <= a.x <= bound && -bound <= a.y <= bound
}

/// The square of the length of a vector.
fn norm2_of(w: Wide) -> (n: u128)
    requires
        within(w@, SPAN as int),
    ensures
        n == norm2(w@),
        n <= 2 * SPAN * SPAN,
{
    let x = magnitude(w.x);
    let y = magnitude(w.y);
    assert(x * x <= 0x40_0000_0000 * 0x40_0000_0000 && x * x == w.x * w.x) by (nonlinear_arith)
        requires
            x <= 0x40_0000_0000,
            x == w.x || x == -w.x,
    ;
    assert(y * y <= 0x40_0000_0000 * 0x40_0000_0000 && y * y == w.y * w.y) by (nonlinear_arith)
        requires
            y <= 0x40_0000_0000,
            y == w.y || y == -w.y,
    ;
    x * x + y * y
}

/// The vector of length `length` in the direction of `w`.
fn toward_of(w: Wide, length: u64) -> (r: Wide)
    requires
        within(w@, 2 * ARM),
        length <= REACH,
    ensures
        r@ == toward(w@, length as int),
        within(r@, REACH as int),
{
    let n2 = norm2_of(w);
    let n = isqrt(n2);
    if n == 0 {
        return Wide { x: length as i64, y: 0 };
    }
    let f = length / n + 1;
    let ax = magnitude(w.x);
    let ay = magnitude(w.y);
    proof {
        assert(ax * ax == w.x * w.x && ay * ay == w.y * w.y) by (nonlinear_arith)
            requires
                ax == w.x || ax == -w.x,
                ay == w.y || ay == -w.y,
        ;
        assert(ax <= n && ay <= n) by (nonlinear_arith)
            requires
                ax * ax + ay * ay == n2,
                n2 < (n + 1) * (n + 1),
        ;
        let g = length / n;
        assert(n * g <= length) by (nonlinear_arith)
            requires
                g == length / n,
                n > 0,
        ;
        assert(ax * f <= length + ax && ay * f <= length + ay) by (nonlinear_arith)
            requires
                f == g + 1,
                n * g <= length,
                ax <= n,
                ay <= n,
                g >= 0,
        ;
        assert(w.x * f == ax * f || w.x * f == -(ax * f)) by (nonlinear_arith)
            requires
                ax == w.x || ax == -w.x,
        ;
        assert(w.y * f == ay * f || w.y * f == -(ay * f)) by (nonlinear_arith)
            requires
                ay == w.y || ay == -w.y,
        ;
    }
    let s = Wide { x: w.x * (f as i64), y: w.y * (f as i64) };
    let m2 = norm2_of(s);
    let c0 = isqrt(m2);
    assert((c0 as u128) * (c0 as u128) <= 0xffff_ffff_ffff_ffff * 0xffff_ffff_ffff_ffff)
        by (nonlinear_arith)
        requires
            c0 <= 0xffff_ffff_ffff_ffff,
    ;
    let c: u64 = if (c0 as u128) * (c0 as u128) == m2 { c0 } else { c0 + 1 };
    proof {
        assert((n + 1) * (n + 1) >= 1 && n2 >= 1) by (nonlinear_arith)
            requires
                n * n <= n2,
                n >= 1,
        ;
        assert(w.x != 0 || w.y != 0) by (nonlinear_arith)
            requires
                w.x * w.x + w.y * w.y >= 1,
        ;
        assert(s.x != 0 || s.y != 0) by (nonlinear_arith)
            requires
                s.x == w.x * f,
                s.y == w.y * f,
                f >= 1,
                w.x != 0 || w.y != 0,
        ;
        assert(m2 >= 1) by (nonlinear_arith)
            requires
                m2 == s.x * s.x + s.y * s.y,
                s.x != 0 || s.y != 0,
        ;
        if c0 == 0 {
            assert((c0 + 1) * (c0 + 1) == 1) by (nonlinear_arith)
                requires
                    c0 == 0,
            ;
        }
    }
    Wide { x: scale(s.x, length as u128, c as u128), y: scale(s.y, length as u128, c as u128) }
}

/// The longest that an arm gets, in each coordinate.
pub const ARM: i64 = 0x10_0000_0000;

/// The vector from the centre to the start of the arc.
fn start_arm_of(chord: Wide, radius: u32, large_arc: bool, winding: bool) -> (a: Wide)
    requires
        within(chord@, 0xffff_ffff),
        norm2(chord@) > 0,
    ensures
        a@ == start_arm(chord@, radius as int, large_arc, winding),
        within(a@, ARM as int - 2 * 0xffff_ffff),
{
    let chord2 = norm2_of(chord);
    assert(chord2 <= 2 * 0xffff_ffff * 0xffff_ffff) by (nonlinear_arith)
        requires
            chord2 == chord.x * chord.x + chord.y * chord.y,
            -0xffff_ffff <= chord.x <= 0xffff_ffff,
            -0xffff_ffff <= chord.y <= 0xffff_ffff,
    ;
    let r = radius as u128;
    assert(4 * r * r <= 4 * 0xffff_ffff * 0xffff_ffff) by (nonlinear_arith)
        requires
            r <= 0xffff_ffff,
    ;
    let diameter2 = if 4 * r * r >= chord2 { 4 * r * r } else { chord2 };
    let k = isqrt((diameter2 - chord2) * 0x1_0000_0000 / chord2);
    let ox = scale(-chord.y, k as u128, 65536);
    let oy = scale(chord.x, k as u128, 65536);
    if large_arc == winding {
        Wide { x: -chord.x + ox, y: -chord.y + oy }
    } else {
        Wide { x: -chord.x - ox, y: -chord.y - oy }
    }
}

/// The number of eighths of a turn of an angle, rounded up and at least 1.
fn eighths_of(dot: i128, cross: i128) -> (n: u8)
    requires
        dot > i128::MIN,
        cross > i128::MIN,
    ensures
        n == eighths(dot as int, cross as int),
        1 <= n <= 8,
{
    if cross > 0 {
        if dot > 0 {
            if cross <= dot { 1 } else { 2 }
        } else if dot == 0 {
            2
        } else {
            if cross >= -dot { 3 } else { 4 }
        }
    } else if cross == 0 {
        if dot >= 0 { 1 } else { 4 }
    } else {
        if dot < 0 {
            if -cross <= -dot { 5 } else { 6 }
        } else if dot == 0 {
            6
        } else {
            if -cross >= dot { 7 } else { 8 }
        }
    }
}

/// The dot product of two arms.
fn dot_of(a: Wide, b: Wide) -> (d: i128)
    requires
        within(a@, ARM as int),
        within(b@, ARM as int),
    ensures
        d == dot(a@, b@),
        -2 * ARM * ARM <= d <= 2 * ARM * ARM,
{
    let ax = a.x as i128;
    let ay = a.y as i128;
    let bx = b.x as i128;
    let by = b.y as i128;
    assert(-0x10_0000_0000 * 0x10_0000_0000 <= ax * bx <= 0x10_0000_0000 * 0x10_0000_0000)
        by (nonlinear_arith)
        requires
            -0x10_0000_0000 <= ax <= 0x10_0000_0000,
            -0x10_0000_0000 <= bx <= 0x10_0000_0000,
    ;
    assert(-0x10_0000_0000 * 0x10_0000_0000 <= ay * by <= 0x10_0000_0000 * 0x10_0000_0000)
        by (nonlinear_arith)
        requires
            -0x10_0000_0000 <= ay <= 0x10_0000_0000,
            -0x10_0000_0000 <= by <= 0x10_0000_0000,
    ;
    ax * bx + ay * by
}

/// The cross product of two arms, seen in the winding direction.
fn turn_of(a: Wide, b: Wide, winding: bool) -> (c: i128)
    requires
        within(a@, ARM as int),
        within(b@, ARM as int),
    ensures
        c == turn(a@, b@, winding),
        -2 * ARM * ARM <= c <= 2 * ARM * ARM,
{
    let ax = a.x as i128;
    let ay = a.y as i128;
    let bx = b.x as i128;
    let by = b.y as i128;
    assert(-0x10_0000_0000 * 0x10_0000_0000 <= ax * by <= 0x10_0000_0000 * 0x10_0000_0000)
        by (nonlinear_arith)
        requires
            -0x10_0000_0000 <= ax <= 0x10_0000_0000,
            -0x10_0000_0000 <= by <= 0x10_0000_0000,
    ;
    assert(-0x10_0000_0000 * 0x10_0000_0000 <= ay * bx <= 0x10_0000_0000 * 0x10_0000_0000)
        by (nonlinear_arith)
        requires
            -0x10_0000_0000 <= ay <= 0x10_0000_0000,
            -0x10_0000_0000 <= bx <= 0x10_0000_0000,
    ;
    if winding { ax * by - ay * bx } else { ay * bx - ax * by }
}

/// The vector from the centre to the middle of the arc from `a` to `b`.
fn middle_of(a: Wide, b: Wide, winding: bool, length: u64) -> (m: Wide)
    requires
        within(a@, ARM as int),
        within(b@, ARM as int),
        length <= REACH,
    ensures
        m@ == middle(a@, b@, winding, length as int),
        within(m@, REACH as int),
{
    let c = turn_of(a, b, winding);
    let w = Wide { x: a.x + b.x, y: a.y + b.y };
    if c > 0 || (c == 0 && dot_of(a, b) >= 0) {
        toward_of(w, length)
    } else if c < 0 {
        toward_of(Wide { x: -w.x, y: -w.y }, length)
    } else if winding {
        toward_of(Wide { x: -a.y, y: a.x }, length)
    } else {
        toward_of(Wide { x: a.y, y: -a.x }, length)
    }
}

/// Every arm of the list is at most `ARM` long in each coordinate.
pub open spec fn arms_within(arms: Seq<Wide>) -> bool {
    forall|i: int| 0 <= i < arms.len() ==> within((#[trigger] arms[i])@, ARM as int)
}

/// The views of a list of arms.
pub open spec fn arm_views(arms: Seq<Wide>) -> Seq<Vector> {
    Seq::new(arms.len(), |i: int| arms[i]@)
}

/// The arm at `num / den` of the way along the arc from `u` to `v`.
fn arm_between_of(u: Wide, v: Wide, num: u32, den: u32, length: u64) -> (r: Wide)
    requires
        within(u@, ARM as int),
        within(v@, ARM as int),
        num <= den <= 8,
        length <= REACH,
    ensures
        r@ == arm_between(u@, v@, num as int, den as int, length as int, DEPTH as int),
        within(r@, REACH as int),
{
    let mut u = u;
    let mut v = v;
    let mut num = num;
    let mut depth = DEPTH;
    let ghost goal = arm_between(u@, v@, num as int, den as int, length as int, DEPTH as int);
    while num > 0 && num < den && depth > 0
        invariant
            within(u@, ARM as int),
            within(v@, ARM as int),
            num <= den <= 8,
            length <= REACH,
            depth <= DEPTH,
            goal == arm_between(u@, v@, num as int, den as int, length as int, depth as int),
        decreases depth,
    {
        let m = toward_of(Wide { x: u.x + v.x, y: u.y + v.y }, length);
        if 2 * num < den {
            v = m;
            num = 2 * num;
        } else {
            u = m;
            num = 2 * num - den;
        }
        depth = depth - 1;
    }
    if num == 0 {
        toward_of(u, length)
    } else if num >= den {
        toward_of(v, length)
    } else {
        toward_of(Wide { x: u.x + v.x, y: u.y + v.y }, length)
    }
}

/// The vector from the centre to the point where the tangents meet.
fn pole_of(w: Wide, length: u64) -> (c: Wide)
    requires
        within(w@, SPAN as int),
        length <= SPAN,
    ensures
        c@ == pole(w@, length as int),
        within(c@, SPAN as int),
{
    let n = norm2_of(w);
    if n == 0 {
        w
    } else {
        let l = length as u128;
        assert(2 * l * l <= 2 * 0x40_0000_0000 * 0x40_0000_0000) by (nonlinear_arith)
            requires
                l <= 0x40_0000_0000,
        ;
        Wide { x: scale(w.x, 2 * l * l, n), y: scale(w.y, 2 * l * l, n) }
    }
}

/// One coordinate of the lattice point at an arm.
fn coordinate_at(from: i32, a: i64, p: i64) -> (c: i32)
    requires
        -SPAN <= a <= SPAN,
        -SPAN <= p <= SPAN,
    ensures
        c == clamped(from + (p - a) / 2),
{
    let shifted: u64 = (p - a + 0x100_0000_0000) as u64;
    let half: i64 = (shifted / 2) as i64 - 0x80_0000_0000;
    let v = from as i64 + half;
    if v < i32::MIN as i64 {
        i32::MIN
    } else if v > i32::MAX as i64 {
        i32::MAX
    } else {
        v as i32
    }
}

/// The point of the lattice at the arm `p`, where the arm `a` is at `from`.
fn point_of(from: Point, a: Wide, p: Wide) -> (r: Point)
    requires
        within(a@, SPAN as int),
        within(p@, SPAN as int),
    ensures
        r == point_at(from, a@, p@),
{
    Point { x: coordinate_at(from.x, a.x, p.x), y: coordinate_at(from.y, a.y, p.y) }
}

/// The arms of the points of an arc of `count` segments.
fn arms_of(a: Wide, b: Wide, winding: bool, length: u64, count: u8) -> (arms: Vec<Wide>)
    requires
        within(a@, ARM as int),
        within(b@, ARM as int),
        1 <= count <= 8,
        length <= REACH,
    ensures
        arm_views(arms@) == arc_arms(a@, b@, winding, length as int, count as int),
        arms@.len() == count + 1,
        arms_within(arms@),
{
    let mut arms: Vec<Wide> = Vec::new();
    arms.push(a);
    if count > 1 {
        let m = middle_of(a, b, winding, length);
        let mut k: u8 = 1;
        while k < count
            invariant
                1 <= k <= count <= 8,
                within(a@, ARM as int),
                within(b@, ARM as int),
                within(m@, REACH as int),
                m@ == middle(a@, b@, winding, length as int),
                length <= REACH,
                arms@.len() == k,
                arms_within(arms@),
                forall|i: int|
                    0 <= i < k ==> (#[trigger] arms@[i])@ == arc_arm(
                        a@,
                        b@,
                        winding,
                        length as int,
                        i,
                        count as int,
                    ),
            decreases count - k,
        {
            let arm = if 2 * k < count {
                arm_between_of(a, m, 2 * k as u32, count as u32, length)
            } else {
                arm_between_of(m, b, 2 * k as u32 - count as u32, count as u32, length)
            };
            arms.push(arm);
            k += 1;
        }
    }
    arms.push(b);
    assert(arm_views(arms@) =~= arc_arms(a@, b@, winding, length as int, count as int));
    arms
}

/// The segments of the arc from `from` to `to` on a circle of the given
/// radius.
pub fn arc_commands(from: Point, radius: u32, large_arc: bool, winding: bool, to: Point) -> (out:
    Vec<Command>)
    ensures
        out@ == arc_of(from, radius as int, large_arc, winding, to),
{
    let chord = Wide { x: to.x as i64 - from.x as i64, y: to.y as i64 - from.y as i64 };
    let mut out: Vec<Command> = Vec::new();
    if chord.x == 0 && chord.y == 0 {
        out.push(Command::Quad(to, to));
        assert(norm2(chord@) == 0) by (nonlinear_arith)
            requires
                chord.x == 0 && chord.y == 0,
        ;
        assert(out@ =~= arc_of(from, radius as int, large_arc, winding, to));
        return out;
    }
    assert(norm2(chord@) > 0) by (nonlinear_arith)
        requires
            chord.x != 0 || chord.y != 0,
    ;
    let a = start_arm_of(chord, radius, large_arc, winding);
    let b = Wide { x: a.x + 2 * chord.x, y: a.y + 2 * chord.y };
    let whole = isqrt(norm2_of(a));
    let length: u64 = if whole > REACH as u64 { REACH as u64 } else { whole };
    let count = eighths_of(dot_of(a, b), turn_of(a, b, winding));
    let arms = arms_of(a, b, winding, length, count);
    let ghost views = arm_views(arms@);
    let ghost target = arc_of(from, radius as int, large_arc, winding, to);
    let mut i: usize = 0;
    while i < count as usize
        invariant
            i <= count,
            count == eighths(dot(a@, b@), turn(a@, b@, winding)),
            arms@.len() == count + 1,
            arms_within(arms@),
            within(a@, ARM as int),
            length <= REACH,
            length == arm_length(a@),
            views == arm_views(arms@),
            views == arc_arms(a@, b@, winding, length as int, count as int),
            out@.len() == i,
            forall|k: int|
                0 <= k < i ==> #[trigger] out@[k] == Command::Quad(
                    point_at(from, a@, pole(sum(views[k], views[k + 1]), length as int)),
                    if k + 1 == count { to } else { point_at(from, a@, views[k + 1]) },
                ),
        decreases count - i,
    {
        let p = arms[i];
        let q = arms[i + 1];
        assert(within(p@, ARM as int) && within(q@, ARM as int));
        assert(views[i as int] == p@ && views[i + 1] == q@);
        let control = point_of(from, a, pole_of(Wide { x: p.x + q.x, y: p.y + q.y }, length));
        let end = if i + 1 == count as usize { to } else { point_of(from, a, q) };
        out.push(Command::Quad(control, end));
        i += 1;
    }
    proof {
        assert(chord@ == (Vector { x: to.x - from.x, y: to.y - from.y }));
        assert(b@ == end_arm(chord@, a@));
        assert(out@ =~= target);
    }
    out
}

} // verus!
