//! The quad that shows a path: the path's box under a linear map, widened
//! by at least half a pixel along each of its sides, and its corners as
//! they are drawn.

use vstd::prelude::*;
use crate::arc::norm2;
use crate::color::{linear_premul, Color};
use crate::geom::{
    isqrt, lemma_sqrt_floor_bound, sqrt_ceil, sqrt_floor, Extent, Point, Vector, Wide,
};
use crate::path::Path;

verus! {

/// A linear map of the plane, by its rows `a b` and `c d`, in 65536ths.
#[derive(Copy, Clone, Debug, PartialEq, Eq, Structural)]
pub struct Mat2x2 {
    pub a: i32,
    pub b: i32,
    pub c: i32,
    pub d: i32,
}

/// The four corners of a quad and their texture coordinates, the latter in
/// 65536ths: the box of the path lies between 0 and 65536.
#[derive(Copy, Clone, Debug, PartialEq, Eq)]
pub struct Quad {
    pub vertices: [Wide; 4],
    pub uv: [Wide; 4],
}

/// The longest that the widening of a quad gets, in each coordinate.
pub const MARGIN: i64 = 0x1000_0000_0000_0000;

/// The image of `(x, y)` under the map, rounded down.
pub open spec fn transformed(t: Mat2x2, x: int, y: int) -> Vector {
    Vector { x: (t.a * x + t.b * y) / 65536, y: (t.c * x + t.d * y) / 65536 }
}

/// `v * n / d`, rounded towards 0 and cut off at `MARGIN`; 0 where `d` is 0.
pub open spec fn grown(v: int, n: int, d: int) -> int {
    if d == 0 {
        0
    } else {
        let m = ((if v >= 0 { v } else { -v }) * n) / d;
        let m = if m > MARGIN { MARGIN as int } else { m };
        if v >= 0 { m } else { -m }
    }
}

/// `v * n / d`, rounded away from 0 and cut off at `MARGIN`; 0 where `d` is
/// 0.
pub open spec fn widened(v: int, n: int, d: int) -> int {
    if d == 0 {
        0
    } else {
        let m = ((if v >= 0 { v } else { -v }) * n + d - 1) / d;
        let m = if m > MARGIN { MARGIN as int } else { m };
        if v >= 0 { m } else { -m }
    }
}

/// `v * n / d`, rounded to the nearest whole and cut off at `MARGIN`; 0
/// where `d` is 0.
pub open spec fn rounded(v: int, n: int, d: int) -> int {
    if d == 0 {
        0
    } else {
        let m = (2 * (if v >= 0 { v } else { -v }) * n + d) / (2 * d);
        let m = if m > MARGIN { MARGIN as int } else { m };
        if v >= 0 { m } else { -m }
    }
}

/// The side of the box that goes along x, under the map.
pub open spec fn side1(size: Extent, t: Mat2x2) -> Vector {
    transformed(t, size.w as int, 0)
}

/// The side of the box that goes along y, under the map.
pub open spec fn side2(size: Extent, t: Mat2x2) -> Vector {
    transformed(t, 0, size.h as int)
}

/// The area of the box under the map.
pub open spec fn area_of(size: Extent, t: Mat2x2) -> int {
    let v1 = side1(size, t);
    let v2 = side2(size, t);
    let cross = v1.x * v2.y - v1.y * v2.x;
    if cross >= 0 { cross } else { -cross }
}

/// How far the quad reaches beyond the box along its first side: half a
/// pixel over the sine of the angle between the sides, each coordinate
/// rounded away from 0.
pub open spec fn push1(size: Extent, t: Mat2x2, pixel: int) -> Vector {
    let v1 = side1(size, t);
    let n = pixel * sqrt_ceil(norm2(side2(size, t)));
    let d = 2 * area_of(size, t);
    Vector { x: widened(v1.x, n, d), y: widened(v1.y, n, d) }
}

/// How far the quad reaches beyond the box along its second side.
pub open spec fn push2(size: Extent, t: Mat2x2, pixel: int) -> Vector {
    let v2 = side2(size, t);
    let n = pixel * sqrt_ceil(norm2(side1(size, t)));
    let d = 2 * area_of(size, t);
    Vector { x: widened(v2.x, n, d), y: widened(v2.y, n, d) }
}

/// The corners of the quad and their texture coordinates. The sides of the
/// box go to `v1` and `v2`; the quad reaches beyond the box by `d1` along
/// `v1` and by `d2` along `v2`, at both ends, which is `dx` and `dy` in
/// texture coordinates, rounded to the nearest 65536th. A box without area
/// is not widened.
pub open spec fn quad_of(
    offset: Point,
    size: Extent,
    position: Point,
    t: Mat2x2,
    pixel: int,
) -> (Seq<Vector>, Seq<Vector>) {
    let o = transformed(t, offset.x as int, offset.y as int);
    let p = Vector { x: position.x + o.x, y: position.y + o.y };
    let v1 = side1(size, t);
    let v2 = side2(size, t);
    let area = area_of(size, t);
    let d1 = push1(size, t, pixel);
    let d2 = push2(size, t, pixel);
    let dx = rounded(65536, pixel * sqrt_floor(norm2(v2)), 2 * area);
    let dy = rounded(65536, pixel * sqrt_floor(norm2(v1)), 2 * area);
    (
        seq![
            Vector { x: p.x - d1.x - d2.x, y: p.y - d1.y - d2.y },
            Vector { x: p.x + v1.x + d1.x - d2.x, y: p.y + v1.y + d1.y - d2.y },
            Vector { x: p.x + v1.x + d1.x + v2.x + d2.x, y: p.y + v1.y + d1.y + v2.y + d2.y },
            Vector { x: p.x - d1.x + v2.x + d2.x, y: p.y - d1.y + v2.y + d2.y },
        ],
        seq![
            Vector { x: -dx, y: -dy },
            Vector { x: 65536 + dx, y: -dy },
            Vector { x: 65536 + dx, y: 65536 + dy },
            Vector { x: -dx, y: 65536 + dy },
        ],
    )
}

/// One coordinate of a push, where it is not cut off, is at least as long
/// as the exact quotient.
proof fn lemma_widened(v: int, n: int, d: int)
    requires
        n >= 0,
        d > 0,
        -MARGIN < widened(v, n, d) < MARGIN,
    ensures
        widened(v, n, d) * widened(v, n, d) * (d * d) >= (v * v) * (n * n),
{
    let x = if v >= 0 { v } else { -v };
    let m = (x * n + d - 1) / d;
    assert(m * d >= x * n && m >= 0) by (nonlinear_arith)
        requires
            m == (x * n + d - 1) / d,
            x * n >= 0,
            d > 0,
    {
        assert(0 <= x * n);
    }
    assert(x * n >= 0) by (nonlinear_arith)
        requires
            x >= 0,
            n >= 0,
    ;
    let w = widened(v, n, d);
    assert(w == m || w == -m);
    assert(w * w == m * m) by (nonlinear_arith)
        requires
            w == m || w == -m,
    ;
    assert((m * d) * (m * d) >= (x * n) * (x * n)) by (nonlinear_arith)
        requires
            m * d >= x * n,
            x * n >= 0,
    ;
    assert((m * d) * (m * d) == m * m * (d * d)) by (nonlinear_arith);
    assert((x * n) * (x * n) == (v * v) * (n * n)) by (nonlinear_arith)
        requires
            x == v || x == -v,
    ;
}

/// The guard band: where the box has an area and the pushes are not cut
/// off, the quad reaches beyond the box, along each side, by at least half a
/// pixel over the sine of the angle between the sides, and so by at least
/// half a pixel.
pub proof fn lemma_guard_band(size: Extent, t: Mat2x2, pixel: int)
    requires
        pixel >= 0,
        area_of(size, t) > 0,
        -MARGIN < push1(size, t, pixel).x < MARGIN,
        -MARGIN < push1(size, t, pixel).y < MARGIN,
        -MARGIN < push2(size, t, pixel).x < MARGIN,
        -MARGIN < push2(size, t, pixel).y < MARGIN,
    ensures
        ({
            let a2 = 2 * area_of(size, t);
            let both = norm2(side1(size, t)) * norm2(side2(size, t));
            &&& norm2(push1(size, t, pixel)) * (a2 * a2) >= pixel * pixel * both
            &&& norm2(push2(size, t, pixel)) * (a2 * a2) >= pixel * pixel * both
            &&& 4 * norm2(push1(size, t, pixel)) >= pixel * pixel
            &&& 4 * norm2(push2(size, t, pixel)) >= pixel * pixel
        }),
{
    let v1 = side1(size, t);
    let v2 = side2(size, t);
    let area = area_of(size, t);
    let a2 = 2 * area;
    let n1 = norm2(v1);
    let n2 = norm2(v2);
    assert(n1 >= 0 && n2 >= 0) by (nonlinear_arith)
        requires
            n1 == v1.x * v1.x + v1.y * v1.y,
            n2 == v2.x * v2.x + v2.y * v2.y,
    ;
    crate::geom::lemma_sqrt_exists(n1);
    crate::geom::lemma_sqrt_exists(n2);
    let c1 = sqrt_ceil(n1);
    let c2 = sqrt_ceil(n2);
    assert(c1 * c1 >= n1 && c1 >= 0) by (nonlinear_arith)
        requires
            crate::geom::is_sqrt_floor(n1, sqrt_floor(n1)),
            c1 == sqrt_ceil(n1),
    ;
    assert(c2 * c2 >= n2 && c2 >= 0) by (nonlinear_arith)
        requires
            crate::geom::is_sqrt_floor(n2, sqrt_floor(n2)),
            c2 == sqrt_ceil(n2),
    ;
    lemma_area_and_sides(v1.x, v1.y, v2.x, v2.y);
    assert(area * area == (v1.x * v2.y - v1.y * v2.x) * (v1.x * v2.y - v1.y * v2.x))
        by (nonlinear_arith)
        requires
            area == v1.x * v2.y - v1.y * v2.x || area == -(v1.x * v2.y - v1.y * v2.x),
    ;
    lemma_push(v1, pixel, c2, n2, a2);
    lemma_push(v2, pixel, c1, n1, a2);
    let p1 = norm2(push1(size, t, pixel));
    let p2 = norm2(push2(size, t, pixel));
    assert(n2 * n1 == n1 * n2) by (nonlinear_arith);
    lemma_half_pixel(p1, pixel, n1 * n2, area);
    lemma_half_pixel(p2, pixel, n1 * n2, area);
}

/// The product of the squared lengths of two vectors is at least the square
/// of their cross product.
proof fn lemma_area_and_sides(a: int, b: int, c: int, d: int)
    ensures
        (a * a + b * b) * (c * c + d * d) >= (a * d - b * c) * (a * d - b * c),
{
    let p = a * d;
    let q = b * c;
    let r = a * c;
    let t = b * d;
    let aa = a * a;
    let bb = b * b;
    let cc = c * c;
    let dd = d * d;
    assert((aa + bb) * (cc + dd) == aa * cc + aa * dd + bb * cc + bb * dd) by (nonlinear_arith);
    assert(aa * cc == r * r) by (nonlinear_arith)
        requires
            aa == a * a,
            cc == c * c,
            r == a * c,
    ;
    assert(aa * dd == p * p) by (nonlinear_arith)
        requires
            aa == a * a,
            dd == d * d,
            p == a * d,
    ;
    assert(bb * cc == q * q) by (nonlinear_arith)
        requires
            bb == b * b,
            cc == c * c,
            q == b * c,
    ;
    assert(bb * dd == t * t) by (nonlinear_arith)
        requires
            bb == b * b,
            dd == d * d,
            t == b * d,
    ;
    assert(p * q == r * t) by (nonlinear_arith)
        requires
            p == a * d,
            q == b * c,
            r == a * c,
            t == b * d,
    ;
    assert((p - q) * (p - q) == p * p - 2 * (p * q) + q * q) by (nonlinear_arith);
    assert((r + t) * (r + t) == r * r + 2 * (r * t) + t * t) by (nonlinear_arith);
    assert((r + t) * (r + t) >= 0) by (nonlinear_arith);
}

/// A push along `v`, where it is not cut off, is at least as long as `v`
/// times `pixel` times the other side's length over `d`.
proof fn lemma_push(v: Vector, pixel: int, c: int, n: int, d: int)
    requires
        pixel >= 0,
        c >= 0,
        c * c >= n,
        n >= 0,
        d > 0,
        -MARGIN < widened(v.x, pixel * c, d) < MARGIN,
        -MARGIN < widened(v.y, pixel * c, d) < MARGIN,
    ensures
        (widened(v.x, pixel * c, d) * widened(v.x, pixel * c, d) + widened(v.y, pixel * c, d)
            * widened(v.y, pixel * c, d)) * (d * d) >= pixel * pixel * (norm2(v) * n),
{
    let k = pixel * c;
    assert(k >= 0) by (nonlinear_arith)
        requires
            k == pixel * c,
            pixel >= 0,
            c >= 0,
    ;
    lemma_widened(v.x, k, d);
    lemma_widened(v.y, k, d);
    let wx = widened(v.x, k, d);
    let wy = widened(v.y, k, d);
    let xx = v.x * v.x;
    let yy = v.y * v.y;
    assert(k * k >= pixel * pixel * n) by (nonlinear_arith)
        requires
            k == pixel * c,
            c * c >= n,
            pixel >= 0,
    {
        assert(k * k == pixel * pixel * (c * c));
    }
    assert(xx >= 0 && yy >= 0) by (nonlinear_arith)
        requires
            xx == v.x * v.x,
            yy == v.y * v.y,
    ;
    assert((wx * wx + wy * wy) * (d * d) >= (xx + yy) * (k * k)) by (nonlinear_arith)
        requires
            wx * wx * (d * d) >= xx * (k * k),
            wy * wy * (d * d) >= yy * (k * k),
    ;
    assert((xx + yy) * (k * k) >= pixel * pixel * ((xx + yy) * n)) by (nonlinear_arith)
        requires
            k * k >= pixel * pixel * n,
            xx + yy >= 0,
    ;
}

/// A push that is at least as long as `pixel` times both sides over twice
/// the area is at least half a pixel long.
proof fn lemma_half_pixel(p: int, pixel: int, both: int, area: int)
    requires
        area > 0,
        both >= area * area,
        p * ((2 * area) * (2 * area)) >= pixel * pixel * both,
    ensures
        4 * p >= pixel * pixel,
{
    let q = pixel * pixel;
    let aa = area * area;
    assert(q >= 0) by (nonlinear_arith)
        requires
            q == pixel * pixel,
    ;
    assert(aa > 0) by (nonlinear_arith)
        requires
            aa == area * area,
            area > 0,
    ;
    assert((2 * area) * (2 * area) == 4 * aa) by (nonlinear_arith)
        requires
            aa == area * area,
    ;
    assert(q * both >= q * aa) by (nonlinear_arith)
        requires
            both >= aa,
            q >= 0,
    ;
    assert(4 * p >= q) by (nonlinear_arith)
        requires
            p * (4 * aa) >= q * aa,
            aa > 0,
    ;
}

/// The views of four vectors.
pub open spec fn views_of(v: [Wide; 4]) -> Seq<Vector> {
    seq![v[0]@, v[1]@, v[2]@, v[3]@]
}

/// One coordinate of the image of `(x, y)` under one row of a map.
fn row_of(a: i32, b: i32, x: i64, y: i64) -> (r: i64)
    requires
        -0x1_0000_0000 <= x <= 0x1_0000_0000,
        -0x1_0000_0000 <= y <= 0x1_0000_0000,
    ensures
        r == (a * x + b * y) / 65536,
        -0x2_0000_0000_0000 <= r <= 0x2_0000_0000_0000,
{
    assert(-0x8000_0000 * 0x1_0000_0000 <= a * x <= 0x8000_0000 * 0x1_0000_0000) by (nonlinear_arith)
        requires
            -0x8000_0000 <= a <= 0x8000_0000,
            -0x1_0000_0000 <= x <= 0x1_0000_0000,
    ;
    assert(-0x8000_0000 * 0x1_0000_0000 <= b * y <= 0x8000_0000 * 0x1_0000_0000) by (nonlinear_arith)
        requires
            -0x8000_0000 <= b <= 0x8000_0000,
            -0x1_0000_0000 <= y <= 0x1_0000_0000,
    ;
    let ax = a as i128 * x as i128;
    let by = b as i128 * y as i128;
    let n = ax + by;
    let shifted: u128 = (n + 0x1_0000_0000_0000_0000_0000) as u128;
    let q = shifted / 65536;
    assert(q == n / 65536 + 0x1_0000_0000_0000_0000);
    (q as i128 - 0x1_0000_0000_0000_0000) as i64
}

/// The image of `(x, y)` under the map.
fn transform(t: Mat2x2, x: i64, y: i64) -> (v: Wide)
    requires
        -0x1_0000_0000 <= x <= 0x1_0000_0000,
        -0x1_0000_0000 <= y <= 0x1_0000_0000,
    ensures
        v@ == transformed(t, x as int, y as int),
        -0x2_0000_0000_0000 <= v.x <= 0x2_0000_0000_0000,
        -0x2_0000_0000_0000 <= v.y <= 0x2_0000_0000_0000,
{
    Wide { x: row_of(t.a, t.b, x, y), y: row_of(t.c, t.d, x, y) }
}

/// `v * n / d`, rounded away from 0 and cut off at `MARGIN`.
fn widen(v: i64, n: u128, d: u128) -> (r: i64)
    requires
        -0x2_0000_0000_0000 <= v <= 0x2_0000_0000_0000,
        n <= 0x10_0000_0000_0000_0000,
        d <= 0x1_0000_0000_0000_0000_0000_0000_0000,
    ensures
        r == widened(v as int, n as int, d as int),
        -MARGIN <= r <= MARGIN,
{
    if d == 0 {
        return 0;
    }
    let m: u128 = if v >= 0 { v as u128 } else { (-v) as u128 };
    assert(m * n <= 0x2_0000_0000_0000 * 0x10_0000_0000_0000_0000) by (nonlinear_arith)
        requires
            m <= 0x2_0000_0000_0000,
            n <= 0x10_0000_0000_0000_0000,
    ;
    let q = (m * n + d - 1) / d;
    let q: i64 = if q > MARGIN as u128 { MARGIN } else { q as i64 };
    if v >= 0 { q } else { -q }
}

/// `v * n / d`, rounded to the nearest whole and cut off at `MARGIN`.
fn round(v: i64, n: u128, d: u128) -> (r: i64)
    requires
        -0x2_0000_0000_0000 <= v <= 0x2_0000_0000_0000,
        n <= 0x10_0000_0000_0000_0000,
        d <= 0x1_0000_0000_0000_0000_0000_0000_0000,
    ensures
        r == rounded(v as int, n as int, d as int),
        -MARGIN <= r <= MARGIN,
{
    if d == 0 {
        return 0;
    }
    let m: u128 = if v >= 0 { v as u128 } else { (-v) as u128 };
    assert(m * n <= 0x2_0000_0000_0000 * 0x10_0000_0000_0000_0000) by (nonlinear_arith)
        requires
            m <= 0x2_0000_0000_0000,
            n <= 0x10_0000_0000_0000_0000,
    ;
    let mn = m * n;
    assert(2 * m * n == 2 * mn) by (nonlinear_arith)
        requires
            mn == m * n,
    ;
    let q = (2 * mn + d) / (2 * d);
    let q: i64 = if q > MARGIN as u128 { MARGIN } else { q as i64 };
    if v >= 0 { q } else { -q }
}

/// The length of a side, rounded down and rounded up.
fn lengths_of(v: Wide) -> (l: (u64, u64))
    requires
        -0x2_0000_0000_0000 <= v.x <= 0x2_0000_0000_0000,
        -0x2_0000_0000_0000 <= v.y <= 0x2_0000_0000_0000,
    ensures
        l.0 == sqrt_floor(norm2(v@)),
        l.1 == sqrt_ceil(norm2(v@)),
        l.1 <= 0x4_0000_0000_0001,
{
    let x: u128 = if v.x >= 0 { v.x as u128 } else { (-v.x) as u128 };
    let y: u128 = if v.y >= 0 { v.y as u128 } else { (-v.y) as u128 };
    assert(x * x <= 0x2_0000_0000_0000 * 0x2_0000_0000_0000 && x * x == v.x * v.x)
        by (nonlinear_arith)
        requires
            x <= 0x2_0000_0000_0000,
            x == v.x || x == -v.x,
    ;
    assert(y * y <= 0x2_0000_0000_0000 * 0x2_0000_0000_0000 && y * y == v.y * v.y)
        by (nonlinear_arith)
        requires
            y <= 0x2_0000_0000_0000,
            y == v.y || y == -v.y,
    ;
    proof {
        lemma_sqrt_floor_bound(norm2(v@), 0x4_0000_0000_0000);
    }
    let n = x * x + y * y;
    let l = isqrt(n);
    assert(l * l <= 0x4_0000_0000_0000 * 0x4_0000_0000_0000) by (nonlinear_arith)
        requires
            l <= 0x4_0000_0000_0000,
    ;
    if (l as u128) * (l as u128) == n {
        (l, l)
    } else {
        (l, l + 1)
    }
}

/// One coordinate in normalized device coordinates.
fn ndc_coord(numer: i128, extent: u32) -> (r: i64)
    requires
        -0x4_0000_0000_0000_0000 <= numer <= 0x4_0000_0000_0000_0000,
    ensures
        r == grown(numer as int, 0x4000_0000, extent as int),
{
    if extent == 0 {
        return 0;
    }
    let m: u128 = if numer >= 0 { numer as u128 } else { (-numer) as u128 };
    let q = m * 0x4000_0000 / extent as u128;
    let q: i64 = if q > MARGIN as u128 { MARGIN } else { q as i64 };
    if numer >= 0 { q } else { -q }
}

/// Maps a point of a viewport, counted in units of the lattice from the top
/// left, to normalized device coordinates in 2 to the 30th parts: the
/// viewport goes from -1 on the left to 1 on the right and from 1 at the
/// top to -1 at the bottom. A viewport without extent maps everything to 0.
pub fn pixel_to_ndc(v: Wide, width: u32, height: u32) -> (r: Wide)
    ensures
        r@ == ndc_of(v@, width as int, height as int),
        r.x == grown(2 * v.x - width, 0x4000_0000, width as int),
        r.y == grown(height - 2 * v.y, 0x4000_0000, height as int),
{
    Wide {
        x: ndc_coord(2 * v.x as i128 - width as i128, width),
        y: ndc_coord(height as i128 - 2 * v.y as i128, height),
    }
}

/// A corner of a quad as it is drawn: its place in normalized device
/// coordinates, in 2 to the 30th parts; its colour in linear light,
/// multiplied by alpha, in 65535ths; and its texture coordinate, in 65536ths.
#[derive(Copy, Clone, Debug, PartialEq, Eq)]
pub struct Corner {
    pub pos: Wide,
    pub col: [u16; 4],
    pub uv: Wide,
}

/// The normalized device coordinates of a point of a viewport.
pub open spec fn ndc_of(v: Vector, width: int, height: int) -> Vector {
    Vector {
        x: grown(2 * v.x - width, 0x4000_0000, width),
        y: grown(height - 2 * v.y, 0x4000_0000, height),
    }
}

/// The corner is the corner `i` of the quad that shows a path with the
/// given box, seen in a viewport of `width` by `height` units, in the given
/// colour.
pub open spec fn is_corner(
    corner: Corner,
    i: int,
    offset: Point,
    size: Extent,
    position: Point,
    t: Mat2x2,
    pixel: int,
    width: int,
    height: int,
    color: Color,
) -> bool {
    let quad = quad_of(offset, size, position, t, pixel);
    &&& corner.pos@ == ndc_of(quad.0[i], width, height)
    &&& corner.col@ == linear_premul(color)
    &&& corner.uv@ == quad.1[i]
}

/// The four corners of the quad that shows a path, as they are drawn: the
/// corners of `get_quad`, mapped to normalized device coordinates of a
/// viewport of `width` by `height` units of the lattice, each with its
/// texture coordinate and with the colour in linear light.
pub fn corners(
    path: &Path,
    position: Point,
    transform: Mat2x2,
    pixel: u16,
    width: u32,
    height: u32,
    color: Color,
) -> (c: [Corner; 4])
    ensures
        forall|i: int|
            0 <= i < 4 ==> is_corner(
                #[trigger] c[i],
                i,
                path.offset,
                path.size,
                position,
                transform,
                pixel as int,
                width as int,
                height as int,
                color,
            ),
{
    let quad = path.get_quad(position, transform, pixel);
    let col = color.to_linear_premul();
    let c = [
        Corner { pos: pixel_to_ndc(quad.vertices[0], width, height), col, uv: quad.uv[0] },
        Corner { pos: pixel_to_ndc(quad.vertices[1], width, height), col, uv: quad.uv[1] },
        Corner { pos: pixel_to_ndc(quad.vertices[2], width, height), col, uv: quad.uv[2] },
        Corner { pos: pixel_to_ndc(quad.vertices[3], width, height), col, uv: quad.uv[3] },
    ];
    proof {
        let target = quad_of(path.offset, path.size, position, transform, pixel as int);
        assert(views_of(quad.vertices) == target.0);
        assert(views_of(quad.uv) == target.1);
        assert forall|i: int| 0 <= i < 4 implies is_corner(
            #[trigger] c[i],
            i,
            path.offset,
            path.size,
            position,
            transform,
            pixel as int,
            width as int,
            height as int,
            color,
        ) by {
            assert(views_of(quad.vertices)[i] == quad.vertices[i]@);
            assert(views_of(quad.uv)[i] == quad.uv[i]@);
        }
    }
    c
}

impl Path {
    /// The quad that shows the path where `position` and the map `transform`
    /// put it: the box of the path, widened by half a pixel along each side
    /// so that the edge of the shape has room to fade out. A pixel is
    /// `pixel` units of the lattice wide.
    pub fn get_quad(&self, position: Point, transform: Mat2x2, pixel: u16) -> (quad: Quad)
        ensures
            views_of(quad.vertices) == quad_of(
                self.offset,
                self.size,
                position,
                transform,
                pixel as int,
            ).0,
            views_of(quad.uv) == quad_of(self.offset, self.size, position, transform, pixel as int).1,
    {
        let o = self::transform(transform, self.offset.x as i64, self.offset.y as i64);
        let p = Wide { x: position.x as i64 + o.x, y: position.y as i64 + o.y };
        let v1 = self::transform(transform, self.size.w as i64, 0);
        let v2 = self::transform(transform, 0, self.size.h as i64);
        assert(-0x2_0000_0000_0000 * 0x2_0000_0000_0000 <= v1.x * v2.y <= 0x2_0000_0000_0000
            * 0x2_0000_0000_0000) by (nonlinear_arith)
            requires
                -0x2_0000_0000_0000 <= v1.x <= 0x2_0000_0000_0000,
                -0x2_0000_0000_0000 <= v2.y <= 0x2_0000_0000_0000,
        ;
        assert(-0x2_0000_0000_0000 * 0x2_0000_0000_0000 <= v1.y * v2.x <= 0x2_0000_0000_0000
            * 0x2_0000_0000_0000) by (nonlinear_arith)
            requires
                -0x2_0000_0000_0000 <= v1.y <= 0x2_0000_0000_0000,
                -0x2_0000_0000_0000 <= v2.x <= 0x2_0000_0000_0000,
        ;
        let a = v1.x as i128 * v2.y as i128;
        let b = v1.y as i128 * v2.x as i128;
        let cross = a - b;
        let area: u128 = if cross >= 0 { cross as u128 } else { (-cross) as u128 };
        let (l1, c1) = lengths_of(v1);
        let (l2, c2) = lengths_of(v2);
        let (l1, c1, l2, c2) = (l1 as u128, c1 as u128, l2 as u128, c2 as u128);
        let px = pixel as u128;
        assert(px * c1 <= 0xffff * 0x4_0000_0000_0001 && px * c2 <= 0xffff * 0x4_0000_0000_0001
            && px * l1 <= 0xffff * 0x4_0000_0000_0001 && px * l2 <= 0xffff * 0x4_0000_0000_0001)
            by (nonlinear_arith)
            requires
                px <= 0xffff,
                l1 <= c1 <= 0x4_0000_0000_0001,
                l2 <= c2 <= 0x4_0000_0000_0001,
        ;
        let d1 = Wide { x: widen(v1.x, px * c2, 2 * area), y: widen(v1.y, px * c2, 2 * area) };
        let d2 = Wide { x: widen(v2.x, px * c1, 2 * area), y: widen(v2.y, px * c1, 2 * area) };
        let dx = round(65536, px * l2, 2 * area);
        let dy = round(65536, px * l1, 2 * area);
        let vertices = [
            Wide { x: p.x - d1.x - d2.x, y: p.y - d1.y - d2.y },
            Wide { x: p.x + v1.x + d1.x - d2.x, y: p.y + v1.y + d1.y - d2.y },
            Wide { x: p.x + v1.x + d1.x + v2.x + d2.x, y: p.y + v1.y + d1.y + v2.y + d2.y },
            Wide { x: p.x - d1.x + v2.x + d2.x, y: p.y - d1.y + v2.y + d2.y },
        ];
        let uv = [
            Wide { x: -dx, y: -dy },
            Wide { x: 65536 + dx, y: -dy },
            Wide { x: 65536 + dx, y: 65536 + dy },
            Wide { x: -dx, y: 65536 + dy },
        ];
        let quad = Quad { vertices, uv };
        proof {
            let target = quad_of(self.offset, self.size, position, transform, pixel as int);
            assert(views_of(quad.vertices) =~= target.0);
            assert(views_of(quad.uv) =~= target.1);
        }
        quad
    }
}

} // verus!
