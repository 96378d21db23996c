//! The geometry kernel: lattice points, fractions, square roots and scaled
//! vectors, all in integers.

use vstd::prelude::*;

verus! {

/// A point of the integer lattice.
#[derive(Copy, Clone, Debug, PartialEq, Eq, Structural)]
pub struct Point {
    pub x: i32,
    pub y: i32,
}

/// A vector of the lattice: a point, seen from the origin.
pub type Vec2 = Point;

/// The extent of an axis-aligned box.
#[derive(Copy, Clone, Debug, PartialEq, Eq, Structural)]
pub struct Extent {
    pub w: u32,
    pub h: u32,
}

/// A vector with integer coordinates of any size.
pub struct Vector {
    pub x: int,
    pub y: int,
}

/// A vector with coordinates of 64 bits: a sum or a multiple of lattice
/// vectors.
#[derive(Copy, Clone, Debug, PartialEq, Eq, Structural)]
pub struct Wide {
    pub x: i64,
    pub y: i64,
}

impl View for Wide {
    type V = Vector;

    open spec fn view(&self) -> Vector {
        Vector { x: self.x as int, y: self.y as int }
    }
}

/// The largest denominator of a [`Ratio`].
pub const MAX_DEN: u128 = 0x4_0000_0000_0000_0000;

/// A curve parameter in `[0, 1]`, held as the fraction `num / den`.
#[derive(Copy, Clone, Debug)]
pub struct Ratio {
    pub num: u128,
    pub den: u128,
}

impl Ratio {
    /// A fraction in `[0, 1]` whose denominator is positive and at most [`MAX_DEN`].
    pub open spec fn wf(self) -> bool {
        &&& 0 < self.den <= MAX_DEN
        &&& self.num <= self.den
    }
}

/// The smaller of two integers.
pub open spec fn min_int(a: int, b: int) -> int {
    if a <= b { a } else { b }
}

/// The larger of two integers.
pub open spec fn max_int(a: int, b: int) -> int {
    if a >= b { a } else { b }
}

/// Linear interpolation from `a` towards `b` at `n / d`, rounded towards `a`.
pub open spec fn lerp_int(a: int, b: int, n: int, d: int) -> int {
    if b >= a {
        a + ((b - a) * n) / d
    } else {
        a - ((a - b) * n) / d
    }
}

/// The midpoint of `a` and `b`, rounded down.
pub open spec fn mid_int(a: int, b: int) -> int {
    (a + b) / 2
}

/// An interpolated value lies between its two ends.
pub proof fn lemma_lerp_between(a: int, b: int, n: int, d: int)
    requires
        0 <= n <= d,
        0 < d,
    ensures
        min_int(a, b) <= lerp_int(a, b, n, d) <= max_int(a, b),
{
    if b >= a {
        let k = b - a;
        assert(0 <= (k * n) / d <= k) by (nonlinear_arith)
            requires
                0 <= n <= d,
                0 < d,
                0 <= k,
        ;
    } else {
        let k = a - b;
        assert(0 <= (k * n) / d <= k) by (nonlinear_arith)
            requires
                0 <= n <= d,
                0 < d,
                0 <= k,
        ;
    }
}

/// Interpolates one coordinate.
pub fn lerp_coord(a: i32, b: i32, t: Ratio) -> (r: i32)
    requires
        t.wf(),
    ensures
        r == lerp_int(a as int, b as int, t.num as int, t.den as int),
{
    proof {
        lemma_lerp_between(a as int, b as int, t.num as int, t.den as int);
    }
    if b >= a {
        let k: u128 = (b as i64 - a as i64) as u128;
        assert(k * t.num <= 0x1_0000_0000 * 0x4_0000_0000_0000_0000) by (nonlinear_arith)
            requires
                k < 0x1_0000_0000,
                t.num <= 0x4_0000_0000_0000_0000,
        ;
        let q: u128 = k * t.num / t.den;
        (a as i64 + q as i64) as i32
    } else {
        let k: u128 = (a as i64 - b as i64) as u128;
        assert(k * t.num <= 0x1_0000_0000 * 0x4_0000_0000_0000_0000) by (nonlinear_arith)
            requires
                k < 0x1_0000_0000,
                t.num <= 0x4_0000_0000_0000_0000,
        ;
        let q: u128 = k * t.num / t.den;
        (a as i64 - q as i64) as i32
    }
}

/// The midpoint of two coordinates, rounded down.
pub fn mid_coord(a: i32, b: i32) -> (r: i32)
    ensures
        r == mid_int(a as int, b as int),
{
    let s: u64 = (a as i64 + b as i64 + 0x1_0000_0000) as u64;
    let h: u64 = s / 2;
    (h as i64 - 0x8000_0000) as i32
}

impl Point {
    /// The point `(x, y)`.
    pub fn new(x: i32, y: i32) -> (p: Point)
        ensures
            p == (Point { x, y }),
    {
        Point { x, y }
    }

    /// The interpolation of two points, coordinate by coordinate.
    pub open spec fn spec_lerp(t: Ratio, a: Point, b: Point) -> Point {
        Point {
            x: lerp_int(a.x as int, b.x as int, t.num as int, t.den as int) as i32,
            y: lerp_int(a.y as int, b.y as int, t.num as int, t.den as int) as i32,
        }
    }

    /// The point at parameter `t` on the way from `a` to `b`.
    pub fn lerp(t: Ratio, a: Point, b: Point) -> (p: Point)
        requires
            t.wf(),
        ensures
            p == Point::spec_lerp(t, a, b),
            p.x == lerp_int(a.x as int, b.x as int, t.num as int, t.den as int),
            p.y == lerp_int(a.y as int, b.y as int, t.num as int, t.den as int),
    {
        Point { x: lerp_coord(a.x, b.x, t), y: lerp_coord(a.y, b.y, t) }
    }

    /// The midpoint of two points, each coordinate rounded down.
    pub open spec fn spec_midpoint(a: Point, b: Point) -> Point {
        Point {
            x: mid_int(a.x as int, b.x as int) as i32,
            y: mid_int(a.y as int, b.y as int) as i32,
        }
    }

    /// The midpoint of `a` and `b`.
    pub fn midpoint(a: Point, b: Point) -> (p: Point)
        ensures
            p == Point::spec_midpoint(a, b),
            p.x == mid_int(a.x as int, b.x as int),
            p.y == mid_int(a.y as int, b.y as int),
    {
        Point { x: mid_coord(a.x, b.x), y: mid_coord(a.y, b.y) }
    }

    /// The dot product of two points, taken as vectors.
    pub fn dot(a: Point, b: Point) -> (d: i128)
        ensures
            d == a.x * b.x + a.y * b.y,
    {
        assert(-0x8000_0000 * 0x8000_0000 <= a.x * b.x <= 0x8000_0000 * 0x8000_0000)
            by (nonlinear_arith)
            requires
                -0x8000_0000 <= a.x <= 0x8000_0000,
                -0x8000_0000 <= b.x <= 0x8000_0000,
        ;
        assert(-0x8000_0000 * 0x8000_0000 <= a.y * b.y <= 0x8000_0000 * 0x8000_0000)
            by (nonlinear_arith)
            requires
                -0x8000_0000 <= a.y <= 0x8000_0000,
                -0x8000_0000 <= b.y <= 0x8000_0000,
        ;
        a.x as i128 * b.x as i128 + a.y as i128 * b.y as i128
    }

    /// The cross product of two points, taken as vectors.
    pub fn cross(a: Point, b: Point) -> (c: i128)
        ensures
            c == a.x * b.y - a.y * b.x,
    {
        assert(-0x8000_0000 * 0x8000_0000 <= a.x * b.y <= 0x8000_0000 * 0x8000_0000)
            by (nonlinear_arith)
            requires
                -0x8000_0000 <= a.x <= 0x8000_0000,
                -0x8000_0000 <= b.y <= 0x8000_0000,
        ;
        assert(-0x8000_0000 * 0x8000_0000 <= a.y * b.x <= 0x8000_0000 * 0x8000_0000)
            by (nonlinear_arith)
            requires
                -0x8000_0000 <= a.y <= 0x8000_0000,
                -0x8000_0000 <= b.x <= 0x8000_0000,
        ;
        a.x as i128 * b.y as i128 - a.y as i128 * b.x as i128
    }
}

/// `r` is the square root of `n`, rounded down.
pub open spec fn is_sqrt_floor(n: int, r: int) -> bool {
    0 <= r && r * r <= n < (r + 1) * (r + 1)
}

/// The square root of `n`, rounded down.
pub open spec fn sqrt_floor(n: int) -> int {
    choose|r: int| is_sqrt_floor(n, r)
}

/// The square root of `n`, rounded up.
pub open spec fn sqrt_ceil(n: int) -> int {
    let r = sqrt_floor(n);
    if r * r == n { r } else { r + 1 }
}

/// Only one number is the square root of `n`, rounded down.
pub proof fn lemma_sqrt_floor_unique(n: int, r: int)
    requires
        is_sqrt_floor(n, r),
    ensures
        sqrt_floor(n) == r,
{
    let s = sqrt_floor(n);
    assert(is_sqrt_floor(n, s));
    if s < r {
        assert((s + 1) * (s + 1) <= r * r) by (nonlinear_arith)
            requires
                0 <= s,
                s + 1 <= r,
        ;
    } else if r < s {
        assert((r + 1) * (r + 1) <= s * s) by (nonlinear_arith)
            requires
                0 <= r,
                r + 1 <= s,
        ;
    }
}

/// A square root is at most as large as a bound whose square is at least
/// the number.
pub proof fn lemma_sqrt_floor_bound(n: int, bound: int)
    requires
        0 <= n <= bound * bound,
        0 <= bound,
    ensures
        0 <= sqrt_floor(n) <= bound,
        is_sqrt_floor(n, sqrt_floor(n)),
{
    lemma_sqrt_exists(n);
    let s = sqrt_floor(n);
    if s > bound {
        assert(s * s > bound * bound) by (nonlinear_arith)
            requires
                s > bound,
                bound >= 0,
        ;
    }
}

/// Every number from 0 on has a square root, rounded down.
pub proof fn lemma_sqrt_exists(n: int)
    requires
        0 <= n,
    ensures
        is_sqrt_floor(n, sqrt_floor(n)),
    decreases n,
{
    if n == 0 {
        assert(is_sqrt_floor(0, 0));
    } else {
        lemma_sqrt_exists(n - 1);
        let r = sqrt_floor(n - 1);
        if n < (r + 1) * (r + 1) {
            assert(is_sqrt_floor(n, r));
        } else {
            assert(is_sqrt_floor(n, r + 1)) by (nonlinear_arith)
                requires
                    0 <= r,
                    r * r <= n - 1 < (r + 1) * (r + 1),
                    n >= (r + 1) * (r + 1),
            ;
        }
    }
}

/// The square root of `n`, rounded down.
pub fn isqrt(n: u128) -> (r: u64)
    ensures
        is_sqrt_floor(n as int, r as int),
        r == sqrt_floor(n as int),
{
    let mut lo: u128 = 0;
    let mut hi: u128 = 0x1_0000_0000_0000_0000;
    while hi - lo > 1
        invariant
            lo < hi <= 0x1_0000_0000_0000_0000,
            lo * lo <= n,
            hi == 0x1_0000_0000_0000_0000 || n < hi * hi,
        decreases hi - lo,
    {
        let mid = lo + (hi - lo) / 2;
        assert(mid * mid <= 0xffff_ffff_ffff_ffff * 0xffff_ffff_ffff_ffff) by (nonlinear_arith)
            requires
                mid <= 0xffff_ffff_ffff_ffff,
        ;
        if mid * mid <= n {
            lo = mid;
        } else {
            hi = mid;
        }
    }
    proof {
        if hi == 0x1_0000_0000_0000_0000 {
            assert((lo + 1) * (lo + 1) == 0x1_0000_0000_0000_0000 * 0x1_0000_0000_0000_0000)
                by (nonlinear_arith)
                requires
                    lo + 1 == 0x1_0000_0000_0000_0000,
            ;
        }
        lemma_sqrt_floor_unique(n as int, lo as int);
    }
    lo as u64
}

/// The longest that a scaled vector gets, in each coordinate.
pub const REACH: i64 = 0x4_0000_0000;

/// The largest coordinate of a vector that is scaled.
pub const SPAN: i64 = 0x40_0000_0000;

/// The largest numerator by which a vector is scaled.
pub const FACTOR: u128 = 0x1_0000_0000_0000_0000_0000;

/// `v * n / d`, rounded towards 0 and cut off at `REACH`.
pub open spec fn scaled(v: int, n: int, d: int) -> int {
    let m = ((if v >= 0 { v } else { -v }) * n) / d;
    let m = if m > REACH { REACH as int } else { m };
    if v >= 0 { m } else { -m }
}

/// The distance of a coordinate from 0.
pub(crate) fn magnitude(v: i64) -> (m: u128)
    requires
        -SPAN <= v <= SPAN,
    ensures
        m == (if v >= 0 { v as int } else { -v }),
        m <= SPAN,
{
    if v >= 0 { v as u128 } else { (-v) as u128 }
}

/// `v * n / d`, rounded towards 0 and cut off at `REACH`.
pub(crate) fn scale(v: i64, n: u128, d: u128) -> (r: i64)
    requires
        -SPAN <= v <= SPAN,
        n <= FACTOR,
        d > 0,
    ensures
        r == scaled(v as int, n as int, d as int),
        -REACH <= r <= REACH,
{
    let m = magnitude(v);
    assert(m * n <= 0x40_0000_0000 * 0x1_0000_0000_0000_0000_0000) by (nonlinear_arith)
        requires
            m <= 0x40_0000_0000,
            n <= 0x1_0000_0000_0000_0000_0000,
    ;
    let q = m * n / d;
    let q: i64 = if q > REACH as u128 { REACH } else { q as i64 };
    if v >= 0 { q } else { -q }
}

/// The root of a sum of two squares.
fn hypot(x: u128, y: u128) -> (l: u64)
    requires
        x <= 0x1_0000_0000,
        y <= 0x1_0000_0000,
    ensures
        l == sqrt_floor(x * x + y * y),
        l <= 0x2_0000_0000,
{
    assert(x * x <= 0x1_0000_0000 * 0x1_0000_0000) by (nonlinear_arith)
        requires
            x <= 0x1_0000_0000,
    ;
    assert(y * y <= 0x1_0000_0000 * 0x1_0000_0000) by (nonlinear_arith)
        requires
            y <= 0x1_0000_0000,
    ;
    proof {
        lemma_sqrt_floor_bound((x * x + y * y) as int, 0x2_0000_0000);
    }
    isqrt(x * x + y * y)
}

impl Point {
    /// The length of the vector to the point, rounded down.
    pub fn length(self) -> (l: u64)
        ensures
            l == sqrt_floor(self.x * self.x + self.y * self.y),
    {
        let x: u128 = if self.x >= 0 { self.x as u128 } else { (-(self.x as i64)) as u128 };
        let y: u128 = if self.y >= 0 { self.y as u128 } else { (-(self.y as i64)) as u128 };
        assert(x * x == self.x * self.x && y * y == self.y * self.y) by (nonlinear_arith)
            requires
                x == self.x || x == -self.x,
                y == self.y || y == -self.y,
        ;
        hypot(x, y)
    }

    /// The distance of two points, rounded down.
    pub fn distance(self, other: Point) -> (l: u64)
        ensures
            l == sqrt_floor(
                (other.x - self.x) * (other.x - self.x) + (other.y - self.y) * (other.y - self.y),
            ),
    {
        let dx = other.x as i64 - self.x as i64;
        let dy = other.y as i64 - self.y as i64;
        let x: u128 = if dx >= 0 { dx as u128 } else { (-dx) as u128 };
        let y: u128 = if dy >= 0 { dy as u128 } else { (-dy) as u128 };
        assert(x * x == dx * dx && y * y == dy * dy) by (nonlinear_arith)
            requires
                x == dx || x == -dx,
                y == dy || y == -dy,
        ;
        hypot(x, y)
    }

    /// The vector of length 65536 in the direction of the point: each
    /// coordinate times 65536 over the length, the length taken to a
    /// 65536th and rounded down. The point must not be the origin, which has
    /// no direction.
    pub fn normalized(self) -> (n: Point)
        requires
            self.x != 0 || self.y != 0,
        ensures
            n.x == scaled(
                self.x as int,
                0x1_0000_0000,
                sqrt_floor((self.x * self.x + self.y * self.y) * 0x1_0000_0000),
            ),
            n.y == scaled(
                self.y as int,
                0x1_0000_0000,
                sqrt_floor((self.x * self.x + self.y * self.y) * 0x1_0000_0000),
            ),
            -65536 <= n.x <= 65536,
            -65536 <= n.y <= 65536,
    {
        let x: u128 = if self.x >= 0 { self.x as u128 } else { (-(self.x as i64)) as u128 };
        let y: u128 = if self.y >= 0 { self.y as u128 } else { (-(self.y as i64)) as u128 };
        assert(x * x == self.x * self.x && y * y == self.y * self.y && x * x <= 0x8000_0000
            * 0x8000_0000 && y * y <= 0x8000_0000 * 0x8000_0000 && x * x + y * y >= 1)
            by (nonlinear_arith)
            requires
                x == self.x || x == -self.x,
                y == self.y || y == -self.y,
                x <= 0x8000_0000,
                y <= 0x8000_0000,
                x != 0 || y != 0,
        ;
        let n2 = x * x + y * y;
        let l = isqrt(n2 * 0x1_0000_0000);
        proof {
            let l = l as int;
            if l == 0 {
                assert((l + 1) * (l + 1) == 1) by (nonlinear_arith)
                    requires
                        l == 0,
                ;
            }
            assert(x * 65536 <= l && y * 65536 <= l) by (nonlinear_arith)
                requires
                    x * x + y * y == n2,
                    n2 * 0x1_0000_0000 < (l + 1) * (l + 1),
                    0 <= l,
            ;
            assert((x * 0x1_0000_0000) / l <= 65536 && (y * 0x1_0000_0000) / l <= 65536)
                by (nonlinear_arith)
                requires
                    x * 65536 <= l,
                    y * 65536 <= l,
                    l > 0,
            ;
        }
        Point {
            x: scale(self.x as i64, 0x1_0000_0000, l as u128) as i32,
            y: scale(self.y as i64, 0x1_0000_0000, l as u128) as i32,
        }
    }
}

} // verus!
