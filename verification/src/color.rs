//! Colours: from sRGB to linear light with premultiplied alpha, in 65535ths.

use vstd::prelude::*;

verus! {

/// A colour in sRGB: red, green, blue and alpha, each in 65535ths.
#[derive(Copy, Clone, Debug, PartialEq, Eq, Structural)]
pub struct Color {
    pub r: u16,
    pub g: u16,
    pub b: u16,
    pub a: u16,
}

/// The first component that is not on the linear part of the transfer
/// function: 0.04045 of 65535, rounded up.
pub const KNEE: u16 = 2651;

/// `r` is the fifth root of `n`, rounded down.
pub open spec fn is_root5_floor(n: int, r: int) -> bool {
    0 <= r && r * r * r * r * r <= n < (r + 1) * (r + 1) * (r + 1) * (r + 1) * (r + 1)
}

/// The fifth power.
pub open spec fn pow5(r: int) -> int {
    r * r * r * r * r
}

/// The fifth root of `n`, rounded down.
pub open spec fn root5_floor(n: int) -> int {
    choose|r: int| is_root5_floor(n, r)
}

/// Fifth powers grow with their base.
proof fn lemma_pow5_grows(r: int, s: int)
    requires
        0 <= r <= s,
    ensures
        pow5(r) <= pow5(s),
        pow5(r) >= 0,
{
    assert(r * r <= s * s && 0 <= r * r) by (nonlinear_arith)
        requires
            0 <= r <= s,
    ;
    let r2 = r * r;
    let s2 = s * s;
    assert(r2 * r2 <= s2 * s2 && 0 <= r2 * r2) by (nonlinear_arith)
        requires
            0 <= r2 <= s2,
    ;
    let r4 = r2 * r2;
    let s4 = s2 * s2;
    assert(r4 * r <= s4 * s && 0 <= r4 * r) by (nonlinear_arith)
        requires
            0 <= r4 <= s4,
            0 <= r <= s,
    ;
    assert(pow5(r) == r4 * r) by (nonlinear_arith)
        requires
            r2 == r * r,
            r4 == r2 * r2,
    ;
    assert(pow5(s) == s4 * s) by (nonlinear_arith)
        requires
            s2 == s * s,
            s4 == s2 * s2,
    ;
}

/// Only one number is the fifth root of `n`, rounded down.
pub proof fn lemma_root5_floor_unique(n: int, r: int)
    requires
        is_root5_floor(n, r),
    ensures
        root5_floor(n) == r,
{
    let s = root5_floor(n);
    assert(is_root5_floor(n, s));
    if s < r {
        lemma_pow5_grows(s + 1, r);
    } else if r < s {
        lemma_pow5_grows(r + 1, s);
    }
}

/// The fifth root of `n`, rounded down, for `n` up to 2 to the 120th.
fn root5(n: u128) -> (r: u32)
    requires
        n <= 0x100_0000_0000_0000_0000_0000_0000_0000,
    ensures
        r == root5_floor(n as int),
        r <= 0x100_0000,
{
    let mut lo: u128 = 0;
    let mut hi: u128 = 0x100_0001;
    proof {
        assert(pow5(0) == 0) by (nonlinear_arith);
        assert(pow5(0x100_0000) == 0x100_0000_0000_0000_0000_0000_0000_0000) by (nonlinear_arith);
        assert(pow5(0x100_0001) > 0x100_0000_0000_0000_0000_0000_0000_0000) by (nonlinear_arith);
    }
    while hi - lo > 1
        invariant
            lo < hi <= 0x100_0001,
            pow5(lo as int) <= n < pow5(hi as int),
        decreases hi - lo,
    {
        let mid = lo + (hi - lo) / 2;
        proof {
            lemma_pow5_grows(mid as int, 0x100_0000);
            assert(pow5(0x100_0000) == 0x100_0000_0000_0000_0000_0000_0000_0000)
                by (nonlinear_arith);
            lemma_pow5_grows(0, mid as int);
        }
        assert(mid * mid <= 0x100_0000 * 0x100_0000) by (nonlinear_arith)
            requires
                mid <= 0x100_0000,
        ;
        let m2 = mid * mid;
        assert(m2 * m2 <= 0x1_0000_0000_0000 * 0x1_0000_0000_0000 && m2 <= 0x1_0000_0000_0000)
            by (nonlinear_arith)
            requires
                m2 == mid * mid,
                mid <= 0x100_0000,
        ;
        let m4 = m2 * m2;
        assert(m4 * mid == pow5(mid as int)) by (nonlinear_arith)
            requires
                m2 == mid * mid,
                m4 == m2 * m2,
        ;
        if m4 * mid <= n {
            lo = mid;
        } else {
            hi = mid;
        }
    }
    proof {
        assert(is_root5_floor(n as int, lo as int));
        lemma_root5_floor_unique(n as int, lo as int);
    }
    lo as u32
}

/// The linear light of an sRGB component, both in 65535ths. Below the knee
/// it is the component over 12.92; from the knee on it is the power 2.4 of
/// `(c + 0.055) / 1.055`, taken as the square times the fifth root of the
/// square, with 32 and with 24 binary places.
pub open spec fn linear(x: int) -> int {
    if x < KNEE {
        (x * 100 + 646) / 1292
    } else {
        let u = curve_base(x);
        let u2 = (u * u) / 0x100_0000_0000;
        let root = root5_floor(u2 * 0x1_0000_0000_0000_0000_0000_0000);
        (65535 * u2 * root + 0x8000_0000_0000) / 0x1_0000_0000_0000
    }
}

/// The next fifth power is larger.
proof fn lemma_pow5_next(r: int)
    requires
        r >= 0,
    ensures
        pow5(r + 1) > pow5(r),
{
    let r2 = r * r;
    let s2 = (r + 1) * (r + 1);
    assert(s2 >= r2 + 1 && r2 >= 0) by (nonlinear_arith)
        requires
            r >= 0,
            r2 == r * r,
            s2 == (r + 1) * (r + 1),
    ;
    let r4 = r2 * r2;
    let s4 = s2 * s2;
    assert(s4 >= r4 + 1 && r4 >= 0) by (nonlinear_arith)
        requires
            s2 >= r2 + 1,
            r2 >= 0,
            r4 == r2 * r2,
            s4 == s2 * s2,
    ;
    assert(s4 * (r + 1) >= r4 * r + 1) by (nonlinear_arith)
        requires
            s4 >= r4 + 1,
            r4 >= 0,
            r >= 0,
    ;
    assert(pow5(r) == r4 * r) by (nonlinear_arith)
        requires
            r2 == r * r,
            r4 == r2 * r2,
    ;
    assert(pow5(r + 1) == s4 * (r + 1)) by (nonlinear_arith)
        requires
            s2 == (r + 1) * (r + 1),
            s4 == s2 * s2,
    ;
}

/// Every number from 0 on has a fifth root, rounded down.
pub proof fn lemma_root5_exists(n: int)
    requires
        n >= 0,
    ensures
        is_root5_floor(n, root5_floor(n)),
    decreases n,
{
    if n == 0 {
        assert(is_root5_floor(0, 0)) by (nonlinear_arith);
    } else {
        lemma_root5_exists(n - 1);
        let r = root5_floor(n - 1);
        assert(pow5(r) <= n - 1 < pow5(r + 1));
        if n < pow5(r + 1) {
            assert(is_root5_floor(n, r));
        } else {
            lemma_pow5_next(r + 1);
            assert(pow5(r + 1) <= n < pow5(r + 2));
            assert(is_root5_floor(n, r + 1));
        }
    }
}

/// The fifth root does not fall as the number grows.
pub proof fn lemma_root5_grows(n: int, m: int)
    requires
        0 <= n <= m,
    ensures
        0 <= root5_floor(n) <= root5_floor(m),
{
    lemma_root5_exists(n);
    lemma_root5_exists(m);
    let r = root5_floor(n);
    let s = root5_floor(m);
    assert(pow5(r) <= n && m < pow5(s + 1));
    if s < r {
        lemma_pow5_grows(s + 1, r);
    }
}

/// The base of the power for a component from the knee on:
/// `(c + 0.055) / 1.055`, in 2 to the 32nd parts.
pub open spec fn curve_base(x: int) -> int {
    ((1000 * x + 3604425) * 0x1_0000_0000) / 69139425
}

/// The linear light neither falls as the component grows, nor leaves the
/// range: no light stays no light and full light stays full light.
pub proof fn lemma_linear_grows(x: int, y: int)
    requires
        0 <= x <= y <= 65535,
    ensures
        linear(0) == 0,
        linear(65535) == 65535,
        linear(x) <= linear(y),
        0 <= linear(x),
        linear(y) <= 65535,
{
    lemma_linear_ends();
    lemma_linear_ordered(0, x);
    lemma_linear_ordered(x, y);
    lemma_linear_ordered(y, 65535);
}

/// No light stays no light and full light stays full light.
proof fn lemma_linear_ends()
    ensures
        linear(0) == 0,
        linear(65535) == 65535,
{
    let u = curve_base(65535);
    assert(u == 0x1_0000_0000);
    let u2 = (u * u) / 0x100_0000_0000;
    assert(u * u == 0x1_0000_0000_0000_0000) by (nonlinear_arith)
        requires
            u == 0x1_0000_0000,
    ;
    assert(u2 == 0x100_0000);
    let n = u2 * 0x1_0000_0000_0000_0000_0000_0000;
    assert(n == 0x100_0000_0000_0000_0000_0000_0000_0000);
    assert(pow5(0x100_0000) == 0x100_0000_0000_0000_0000_0000_0000_0000) by (nonlinear_arith);
    assert(pow5(0x100_0001) > 0x100_0000_0000_0000_0000_0000_0000_0000) by (nonlinear_arith);
    assert(is_root5_floor(n, 0x100_0000));
    lemma_root5_floor_unique(n, 0x100_0000);
    assert(65535 * u2 * 0x100_0000 == 65535 * 0x1_0000_0000_0000) by (nonlinear_arith)
        requires
            u2 == 0x100_0000,
    ;
}

/// The light at the knee is no less than the light just below it.
proof fn lemma_linear_knee()
    ensures
        linear(2650) == 205,
        linear(2651) >= 205,
{
    let u = curve_base(2651);
    assert(u == 388589372);
    assert(u * u == 388589372 * 388589372) by (nonlinear_arith)
        requires
            u == 388589372,
    ;
    let u2 = (u * u) / 0x100_0000_0000;
    assert(u2 == 137335);
    let n = u2 * 0x1_0000_0000_0000_0000_0000_0000;
    assert(pow5(6417001) <= 137335 * 0x1_0000_0000_0000_0000_0000_0000) by (nonlinear_arith);
    lemma_root5_exists(n);
    let root = root5_floor(n);
    if root < 6417001 {
        lemma_pow5_grows(root + 1, 6417001);
    }
    assert(65535 * u2 * root >= 65535 * 137335 * 6417001) by (nonlinear_arith)
        requires
            u2 == 137335,
            root >= 6417001,
    ;
}

/// The linear light does not fall as the component grows.
proof fn lemma_linear_ordered(x: int, y: int)
    requires
        0 <= x <= y <= 65535,
    ensures
        linear(x) <= linear(y),
{
    if y < KNEE {
    } else if x >= KNEE {
        lemma_curve_ordered(x, y);
    } else {
        lemma_linear_knee();
        lemma_curve_ordered(2651, y);
    }
}

/// From the knee on the linear light does not fall as the component grows.
proof fn lemma_curve_ordered(x: int, y: int)
    requires
        KNEE <= x <= y <= 65535,
    ensures
        linear(x) <= linear(y),
{
    let ux = curve_base(x);
    let uy = curve_base(y);
    assert(0 <= ux <= uy);
    assert(0 <= ux * ux <= uy * uy) by (nonlinear_arith)
        requires
            0 <= ux <= uy,
    ;
    let vx = (ux * ux) / 0x100_0000_0000;
    let vy = (uy * uy) / 0x100_0000_0000;
    assert(0 <= vx <= vy);
    lemma_root5_grows(
        vx * 0x1_0000_0000_0000_0000_0000_0000,
        vy * 0x1_0000_0000_0000_0000_0000_0000,
    );
    let rx = root5_floor(vx * 0x1_0000_0000_0000_0000_0000_0000);
    let ry = root5_floor(vy * 0x1_0000_0000_0000_0000_0000_0000);
    assert(65535 * vx * rx <= 65535 * vy * ry) by (nonlinear_arith)
        requires
            0 <= vx <= vy,
            0 <= rx <= ry,
    ;
}

/// A component times alpha, both in 65535ths, rounded.
pub open spec fn premultiplied(c: int, a: int) -> int {
    (c * a + 32767) / 65535
}

/// The colour in linear light: red, green and blue multiplied by alpha, and
/// alpha as it is.
pub open spec fn linear_premul(c: Color) -> Seq<u16> {
    seq![
        premultiplied(linear(c.r as int), c.a as int) as u16,
        premultiplied(linear(c.g as int), c.a as int) as u16,
        premultiplied(linear(c.b as int), c.a as int) as u16,
        c.a,
    ]
}

/// The linear light of an sRGB component.
pub fn srgb_to_linear(x: u16) -> (y: u16)
    ensures
        y == linear(x as int),
{
    if x < KNEE {
        ((x as u32 * 100 + 646) / 1292) as u16
    } else {
        let u: u128 = (1000 * x as u128 + 3604425) * 0x1_0000_0000 / 69139425;
        assert(u <= 0x1_0000_0000);
        assert(u * u <= 0x1_0000_0000 * 0x1_0000_0000) by (nonlinear_arith)
            requires
                u <= 0x1_0000_0000,
        ;
        let u2: u128 = u * u / 0x100_0000_0000;
        assert(u2 <= 0x100_0000);
        let root = root5(u2 * 0x1_0000_0000_0000_0000_0000_0000) as u128;
        assert(65535 * u2 * root <= 65535 * 0x100_0000 * 0x100_0000) by (nonlinear_arith)
            requires
                u2 <= 0x100_0000,
                root <= 0x100_0000,
        ;
        ((65535 * u2 * root + 0x8000_0000_0000) / 0x1_0000_0000_0000) as u16
    }
}

impl Color {
    /// The colour with the given components.
    pub fn rgba(r: u16, g: u16, b: u16, a: u16) -> (c: Color)
        ensures
            c == (Color { r, g, b, a }),
    {
        Color { r, g, b, a }
    }

    /// The colour in linear light, each of red, green and blue multiplied by
    /// alpha; alpha stays as it is.
    pub fn to_linear_premul(&self) -> (c: [u16; 4])
        ensures
            c@ == linear_premul(*self),
    {
        let r = Self::premultiply(srgb_to_linear(self.r), self.a);
        let g = Self::premultiply(srgb_to_linear(self.g), self.a);
        let b = Self::premultiply(srgb_to_linear(self.b), self.a);
        let c = [r, g, b, self.a];
        assert(c@ =~= seq![r, g, b, self.a]);
        c
    }

    /// A component times alpha.
    fn premultiply(c: u16, a: u16) -> (p: u16)
        ensures
            p == premultiplied(c as int, a as int),
    {
        assert(c * a <= 65535 * 65535) by (nonlinear_arith)
            requires
                c <= 65535,
                a <= 65535,
        ;
        ((c as u32 * a as u32 + 32767) / 65535) as u16
    }
}

} // verus!
