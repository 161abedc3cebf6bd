//! Shared numeric helpers of the rasterizers: linear and barycentric channel
//! interpolation, sign, and the integer square root.

use vstd::prelude::*;

use crate::canvas::blit_skipping;
use crate::canvas::img_cells;
use crate::canvas::img_dims;
use crate::canvas::img_wf;
use crate::canvas::paint_skipping;
use crate::geometric::circle2d::Circle2D;

verus! {

/// Draws the anti-aliased circle outline like `Circle2D::draw_outline_aa`,
/// but silently skips every pixel that falls outside the buffer instead of
/// reporting the first one.
pub fn draw_circle_aa(circle: &Circle2D, canvas: &mut raster::Image)
    requires
        circle.wf(),
        img_wf(*old(canvas)),
    ensures
        img_wf(*final(canvas)),
        img_dims(*final(canvas)) == img_dims(*old(canvas)),
        img_cells(*final(canvas)) == paint_skipping(
            img_cells(*old(canvas)),
            img_dims(*old(canvas)).0,
            img_dims(*old(canvas)).1,
            circle.outline_aa_writes(),
        ),
{
    let px = circle.outline_aa_pixels();
    blit_skipping(canvas, &px);
}

/// Largest coordinate magnitude the rasterizers accept. Keeping every
/// coordinate within this bound keeps every intermediate product of the
/// rasterization arithmetic inside `i64`.
pub const MAX_COORD: i32 = 16_777_216;

/// Whether a coordinate is small enough for the rasterizers.
pub open spec fn coord_ok(v: int) -> bool {
    -(MAX_COORD as int) <= v <= MAX_COORD as int
}

/// The sign of an integer: -1, 0 or 1.
pub open spec fn sgn(v: int) -> int {
    if v > 0 {
        1
    } else if v < 0 {
        -1
    } else {
        0
    }
}

/// The magnitude of an integer.
pub open spec fn iabs(v: int) -> int {
    if v >= 0 {
        v
    } else {
        -v
    }
}

/// The linearly interpolated channel value between `a` and `b` at blend
/// fraction `num / den`: exactly `(a * (den - num) + b * num) / den`, the
/// integer form of `a * (1 - t) + b * t`.
pub open spec fn interpolate_spec(a: u8, b: u8, num: int, den: int) -> int {
    (a * (den - num) + b * num) / den
}

/// Linearly interpolates two channel values; the fraction `num / den` plays
/// the role of the blend value `t` between 0 and 1, so the result is `a` at
/// `t == 0` and `b` at `t == 1`.
pub fn interpolate(a: u8, b: u8, num: i64, den: i64) -> (r: u8)
    requires
        0 <= num <= den,
        1 <= den <= 0x4000_0000,
    ensures
        r == interpolate_spec(a, b, num as int, den as int),
{
    assert(0 <= a * (den - num) <= 255 * den && 0 <= b * num <= 255 * den && a * (den - num) + b
        * num <= 255 * den) by (nonlinear_arith)
        requires
            0 <= num <= den,
            1 <= den,
            a <= 255,
            b <= 255,
    ;
    let n: i64 = (a as i64) * (den - num) + (b as i64) * num;
    let q = n / den;
    assert(0 <= q <= 255 && q == n / den) by (nonlinear_arith)
        requires
            0 <= n <= 255 * den,
            1 <= den,
            q == n / den,
    ;
    q as u8
}

/// The barycentric combination of three channel values with nonnegative
/// weights `w1`, `w2`, `w3` summing to `den`: exactly
/// `(a * w1 + b * w2 + c * w3) / den`.
pub open spec fn interpolate_barycentric_spec(
    a: u8,
    b: u8,
    c: u8,
    w1: int,
    w2: int,
    w3: int,
    den: int,
) -> int {
    (a * w1 + b * w2 + c * w3) / den
}

/// Barycentrically interpolates three channel values; the weights are the
/// barycentric numerators and `den` their sum, so equal inputs come out
/// unchanged.
pub fn interpolate_barycentric(
    a: u8,
    b: u8,
    c: u8,
    w1: i64,
    w2: i64,
    w3: i64,
    den: i64,
) -> (r: u8)
    requires
        0 <= w1,
        0 <= w2,
        0 <= w3,
        w1 + w2 + w3 == den,
        1 <= den <= 0x20_0000_0000_0000,
    ensures
        r == interpolate_barycentric_spec(a, b, c, w1 as int, w2 as int, w3 as int, den as int),
{
    assert(0 <= a * w1 <= 255 * den && 0 <= b * w2 <= 255 * den && 0 <= c * w3 <= 255 * den && a
        * w1 + b * w2 + c * w3 <= 255 * den) by (nonlinear_arith)
        requires
            0 <= w1,
            0 <= w2,
            0 <= w3,
            w1 + w2 + w3 == den,
            a <= 255,
            b <= 255,
            c <= 255,
    ;
    let n: i64 = (a as i64) * w1 + (b as i64) * w2 + (c as i64) * w3;
    let q = n / den;
    assert(0 <= q <= 255 && q == n / den) by (nonlinear_arith)
        requires
            0 <= n <= 255 * den,
            1 <= den,
            q == n / den,
    ;
    q as u8
}

/// Truncating integer division: the semantics of `/` on machine integers,
/// which rounds toward zero.
pub open spec fn tdiv(a: int, b: int) -> int {
    if a >= 0 {
        if b >= 0 {
            a / b
        } else {
            -(a / (-b))
        }
    } else {
        if b >= 0 {
            -((-a) / b)
        } else {
            (-a) / (-b)
        }
    }
}

/// Computes truncating division.
pub fn tdiv_i64(a: i64, b: i64) -> (r: i64)
    requires
        b != 0,
        -0x4000_0000_0000_0000 <= a <= 0x4000_0000_0000_0000,
        -0x4000_0000_0000_0000 <= b <= 0x4000_0000_0000_0000,
    ensures
        r == tdiv(a as int, b as int),
        iabs(r as int) <= iabs(a as int),
{
    let an: i64 = if a >= 0 {
        a
    } else {
        -a
    };
    let bn: i64 = if b >= 0 {
        b
    } else {
        -b
    };
    let q = an / bn;
    assert(0 <= q <= an && q == an as int / bn as int) by (nonlinear_arith)
        requires
            0 <= an,
            1 <= bn,
            q == an / bn,
    ;
    if (a >= 0) == (b >= 0) {
        q
    } else {
        -q
    }
}

/// The low byte of an integer: the value a cast to `u8` keeps.
pub open spec fn wrap_u8(v: int) -> u8 {
    (v % 256) as u8
}

/// Computes the low byte of an integer.
pub fn wrap_alpha(t: i64) -> (r: u8)
    requires
        -0x4000_0000_0000_0000 <= t <= 0x4000_0000_0000_0000,
    ensures
        r == wrap_u8(t as int),
{
    if t >= 0 {
        (t % 256) as u8
    } else {
        (255 - ((-t - 1) % 256)) as u8
    }
}

/// The integer square root: the largest `r` with `r * r <= n` (0 for
/// negative `n`).
pub open spec fn sqrt_floor(n: int) -> int
    decreases n,
{
    if n < 1 {
        0
    } else {
        let r = sqrt_floor(n - 1);
        if (r + 1) * (r + 1) <= n {
            r + 1
        } else {
            r
        }
    }
}

/// The integer square root is bracketed by the two neighboring squares.
pub proof fn lemma_sqrt_floor_bounds(n: int)
    requires
        n >= 0,
    ensures
        sqrt_floor(n) >= 0,
        sqrt_floor(n) * sqrt_floor(n) <= n,
        (sqrt_floor(n) + 1) * (sqrt_floor(n) + 1) > n,
    decreases n,
{
    if n > 0 {
        lemma_sqrt_floor_bounds(n - 1);
        let r = sqrt_floor(n - 1);
        if (r + 1) * (r + 1) <= n {
            assert((r + 2) * (r + 2) > n) by (nonlinear_arith)
                requires
                    (r + 1) * (r + 1) > n - 1,
                    r >= 0,
            ;
        }
    }
}

/// Computes the integer square root by binary search.
pub fn isqrt(n: i64) -> (r: i64)
    requires
        0 <= n,
    ensures
        r == sqrt_floor(n as int),
{
    let mut lo: i64 = 0;
    let mut hi: i64 = if n < 3_037_000_499 {
        n
    } else {
        3_037_000_499
    };
    proof {
        assert((hi + 1) * (hi + 1) > n) by (nonlinear_arith)
            requires
                n >= 0,
                n <= i64::MAX,
                hi == (if n < 3_037_000_499 {
                    n as int
                } else {
                    3_037_000_499
                }),
        ;
    }
    while lo < hi
        invariant
            0 <= lo <= hi <= 3_037_000_499,
            lo * lo <= n,
            (hi + 1) * (hi + 1) > n,
        decreases hi - lo,
    {
        let mid = lo + (hi - lo + 1) / 2;
        assert(lo < mid <= hi);
        assert(mid * mid <= 3_037_000_499 * 3_037_000_499) by (nonlinear_arith)
            requires
                0 <= mid <= 3_037_000_499,
        ;
        if mid * mid <= n {
            lo = mid;
        } else {
            hi = mid - 1;
        }
    }
    proof {
        lemma_sqrt_floor_bounds(n as int);
        let s = sqrt_floor(n as int);
        assert(lo == s) by (nonlinear_arith)
            requires
                0 <= lo,
                0 <= s,
                lo * lo <= n,
                (lo + 1) * (lo + 1) > n,
                s * s <= n,
                (s + 1) * (s + 1) > n,
        ;
    }
    lo
}

} // verus!
