//! A 2D triangle, filled by half-plane scanning with barycentric color
//! interpolation.

use vstd::prelude::*;

use crate::canvas::blit;
use crate::canvas::img_cells;
use crate::canvas::img_dims;
use crate::canvas::img_wf;
use crate::canvas::lemma_paint_append;
use crate::canvas::paint;
use crate::canvas::paint_ok;
use crate::canvas::writes_view;
use crate::canvas::DrawError;
use crate::canvas::PixelWrite;
use crate::color::Color;
use crate::geometric::geometric::iabs;
use crate::geometric::geometric::interpolate_barycentric;
use crate::geometric::geometric::interpolate_barycentric_spec;
use crate::geometric::line2d::Line2D;
use crate::geometric::point2d::Point2D;

verus! {

/// A 2D triangle of three colored vertices.
#[derive(Clone, Copy, PartialEq, Eq, Structural, Debug)]
pub struct Triangle2D {
    /// First vertex.
    pub a: Point2D,
    /// Second vertex.
    pub b: Point2D,
    /// Third vertex.
    pub c: Point2D,
}

/// Twice the signed area of the triangle.
pub open spec fn tri_area2(t: Triangle2D) -> int {
    (t.c.x - t.a.x) * (t.b.y - t.a.y) - (t.b.x - t.a.x) * (t.c.y - t.a.y)
}

/// The triangle with its winding made consistent: vertices `b` and `c` are
/// swapped when the signed area is negative, so that the inside of every
/// edge is its nonpositive half-plane.
pub open spec fn oriented(t: Triangle2D) -> Triangle2D {
    if tri_area2(t) < 0 {
        Triangle2D { a: t.a, b: t.c, c: t.b }
    } else {
        t
    }
}

/// Half-plane value of the edge opposite vertex `a` (through `b` and `c`).
pub open spec fn edge1(t: Triangle2D, x: int, y: int) -> int {
    (t.b.y - t.c.y) * x + (t.c.x - t.b.x) * y - ((t.b.y - t.c.y) * t.b.x + (t.c.x - t.b.x)
        * t.b.y)
}

/// Half-plane value of the edge opposite vertex `b` (through `c` and `a`).
pub open spec fn edge2(t: Triangle2D, x: int, y: int) -> int {
    (t.c.y - t.a.y) * x + (t.a.x - t.c.x) * y - ((t.c.y - t.a.y) * t.c.x + (t.a.x - t.c.x)
        * t.c.y)
}

/// Half-plane value of the edge opposite vertex `c` (through `a` and `b`).
pub open spec fn edge3(t: Triangle2D, x: int, y: int) -> int {
    (t.a.y - t.b.y) * x + (t.b.x - t.a.x) * y - ((t.a.y - t.b.y) * t.a.x + (t.b.x - t.a.x)
        * t.a.y)
}

/// The common barycentric denominator: the negated half-plane value of
/// edge 1 at the opposite vertex, positive for a consistently wound,
/// nondegenerate triangle.
pub open spec fn tri_den(t: Triangle2D) -> int {
    -edge1(t, t.a.x as int, t.a.y as int)
}

/// Whether an integer point lies inside the (consistently wound) triangle:
/// all three half-plane values are nonpositive.
pub open spec fn tri_inside(t: Triangle2D, x: int, y: int) -> bool {
    edge1(t, x, y) <= 0 && edge2(t, x, y) <= 0 && edge3(t, x, y) <= 0
}

/// The fill color of an inside pixel: each channel is the barycentric
/// combination of the three vertex channels, with the negated half-plane
/// values as weights and their sum as denominator.
pub open spec fn tri_pixel_color(t: Triangle2D, x: int, y: int) -> Color {
    let w1 = -edge1(t, x, y);
    let w2 = -edge2(t, x, y);
    let w3 = -edge3(t, x, y);
    let den = tri_den(t);
    Color {
        r: interpolate_barycentric_spec(
            t.a.color.r,
            t.b.color.r,
            t.c.color.r,
            w1,
            w2,
            w3,
            den,
        ) as u8,
        g: interpolate_barycentric_spec(
            t.a.color.g,
            t.b.color.g,
            t.c.color.g,
            w1,
            w2,
            w3,
            den,
        ) as u8,
        b: interpolate_barycentric_spec(
            t.a.color.b,
            t.b.color.b,
            t.c.color.b,
            w1,
            w2,
            w3,
            den,
        ) as u8,
        a: 255,
    }
}

/// Leftmost vertex column.
pub open spec fn tri_xmin(t: Triangle2D) -> int {
    let m = if t.a.x <= t.b.x {
        t.a.x as int
    } else {
        t.b.x as int
    };
    if m <= t.c.x {
        m
    } else {
        t.c.x as int
    }
}

/// Rightmost vertex column.
pub open spec fn tri_xmax(t: Triangle2D) -> int {
    let m = if t.a.x >= t.b.x {
        t.a.x as int
    } else {
        t.b.x as int
    };
    if m >= t.c.x {
        m
    } else {
        t.c.x as int
    }
}

/// Topmost vertex row.
pub open spec fn tri_ymin(t: Triangle2D) -> int {
    let m = if t.a.y <= t.b.y {
        t.a.y as int
    } else {
        t.b.y as int
    };
    if m <= t.c.y {
        m
    } else {
        t.c.y as int
    }
}

/// Bottommost vertex row.
pub open spec fn tri_ymax(t: Triangle2D) -> int {
    let m = if t.a.y >= t.b.y {
        t.a.y as int
    } else {
        t.b.y as int
    };
    if m >= t.c.y {
        m
    } else {
        t.c.y as int
    }
}

/// The fill writes of one bounding-box column from row `ys` down: each
/// pixel inside the triangle is written with its interpolated color.
pub open spec fn tri_col(t: Triangle2D, xs: int, ys: int) -> Seq<(int, int, Color)>
    decreases tri_ymax(t) - ys,
{
    if ys >= tri_ymax(t) || tri_ymax(t) - ys < 0 {
        Seq::empty()
    } else {
        let cell = if tri_inside(t, xs, ys) {
            seq![(xs, ys, tri_pixel_color(t, xs, ys))]
        } else {
            Seq::empty()
        };
        cell + tri_col(t, xs, ys + 1)
    }
}

/// The fill writes of the bounding-box columns from `xs` rightward.
pub open spec fn tri_cols(t: Triangle2D, xs: int) -> Seq<(int, int, Color)>
    decreases tri_xmax(t) - xs,
{
    if xs >= tri_xmax(t) || tri_xmax(t) - xs < 0 {
        Seq::empty()
    } else {
        tri_col(t, xs, tri_ymin(t)) + tri_cols(t, xs + 1)
    }
}

/// The raw polynomial identity behind `lemma_edge_sum`, over the bare
/// coordinates: each product of differences is expanded into monomials,
/// after which the two sides cancel linearly.
proof fn lemma_edge_sum_raw(x1: int, y1: int, x2: int, y2: int, x3: int, y3: int, x: int, y: int)
    ensures
        ((y2 - y3) * x + (x3 - x2) * y - ((y2 - y3) * x2 + (x3 - x2) * y2)) + ((y3 - y1) * x + (x1
            - x3) * y - ((y3 - y1) * x3 + (x1 - x3) * y3)) + ((y1 - y2) * x + (x2 - x1) * y - ((y1
            - y2) * x1 + (x2 - x1) * y1)) == (y2 - y3) * x1 + (x3 - x2) * y1 - ((y2 - y3) * x2 + (
        x3 - x2) * y2),
{
    assert((y2 - y3) * x == y2 * x - y3 * x) by (nonlinear_arith);
    assert((x3 - x2) * y == x3 * y - x2 * y) by (nonlinear_arith);
    assert((y2 - y3) * x2 == y2 * x2 - y3 * x2) by (nonlinear_arith);
    assert((x3 - x2) * y2 == x3 * y2 - x2 * y2) by (nonlinear_arith);
    assert((y3 - y1) * x == y3 * x - y1 * x) by (nonlinear_arith);
    assert((x1 - x3) * y == x1 * y - x3 * y) by (nonlinear_arith);
    assert((y3 - y1) * x3 == y3 * x3 - y1 * x3) by (nonlinear_arith);
    assert((x1 - x3) * y3 == x1 * y3 - x3 * y3) by (nonlinear_arith);
    assert((y1 - y2) * x == y1 * x - y2 * x) by (nonlinear_arith);
    assert((x2 - x1) * y == x2 * y - x1 * y) by (nonlinear_arith);
    assert((y1 - y2) * x1 == y1 * x1 - y2 * x1) by (nonlinear_arith);
    assert((x2 - x1) * y1 == x2 * y1 - x1 * y1) by (nonlinear_arith);
    assert((y2 - y3) * x1 == y2 * x1 - y3 * x1) by (nonlinear_arith);
    assert((x3 - x2) * y1 == x3 * y1 - x2 * y1) by (nonlinear_arith);
    assert(y1 * x1 == x1 * y1) by (nonlinear_arith);
    assert(y3 * x3 == x3 * y3) by (nonlinear_arith);
    assert(y1 * x3 == x3 * y1) by (nonlinear_arith);
    assert(x1 * y3 == y3 * x1) by (nonlinear_arith);
    assert(y2 * x1 == x1 * y2) by (nonlinear_arith);
    assert(x2 * y1 == y1 * x2) by (nonlinear_arith);
}

/// The three edge values at any point sum to the negated denominator: the
/// algebraic identity behind barycentric interpolation.
pub proof fn lemma_edge_sum(t: Triangle2D, x: int, y: int)
    ensures
        edge1(t, x, y) + edge2(t, x, y) + edge3(t, x, y) == -tri_den(t),
{
    lemma_edge_sum_raw(
        t.a.x as int,
        t.a.y as int,
        t.b.x as int,
        t.b.y as int,
        t.c.x as int,
        t.c.y as int,
        x,
        y,
    );
}

/// The raw polynomial identity behind `lemma_den_is_area`: the negated
/// edge-1 value at the opposite vertex is twice the signed area.
proof fn lemma_den_raw(x1: int, y1: int, x2: int, y2: int, x3: int, y3: int)
    by (nonlinear_arith)
    ensures
        -((y2 - y3) * x1 + (x3 - x2) * y1 - ((y2 - y3) * x2 + (x3 - x2) * y2)) == (x3 - x1) * (y2
            - y1) - (x2 - x1) * (y3 - y1),
{
}

/// The barycentric denominator of the consistently wound triangle is the
/// magnitude of twice the signed area.
pub proof fn lemma_den_is_area(t: Triangle2D)
    ensures
        tri_den(oriented(t)) == iabs(tri_area2(t)),
{
    let o = oriented(t);
    lemma_den_raw(o.a.x as int, o.a.y as int, o.b.x as int, o.b.y as int, o.c.x as int, o.c.y as int);
    if tri_area2(t) < 0 {
        assert(tri_area2(o) == -tri_area2(t)) by (nonlinear_arith)
            requires
                o == (Triangle2D { a: t.a, b: t.c, c: t.b }),
                tri_area2(o) == (o.c.x - o.a.x) * (o.b.y - o.a.y) - (o.b.x - o.a.x) * (o.c.y
                    - o.a.y),
                tri_area2(t) == (t.c.x - t.a.x) * (t.b.y - t.a.y) - (t.b.x - t.a.x) * (t.c.y
                    - t.a.y),
        ;
    }
}

impl Triangle2D {
    /// A triangle of three points.
    pub fn new(a: Point2D, b: Point2D, c: Point2D) -> (t: Triangle2D)
        ensures
            t == (Triangle2D { a, b, c }),
    {
        Triangle2D { a, b, c }
    }

    /// Whether all three vertices are small enough for the rasterizers.
    pub open spec fn wf(self) -> bool {
        self.a.wf() && self.b.wf() && self.c.wf()
    }

    /// All writes of the filled triangle: none for a degenerate (zero-area)
    /// triangle; otherwise every bounding-box pixel inside the consistently
    /// wound triangle, column by column, with barycentric colors.
    pub open spec fn fill_writes(self) -> Seq<(int, int, Color)> {
        if tri_area2(self) == 0 {
            Seq::empty()
        } else {
            tri_cols(oriented(self), tri_xmin(oriented(self)))
        }
    }

    /// The filled triangle's pixel writes as a list. A degenerate triangle
    /// produces no writes at all.
    #[verifier::rlimit(100)]
    pub fn fill_pixels(&self) -> (v: Vec<PixelWrite>)
        requires
            self.wf(),
        ensures
            writes_view(v@) == self.fill_writes(),
            tri_area2(*self) == 0 ==> v@.len() == 0,
    {
        let mut v: Vec<PixelWrite> = Vec::new();
        proof {
            assert(writes_view(v@) =~= Seq::<(int, int, Color)>::empty());
        }
        proof {
            assert(iabs(tri_area2(*self)) <= 0x10_0000_0000_0000) by (nonlinear_arith)
                requires
                    -0x100_0000 <= self.a.x <= 0x100_0000,
                    -0x100_0000 <= self.a.y <= 0x100_0000,
                    -0x100_0000 <= self.b.x <= 0x100_0000,
                    -0x100_0000 <= self.b.y <= 0x100_0000,
                    -0x100_0000 <= self.c.x <= 0x100_0000,
                    -0x100_0000 <= self.c.y <= 0x100_0000,
            ;
        }
        let dcx: i64 = (self.c.x as i64) - (self.a.x as i64);
        let dby: i64 = (self.b.y as i64) - (self.a.y as i64);
        let dbx: i64 = (self.b.x as i64) - (self.a.x as i64);
        let dcy: i64 = (self.c.y as i64) - (self.a.y as i64);
        proof {
            assert(iabs(dcx * dby) <= 0x8_0000_0000_0000 && iabs(dbx * dcy)
                <= 0x8_0000_0000_0000) by (nonlinear_arith)
                requires
                    iabs(dcx as int) <= 0x200_0000,
                    iabs(dby as int) <= 0x200_0000,
                    iabs(dbx as int) <= 0x200_0000,
                    iabs(dcy as int) <= 0x200_0000,
            ;
        }
        let area2: i64 = dcx * dby - dbx * dcy;
        if area2 == 0 {
            return v;
        }
        let t = if area2 < 0 {
            Triangle2D { a: self.a, b: self.c, c: self.b }
        } else {
            *self
        };
        proof {
            assert(t == oriented(*self));
            lemma_den_is_area(*self);
        }
        let a1: i64 = (t.b.y as i64) - (t.c.y as i64);
        let b1: i64 = (t.c.x as i64) - (t.b.x as i64);
        let a2: i64 = (t.c.y as i64) - (t.a.y as i64);
        let b2: i64 = (t.a.x as i64) - (t.c.x as i64);
        let a3: i64 = (t.a.y as i64) - (t.b.y as i64);
        let b3: i64 = (t.b.x as i64) - (t.a.x as i64);
        proof {
            assert(iabs(a1 * t.b.x as int) <= 0x8_0000_0000_0000 && iabs(b1 * t.b.y as int)
                <= 0x8_0000_0000_0000 && iabs(a2 * t.c.x as int) <= 0x8_0000_0000_0000 && iabs(
                b2 * t.c.y as int) <= 0x8_0000_0000_0000 && iabs(a3 * t.a.x as int)
                <= 0x8_0000_0000_0000 && iabs(b3 * t.a.y as int) <= 0x8_0000_0000_0000)
                by (nonlinear_arith)
                requires
                    iabs(a1 as int) <= 0x200_0000,
                    iabs(b1 as int) <= 0x200_0000,
                    iabs(a2 as int) <= 0x200_0000,
                    iabs(b2 as int) <= 0x200_0000,
                    iabs(a3 as int) <= 0x200_0000,
                    iabs(b3 as int) <= 0x200_0000,
                    iabs(t.b.x as int) <= 0x100_0000,
                    iabs(t.b.y as int) <= 0x100_0000,
                    iabs(t.c.x as int) <= 0x100_0000,
                    iabs(t.c.y as int) <= 0x100_0000,
                    iabs(t.a.x as int) <= 0x100_0000,
                    iabs(t.a.y as int) <= 0x100_0000,
            ;
        }
        let c1: i64 = -(a1 * (t.b.x as i64) + b1 * (t.b.y as i64));
        let c2: i64 = -(a2 * (t.c.x as i64) + b2 * (t.c.y as i64));
        let c3: i64 = -(a3 * (t.a.x as i64) + b3 * (t.a.y as i64));
        let den: i64 = -(edge_eval(a1, b1, c1, t.a.x as i64, t.a.y as i64));
        proof {
            assert(den == tri_den(t));
            assert(den >= 1);
        }
        let xmin = min3(t.a.x, t.b.x, t.c.x);
        let xmax = max3(t.a.x, t.b.x, t.c.x);
        let ymin = min3(t.a.y, t.b.y, t.c.y);
        let ymax = max3(t.a.y, t.b.y, t.c.y);
        let mut xs: i32 = xmin;
        proof {
            assert(writes_view(v@) + tri_cols(t, xs as int) =~= self.fill_writes());
        }
        while xs < xmax
            invariant
                t == oriented(*self),
                t.wf(),
                tri_area2(*self) != 0,
                a1 == t.b.y - t.c.y,
                b1 == t.c.x - t.b.x,
                a2 == t.c.y - t.a.y,
                b2 == t.a.x - t.c.x,
                a3 == t.a.y - t.b.y,
                b3 == t.b.x - t.a.x,
                c1 == -(a1 * t.b.x + b1 * t.b.y),
                c2 == -(a2 * t.c.x + b2 * t.c.y),
                c3 == -(a3 * t.a.x + b3 * t.a.y),
                iabs(c1 as int) <= 0x10_0000_0000_0000,
                iabs(c2 as int) <= 0x10_0000_0000_0000,
                iabs(c3 as int) <= 0x10_0000_0000_0000,
                1 <= den <= 0x20_0000_0000_0000,
                den == tri_den(t),
                xmin == tri_xmin(t),
                xmax == tri_xmax(t),
                ymin == tri_ymin(t),
                ymax == tri_ymax(t),
                tri_xmin(t) <= xs <= tri_xmax(t),
                writes_view(v@) + tri_cols(t, xs as int) == self.fill_writes(),
            decreases tri_xmax(t) - xs as int,
        {
            let ghost cols_entry = tri_cols(t, xs as int);
            let mut ys: i32 = ymin;
            proof {
                assert(cols_entry == tri_col(t, xs as int, ys as int) + tri_cols(t, xs as int + 1));
            }
            while ys < ymax
                invariant
                    t == oriented(*self),
                    t.wf(),
                    tri_area2(*self) != 0,
                    a1 == t.b.y - t.c.y,
                    b1 == t.c.x - t.b.x,
                    a2 == t.c.y - t.a.y,
                    b2 == t.a.x - t.c.x,
                    a3 == t.a.y - t.b.y,
                    b3 == t.b.x - t.a.x,
                    c1 == -(a1 * t.b.x + b1 * t.b.y),
                    c2 == -(a2 * t.c.x + b2 * t.c.y),
                    c3 == -(a3 * t.a.x + b3 * t.a.y),
                    iabs(c1 as int) <= 0x10_0000_0000_0000,
                    iabs(c2 as int) <= 0x10_0000_0000_0000,
                    iabs(c3 as int) <= 0x10_0000_0000_0000,
                    1 <= den <= 0x20_0000_0000_0000,
                    den == tri_den(t),
                    ymax == tri_ymax(t),
                    tri_xmin(t) <= xs < tri_xmax(t),
                    tri_ymin(t) <= ys <= tri_ymax(t),
                    writes_view(v@) + tri_col(t, xs as int, ys as int) + tri_cols(
                        t,
                        xs as int + 1,
                    ) == self.fill_writes(),
                decreases tri_ymax(t) - ys as int,
            {
                let ghost v_entry = v@;
                let ghost col_entry = tri_col(t, xs as int, ys as int);
                let e1 = edge_eval(a1, b1, c1, xs as i64, ys as i64);
                let e2 = edge_eval(a2, b2, c2, xs as i64, ys as i64);
                let e3 = edge_eval(a3, b3, c3, xs as i64, ys as i64);
                proof {
                    assert(e1 == edge1(t, xs as int, ys as int));
                    assert(e2 == edge2(t, xs as int, ys as int));
                    assert(e3 == edge3(t, xs as int, ys as int));
                }
                let inside = e1 <= 0 && e2 <= 0 && e3 <= 0;
                if inside {
                    proof {
                        lemma_edge_sum(t, xs as int, ys as int);
                    }
                    let col = Color {
                        r: interpolate_barycentric(
                            t.a.color.r,
                            t.b.color.r,
                            t.c.color.r,
                            -e1,
                            -e2,
                            -e3,
                            den,
                        ),
                        g: interpolate_barycentric(
                            t.a.color.g,
                            t.b.color.g,
                            t.c.color.g,
                            -e1,
                            -e2,
                            -e3,
                            den,
                        ),
                        b: interpolate_barycentric(
                            t.a.color.b,
                            t.b.color.b,
                            t.c.color.b,
                            -e1,
                            -e2,
                            -e3,
                            den,
                        ),
                        a: 255,
                    };
                    proof {
                        assert(col == tri_pixel_color(t, xs as int, ys as int));
                    }
                    v.push(PixelWrite { x: xs, y: ys, color: col });
                    proof {
                        assert(writes_view(v@) =~= writes_view(v_entry) + seq![
                            (xs as int, ys as int, col),
                        ]);
                    }
                }
                ys = ys + 1;
                proof {
                    let col_next = tri_col(t, xs as int, ys as int);
                    assert(col_entry == (if tri_inside(t, xs as int, ys as int - 1) {
                        seq![
                            (
                                xs as int,
                                ys as int - 1,
                                tri_pixel_color(t, xs as int, ys as int - 1),
                            ),
                        ]
                    } else {
                        Seq::<(int, int, Color)>::empty()
                    }) + col_next);
                    assert(writes_view(v@) + col_next + tri_cols(t, xs as int + 1)
                        =~= writes_view(v_entry) + col_entry + tri_cols(t, xs as int + 1));
                }
            }
            xs = xs + 1;
            proof {
                assert(tri_col(t, xs as int - 1, ys as int) =~= Seq::<(int, int, Color)>::empty());
            }
        }
        proof {
            assert(tri_cols(t, xs as int) =~= Seq::<(int, int, Color)>::empty());
        }
        v
    }
}

impl Triangle2D {
    /// All writes of the triangle outline: its three edges as solid lines.
    pub open spec fn outline_writes(self) -> Seq<(int, int, Color)> {
        (Line2D { from: self.a, to: self.b }).solid_writes() + (Line2D {
            from: self.b,
            to: self.c,
        }).solid_writes() + (Line2D { from: self.c, to: self.a }).solid_writes()
    }

    /// All writes of the anti-aliased triangle outline: its three edges as
    /// anti-aliased lines.
    pub open spec fn outline_aa_writes(self) -> Seq<(int, int, Color)> {
        (Line2D { from: self.a, to: self.b }).aa_writes() + (Line2D {
            from: self.b,
            to: self.c,
        }).aa_writes() + (Line2D { from: self.c, to: self.a }).aa_writes()
    }

    /// Draws the filled, color-interpolated triangle; a degenerate triangle
    /// is a no-op. Reports the first pixel that misses the buffer.
    pub fn draw(&self, canvas: &mut raster::Image) -> (r: Result<(), DrawError>)
        requires
            self.wf(),
            img_wf(*old(canvas)),
        ensures
            img_wf(*final(canvas)),
            img_dims(*final(canvas)) == img_dims(*old(canvas)),
            img_cells(*final(canvas)) == paint(
                img_cells(*old(canvas)),
                img_dims(*old(canvas)).0,
                img_dims(*old(canvas)).1,
                self.fill_writes(),
            ),
            r is Ok <==> paint_ok(
                img_dims(*old(canvas)).0,
                img_dims(*old(canvas)).1,
                self.fill_writes(),
            ),
    {
        let px = self.fill_pixels();
        blit(canvas, &px)
    }

    /// Draws the triangle outline as three solid lines; reports the first
    /// pixel that misses the buffer.
    pub fn draw_outline(&self, canvas: &mut raster::Image) -> (r: Result<(), DrawError>)
        requires
            self.wf(),
            img_wf(*old(canvas)),
        ensures
            img_wf(*final(canvas)),
            img_dims(*final(canvas)) == img_dims(*old(canvas)),
            img_cells(*final(canvas)) == paint(
                img_cells(*old(canvas)),
                img_dims(*old(canvas)).0,
                img_dims(*old(canvas)).1,
                self.outline_writes(),
            ),
            r is Ok <==> paint_ok(
                img_dims(*old(canvas)).0,
                img_dims(*old(canvas)).1,
                self.outline_writes(),
            ),
    {
        let mut px = Line2D::new(self.a, self.b).solid_pixels();
        let mut p2 = Line2D::new(self.b, self.c).solid_pixels();
        let mut p3 = Line2D::new(self.c, self.a).solid_pixels();
        let ghost s1 = px@;
        let ghost s2 = p2@;
        let ghost s3 = p3@;
        px.append(&mut p2);
        px.append(&mut p3);
        proof {
            assert(writes_view(px@) =~= writes_view(s1) + writes_view(s2) + writes_view(s3));
        }
        blit(canvas, &px)
    }

    /// Draws the anti-aliased triangle outline as three anti-aliased lines;
    /// reports the first pixel that misses the buffer.
    pub fn draw_outline_aa(&self, canvas: &mut raster::Image) -> (r: Result<(), DrawError>)
        requires
            self.wf(),
            img_wf(*old(canvas)),
        ensures
            img_wf(*final(canvas)),
            img_dims(*final(canvas)) == img_dims(*old(canvas)),
            img_cells(*final(canvas)) == paint(
                img_cells(*old(canvas)),
                img_dims(*old(canvas)).0,
                img_dims(*old(canvas)).1,
                self.outline_aa_writes(),
            ),
            r is Ok <==> paint_ok(
                img_dims(*old(canvas)).0,
                img_dims(*old(canvas)).1,
                self.outline_aa_writes(),
            ),
    {
        let mut px = Line2D::new(self.a, self.b).aa_pixels();
        let mut p2 = Line2D::new(self.b, self.c).aa_pixels();
        let mut p3 = Line2D::new(self.c, self.a).aa_pixels();
        let ghost s1 = px@;
        let ghost s2 = p2@;
        let ghost s3 = p3@;
        px.append(&mut p2);
        px.append(&mut p3);
        proof {
            assert(writes_view(px@) =~= writes_view(s1) + writes_view(s2) + writes_view(s3));
        }
        blit(canvas, &px)
    }

    /// Draws the triangle filled and anti-aliased: the anti-aliased outline
    /// first, then the solid fill over it, so the hard edge of the fill
    /// does not clobber the anti-aliased fringe outside the boundary.
    pub fn draw_aa(&self, canvas: &mut raster::Image) -> (r: Result<(), DrawError>)
        requires
            self.wf(),
            img_wf(*old(canvas)),
        ensures
            img_wf(*final(canvas)),
            img_dims(*final(canvas)) == img_dims(*old(canvas)),
            img_cells(*final(canvas)) == paint(
                img_cells(*old(canvas)),
                img_dims(*old(canvas)).0,
                img_dims(*old(canvas)).1,
                self.outline_aa_writes() + self.fill_writes(),
            ),
            r is Ok <==> paint_ok(
                img_dims(*old(canvas)).0,
                img_dims(*old(canvas)).1,
                self.outline_aa_writes() + self.fill_writes(),
            ),
    {
        let ghost w = img_dims(*old(canvas)).0;
        let ghost h = img_dims(*old(canvas)).1;
        let ghost cells0 = img_cells(*old(canvas));
        proof {
            lemma_paint_append(cells0, w, h, self.outline_aa_writes(), self.fill_writes());
        }
        let r1 = self.draw_outline_aa(canvas);
        if r1.is_err() {
            return r1;
        }
        self.draw(canvas)
    }
}

/// Every cell of one fill column of a uniformly colored triangle carries
/// that color.
proof fn lemma_tri_col_uniform(t: Triangle2D, col: Color, xs: int, ys: int)
    requires
        t.a.color == col,
        t.b.color == col,
        t.c.color == col,
        tri_den(t) >= 1,
    ensures
        forall|j: int|
            0 <= j < tri_col(t, xs, ys).len() ==> #[trigger] tri_col(t, xs, ys)[j].2 == (Color {
                r: col.r,
                g: col.g,
                b: col.b,
                a: 255,
            }),
    decreases tri_ymax(t) - ys,
{
    if ys >= tri_ymax(t) || tri_ymax(t) - ys < 0 {
    } else {
        lemma_tri_col_uniform(t, col, xs, ys + 1);
        if tri_inside(t, xs, ys) {
            lemma_pixel_uniform(t, col, xs, ys);
        }
        let whole = tri_col(t, xs, ys);
        let cell = if tri_inside(t, xs, ys) {
            seq![(xs, ys, tri_pixel_color(t, xs, ys))]
        } else {
            Seq::<(int, int, Color)>::empty()
        };
        let rest = tri_col(t, xs, ys + 1);
        assert(whole == cell + rest);
        assert forall|j: int|
            0 <= j < whole.len() implies #[trigger] whole[j].2 == (Color {
                r: col.r,
                g: col.g,
                b: col.b,
                a: 255,
            }) by {
            if j < cell.len() {
                assert(whole[j] == cell[j]);
            } else {
                assert(whole[j] == rest[j - cell.len()]);
            }
        }
    }
}

/// An inside pixel of a uniformly colored triangle gets exactly that color:
/// the barycentric weights sum to the denominator, so equal channels come
/// out unchanged.
proof fn lemma_pixel_uniform(t: Triangle2D, col: Color, x: int, y: int)
    requires
        t.a.color == col,
        t.b.color == col,
        t.c.color == col,
        tri_den(t) >= 1,
        tri_inside(t, x, y),
    ensures
        tri_pixel_color(t, x, y) == (Color { r: col.r, g: col.g, b: col.b, a: 255 }),
{
    let w1 = -edge1(t, x, y);
    let w2 = -edge2(t, x, y);
    let w3 = -edge3(t, x, y);
    let den = tri_den(t);
    lemma_edge_sum(t, x, y);
    assert(w1 + w2 + w3 == den);
    assert(col.r * w1 + col.r * w2 + col.r * w3 == den * col.r) by (nonlinear_arith)
        requires
            w1 + w2 + w3 == den,
    ;
    assert(col.g * w1 + col.g * w2 + col.g * w3 == den * col.g) by (nonlinear_arith)
        requires
            w1 + w2 + w3 == den,
    ;
    assert(col.b * w1 + col.b * w2 + col.b * w3 == den * col.b) by (nonlinear_arith)
        requires
            w1 + w2 + w3 == den,
    ;
    vstd::arithmetic::div_mod::lemma_div_multiples_vanish(col.r as int, den);
    vstd::arithmetic::div_mod::lemma_div_multiples_vanish(col.g as int, den);
    vstd::arithmetic::div_mod::lemma_div_multiples_vanish(col.b as int, den);
}

/// Every fill column from `xs` rightward of a uniformly colored triangle
/// carries that color.
proof fn lemma_tri_cols_uniform(t: Triangle2D, col: Color, xs: int)
    requires
        t.a.color == col,
        t.b.color == col,
        t.c.color == col,
        tri_den(t) >= 1,
    ensures
        forall|j: int|
            0 <= j < tri_cols(t, xs).len() ==> #[trigger] tri_cols(t, xs)[j].2 == (Color {
                r: col.r,
                g: col.g,
                b: col.b,
                a: 255,
            }),
    decreases tri_xmax(t) - xs,
{
    if xs >= tri_xmax(t) || tri_xmax(t) - xs < 0 {
    } else {
        lemma_tri_col_uniform(t, col, xs, tri_ymin(t));
        lemma_tri_cols_uniform(t, col, xs + 1);
        let whole = tri_cols(t, xs);
        let head = tri_col(t, xs, tri_ymin(t));
        let rest = tri_cols(t, xs + 1);
        assert(whole == head + rest);
        assert forall|j: int|
            0 <= j < whole.len() implies #[trigger] whole[j].2 == (Color {
                r: col.r,
                g: col.g,
                b: col.b,
                a: 255,
            }) by {
            if j < head.len() {
                assert(whole[j] == head[j]);
            } else {
                assert(whole[j] == rest[j - head.len()]);
            }
        }
    }
}

/// A filled triangle whose three vertices share one color has a uniformly
/// colored interior: barycentric interpolation of identical inputs is the
/// identity, so every fill write carries exactly the shared color.
pub proof fn lemma_fill_uniform_color(t: Triangle2D, col: Color)
    requires
        t.a.color == col,
        t.b.color == col,
        t.c.color == col,
    ensures
        forall|j: int|
            0 <= j < t.fill_writes().len() ==> #[trigger] t.fill_writes()[j].2 == (Color {
                r: col.r,
                g: col.g,
                b: col.b,
                a: 255,
            }),
{
    if tri_area2(t) != 0 {
        let o = oriented(t);
        lemma_den_is_area(t);
        lemma_tri_cols_uniform(o, col, tri_xmin(o));
    }
}

/// Evaluates a half-plane expression `a * x + b * y + c` in bounded
/// arithmetic.
fn edge_eval(a: i64, b: i64, cc: i64, x: i64, y: i64) -> (r: i64)
    requires
        iabs(a as int) <= 0x400_0000,
        iabs(b as int) <= 0x400_0000,
        iabs(cc as int) <= 0x10_0000_0000_0000,
        iabs(x as int) <= 0x400_0000,
        iabs(y as int) <= 0x400_0000,
    ensures
        r == a * x + b * y + cc,
{
    proof {
        assert(iabs(a as int * x as int) <= 0x10_0000_0000_0000 && iabs(b as int * y as int)
            <= 0x10_0000_0000_0000) by (nonlinear_arith)
            requires
                iabs(a as int) <= 0x400_0000,
                iabs(b as int) <= 0x400_0000,
                iabs(x as int) <= 0x400_0000,
                iabs(y as int) <= 0x400_0000,
        ;
    }
    a * x + b * y + cc
}

/// The smaller of three columns.
fn min3(a: i32, b: i32, c: i32) -> (r: i32)
    ensures
        r as int == ({
            let m: int = if a <= b {
                a as int
            } else {
                b as int
            };
            if m <= c {
                m
            } else {
                c as int
            }
        }),
{
    let m = if a <= b {
        a
    } else {
        b
    };
    if m <= c {
        m
    } else {
        c
    }
}

/// The larger of three columns.
fn max3(a: i32, b: i32, c: i32) -> (r: i32)
    ensures
        r as int == ({
            let m: int = if a >= b {
                a as int
            } else {
                b as int
            };
            if m >= c {
                m
            } else {
                c as int
            }
        }),
{
    let m = if a >= b {
        a
    } else {
        b
    };
    if m >= c {
        m
    } else {
        c
    }
}

} // verus!
