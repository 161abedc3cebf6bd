//! A 2D line segment, rasterized with the integer Bresenham algorithm.

use vstd::prelude::*;

use crate::canvas::blit;
use crate::canvas::img_cells;
use crate::canvas::img_dims;
use crate::canvas::img_wf;
use crate::canvas::paint;
use crate::canvas::paint_ok;
use crate::canvas::writes_view;
use crate::canvas::DrawError;
use crate::canvas::PixelWrite;
use crate::color::Color;
use crate::geometric::geometric::iabs;
use crate::geometric::geometric::interpolate;
use crate::geometric::geometric::interpolate_spec;
use crate::geometric::geometric::isqrt;
use crate::geometric::geometric::lemma_sqrt_floor_bounds;
use crate::geometric::geometric::sgn;
use crate::geometric::geometric::sqrt_floor;
use crate::geometric::point2d::Point2D;

verus! {

/// A 2D line from one colored point to another.
#[derive(Clone, Copy, PartialEq, Eq, Structural, Debug)]
pub struct Line2D {
    /// Start point of the line.
    pub from: Point2D,
    /// End point of the line.
    pub to: Point2D,
}

impl Line2D {
    /// A line between two points.
    pub fn new(from: Point2D, to: Point2D) -> (l: Line2D)
        ensures
            l == (Line2D { from, to }),
    {
        Line2D { from, to }
    }

    /// Whether both endpoints are small enough for the rasterizers.
    pub open spec fn wf(self) -> bool {
        self.from.wf() && self.to.wf()
    }

    /// Horizontal extent of the line.
    pub open spec fn dx(self) -> int {
        iabs(self.to.x - self.from.x)
    }

    /// Vertical extent of the line.
    pub open spec fn dy(self) -> int {
        iabs(self.to.y - self.from.y)
    }

    /// Number of Bresenham steps after the first pixel: the larger extent.
    pub open spec fn steps(self) -> int {
        if self.dx() > self.dy() {
            self.dx()
        } else {
            self.dy()
        }
    }

    /// The smaller extent, subtracted from the error term at each step.
    pub open spec fn efast(self) -> int {
        if self.dx() > self.dy() {
            self.dy()
        } else {
            self.dx()
        }
    }

    /// Direction of horizontal movement.
    pub open spec fn sx(self) -> int {
        sgn(self.to.x - self.from.x)
    }

    /// Direction of vertical movement.
    pub open spec fn sy(self) -> int {
        sgn(self.to.y - self.from.y)
    }

    /// Horizontal part of a parallel (major-axis) step.
    pub open spec fn px_step(self) -> int {
        if self.dx() > self.dy() {
            self.sx()
        } else {
            0
        }
    }

    /// Vertical part of a parallel (major-axis) step.
    pub open spec fn py_step(self) -> int {
        if self.dx() > self.dy() {
            0
        } else {
            self.sy()
        }
    }

    /// The color of the stepped pixel at column `x`: each channel is
    /// interpolated between the endpoint colors by the pixel's horizontal
    /// progress `|x - from.x| / dx`, the line's dominant-axis approximation
    /// of distance. A line with no horizontal extent keeps the start color.
    pub open spec fn grad_color(self, x: int) -> Color {
        if self.dx() == 0 {
            Color { r: self.from.color.r, g: self.from.color.g, b: self.from.color.b, a: 255 }
        } else {
            Color {
                r: interpolate_spec(
                    self.from.color.r,
                    self.to.color.r,
                    iabs(x - self.from.x),
                    self.dx(),
                ) as u8,
                g: interpolate_spec(
                    self.from.color.g,
                    self.to.color.g,
                    iabs(x - self.from.x),
                    self.dx(),
                ) as u8,
                b: interpolate_spec(
                    self.from.color.b,
                    self.to.color.b,
                    iabs(x - self.from.x),
                    self.dx(),
                ) as u8,
                a: 255,
            }
        }
    }

    /// The writes the Bresenham walk emits from state `(x, y)` with doubled
    /// error term `e2`, for `k` more steps: each step subtracts twice the
    /// small extent from the error; a negative error forces a diagonal step
    /// and adds back twice the large extent, otherwise the step is parallel
    /// to the major axis.
    pub open spec fn line_tail(self, x: int, y: int, e2: int, k: nat) -> Seq<(int, int, Color)>
        decreases k,
    {
        if k == 0 {
            Seq::empty()
        } else {
            let e2a = e2 - 2 * self.efast();
            if e2a < 0 {
                let xs = x + self.sx();
                let ys = y + self.sy();
                seq![(xs, ys, self.grad_color(xs))] + self.line_tail(
                    xs,
                    ys,
                    e2a + 2 * self.steps(),
                    (k - 1) as nat,
                )
            } else {
                let xs = x + self.px_step();
                let ys = y + self.py_step();
                seq![(xs, ys, self.grad_color(xs))] + self.line_tail(xs, ys, e2a, (k - 1) as nat)
            }
        }
    }

    /// All writes of the solid line: the start pixel in the start color,
    /// then one stepped pixel per Bresenham step, colors interpolated along
    /// the major axis.
    pub open spec fn solid_writes(self) -> Seq<(int, int, Color)> {
        seq![(self.from.x as int, self.from.y as int, self.from.color)] + self.line_tail(
            self.from.x as int,
            self.from.y as int,
            self.steps(),
            self.steps() as nat,
        )
    }

    /// The solid line's pixel writes as a list.
    #[verifier::loop_isolation(false)]
    #[verifier::rlimit(80)]
    pub fn solid_pixels(&self) -> (r: Vec<PixelWrite>)
        requires
            self.wf(),
        ensures
            writes_view(r@) == self.solid_writes(),
    {
        let l = *self;
        let tx: i64 = (self.to.x as i64) - (self.from.x as i64);
        let ty: i64 = (self.to.y as i64) - (self.from.y as i64);
        let dxv: i64 = if tx >= 0 {
            tx
        } else {
            -tx
        };
        let dyv: i64 = if ty >= 0 {
            ty
        } else {
            -ty
        };
        let sxv: i32 = if tx > 0 {
            1
        } else if tx < 0 {
            -1
        } else {
            0
        };
        let syv: i32 = if ty > 0 {
            1
        } else if ty < 0 {
            -1
        } else {
            0
        };
        let es: i64 = if dxv > dyv {
            dxv
        } else {
            dyv
        };
        let ef: i64 = if dxv > dyv {
            dyv
        } else {
            dxv
        };
        let pxv: i32 = if dxv > dyv {
            sxv
        } else {
            0
        };
        let pyv: i32 = if dxv > dyv {
            0
        } else {
            syv
        };
        let x0 = self.from.x;
        let y0 = self.from.y;
        let mut v: Vec<PixelWrite> = Vec::new();
        v.push(PixelWrite { x: x0, y: y0, color: self.from.color });
        proof {
            assert(writes_view(v@) =~= seq![(x0 as int, y0 as int, self.from.color)]);
        }
        let mut x: i32 = x0;
        let mut y: i32 = y0;
        let mut e2: i64 = es;
        let mut i: i64 = 0;
        let ghost mut d: int = 0;
        while i < es
            invariant
                0 <= i <= es,
                0 <= d <= ef,
                es == l.steps(),
                ef == l.efast(),
                dxv == l.dx(),
                dyv == l.dy(),
                sxv == l.sx(),
                syv == l.sy(),
                pxv == l.px_step(),
                pyv == l.py_step(),
                iabs(x as int - x0 as int) <= (if dxv > dyv {
                    i as int
                } else {
                    d
                }),
                iabs(y as int - y0 as int) <= (if dxv > dyv {
                    d
                } else {
                    i as int
                }),
                e2 == es - 2 * ef * i + 2 * es * d,
                0 <= e2 <= 2 * es,
                writes_view(v@) + l.line_tail(x as int, y as int, e2 as int, (es - i) as nat)
                    == l.solid_writes(),
            decreases es - i,
        {
            let ghost prev_tail = l.line_tail(x as int, y as int, e2 as int, (es - i) as nat);
            let e2a: i64 = e2 - 2 * ef;
            let diagonal = e2a < 0;
            if diagonal {
                e2 = e2a + 2 * es;
                x = x + sxv;
                y = y + syv;
                proof {
                    d = d + 1;
                }
            } else {
                e2 = e2a;
                x = x + pxv;
                y = y + pyv;
            }
            proof {
                assert(e2 == es - 2 * ef * (i + 1) + 2 * es * d) by (nonlinear_arith)
                    requires
                        diagonal ==> e2 == (es - 2 * ef * i + 2 * es * (d - 1)) - 2 * ef + 2 * es,
                        !diagonal ==> e2 == (es - 2 * ef * i + 2 * es * d) - 2 * ef,
                ;
                assert(d <= ef) by (nonlinear_arith)
                    requires
                        e2 == es - 2 * ef * (i + 1) + 2 * es * d,
                        0 <= e2 <= 2 * es,
                        0 <= i + 1 <= es,
                        0 <= ef <= es,
                        0 <= d,
                        1 <= es,
                ;
            }
            let num: i64 = {
                let dfx: i64 = (x as i64) - (x0 as i64);
                if dfx >= 0 {
                    dfx
                } else {
                    -dfx
                }
            };
            let color = if dxv == 0 {
                Color::rgb(self.from.color.r, self.from.color.g, self.from.color.b)
            } else {
                Color {
                    r: interpolate(self.from.color.r, self.to.color.r, num, dxv),
                    g: interpolate(self.from.color.g, self.to.color.g, num, dxv),
                    b: interpolate(self.from.color.b, self.to.color.b, num, dxv),
                    a: 255,
                }
            };
            assert(color == l.grad_color(x as int));
            let ghost oldv = v@;
            v.push(PixelWrite { x, y, color });
            i = i + 1;
            proof {
                let w: (int, int, Color) = (x as int, y as int, color);
                let tail_new = l.line_tail(x as int, y as int, e2 as int, (es - i) as nat);
                assert(writes_view(v@) =~= writes_view(oldv) + seq![w]);
                assert(prev_tail == seq![w] + tail_new);
                assert(writes_view(v@) + tail_new =~= writes_view(oldv) + prev_tail);
            }
        }
        proof {
            assert(l.line_tail(x as int, y as int, e2 as int, 0) =~= Seq::<(int, int, Color)>::empty());
            assert(writes_view(v@) + Seq::<(int, int, Color)>::empty() =~= writes_view(v@));
        }
        v
    }
    /// Draws the solid, color-interpolated line; reports the first pixel
    /// that misses the buffer.
    pub fn draw(&self, canvas: &mut raster::Image) -> (r: Result<(), DrawError>)
        requires
            self.wf(),
            img_wf(*old(canvas)),
        ensures
            img_wf(*final(canvas)),
            img_dims(*final(canvas)) == img_dims(*old(canvas)),
            img_cells(*final(canvas)) == paint(
                img_cells(*old(canvas)),
                img_dims(*old(canvas)).0,
                img_dims(*old(canvas)).1,
                self.solid_writes(),
            ),
            r is Ok <==> paint_ok(
                img_dims(*old(canvas)).0,
                img_dims(*old(canvas)).1,
                self.solid_writes(),
            ),
    {
        let px = self.solid_pixels();
        blit(canvas, &px)
    }

    /// Same as `draw`: a line has no fillable interior.
    pub fn draw_outline(&self, canvas: &mut raster::Image) -> (r: Result<(), DrawError>)
        requires
            self.wf(),
            img_wf(*old(canvas)),
        ensures
            img_wf(*final(canvas)),
            img_dims(*final(canvas)) == img_dims(*old(canvas)),
            img_cells(*final(canvas)) == paint(
                img_cells(*old(canvas)),
                img_dims(*old(canvas)).0,
                img_dims(*old(canvas)).1,
                self.solid_writes(),
            ),
            r is Ok <==> paint_ok(
                img_dims(*old(canvas)).0,
                img_dims(*old(canvas)).1,
                self.solid_writes(),
            ),
    {
        self.draw(canvas)
    }
}

/// Anti-aliased channel value: the channel scaled by the coverage fraction
/// `(ed - q) / ed` and clamped into `0 ..= 255`.
pub open spec fn aa_channel(ch: u8, q: int, ed: int) -> int {
    let n = if ed - q < 0 {
        0
    } else {
        ed - q
    };
    let v = (ch * n) / ed;
    if v > 255 {
        255
    } else {
        v
    }
}

/// Computes a coverage-scaled color: each channel of `col` times
/// `(ed - q) / ed`, clamped, with opaque alpha.
fn coverage_color(col: Color, q: i64, ed: i64) -> (c: Color)
    requires
        1 <= ed <= 0x1_0000_0000,
        iabs(q as int) <= 0x40_0000_0000_0000,
    ensures
        c == (Color {
            r: aa_channel(col.r, q as int, ed as int) as u8,
            g: aa_channel(col.g, q as int, ed as int) as u8,
            b: aa_channel(col.b, q as int, ed as int) as u8,
            a: 255,
        }),
{
    let n0: i64 = ed - q;
    let n: i64 = if n0 < 0 {
        0
    } else {
        n0
    };
    assert(0 <= col.r * n <= 255 * n && 0 <= col.g * n <= 255 * n && 0 <= col.b * n <= 255 * n)
        by (nonlinear_arith)
        requires
            0 <= n,
            col.r <= 255,
            col.g <= 255,
            col.b <= 255,
    ;
    let pr: i64 = (col.r as i64) * n;
    let pg: i64 = (col.g as i64) * n;
    let pb: i64 = (col.b as i64) * n;
    let qr: i64 = pr / ed;
    let qg: i64 = pg / ed;
    let qb: i64 = pb / ed;
    assert(0 <= qr && 0 <= qg && 0 <= qb && qr == pr as int / ed as int && qg == pg as int
        / ed as int && qb == pb as int / ed as int) by (nonlinear_arith)
        requires
            0 <= pr,
            0 <= pg,
            0 <= pb,
            1 <= ed,
            qr == pr / ed,
            qg == pg / ed,
            qb == pb / ed,
    ;
    Color {
        r: if qr > 255 {
            255
        } else {
            qr as u8
        },
        g: if qg > 255 {
            255
        } else {
            qg as u8
        },
        b: if qb > 255 {
            255
        } else {
            qb as u8
        },
        a: 255,
    }
}

impl Line2D {
    /// Euclidean length estimate of the anti-aliased walk: the integer
    /// square root of `dx^2 + dy^2`, and 1 for a single point.
    pub open spec fn ed(self) -> int {
        if self.dx() + self.dy() == 0 {
            1
        } else {
            sqrt_floor(self.dx() * self.dx() + self.dy() * self.dy())
        }
    }

    /// The coverage color for error distance `q`, computed from the start
    /// color alone: the anti-aliased walk does not interpolate toward the end
    /// color, an asymmetry with the solid walk that is kept deliberately.
    pub open spec fn aa_color(self, q: int) -> Color {
        Color {
            r: aa_channel(self.from.color.r, q, self.ed()) as u8,
            g: aa_channel(self.from.color.g, q, self.ed()) as u8,
            b: aa_channel(self.from.color.b, q, self.ed()) as u8,
            a: 255,
        }
    }

    /// Horizontal step direction of the anti-aliased walk (never 0).
    pub open spec fn aa_sx(self) -> int {
        if self.from.x < self.to.x {
            1
        } else {
            -1
        }
    }

    /// Vertical step direction of the anti-aliased walk (never 0).
    pub open spec fn aa_sy(self) -> int {
        if self.from.y < self.to.y {
            1
        } else {
            -1
        }
    }

    /// The writes of the anti-aliased walk from state `(x0, y0)` with error
    /// `err`: each round emits the primary pixel with its coverage color,
    /// then, per axis stepped, a coverage-weighted neighbor whenever its
    /// error distance is below the length threshold; the walk stops on the
    /// axis that reaches the endpoint first.
    pub open spec fn aa_tail(self, x0: int, y0: int, err: int, fuel: nat) -> Seq<(int, int, Color)>
        decreases fuel,
    {
        if fuel == 0 {
            Seq::empty()
        } else {
            let dx = self.dx();
            let dy = self.dy();
            let ed = self.ed();
            let x1 = self.to.x as int;
            let y1 = self.to.y as int;
            let main = seq![(x0, y0, self.aa_color(iabs(err - dx + dy)))];
            let e2 = err;
            if 2 * e2 >= -dx {
                if x0 == x1 {
                    main
                } else {
                    let w1 = if e2 + dy < ed {
                        seq![(x0, y0 + self.aa_sy(), self.aa_color(e2 + dy))]
                    } else {
                        Seq::empty()
                    };
                    if 2 * e2 <= dy {
                        if y0 == y1 {
                            main + w1
                        } else {
                            let w2 = if dx - e2 < ed {
                                seq![(x0 + self.aa_sx(), y0, self.aa_color(dx - e2))]
                            } else {
                                Seq::empty()
                            };
                            main + w1 + w2 + self.aa_tail(
                                x0 + self.aa_sx(),
                                y0 + self.aa_sy(),
                                err - dy + dx,
                                (fuel - 1) as nat,
                            )
                        }
                    } else {
                        main + w1 + self.aa_tail(x0 + self.aa_sx(), y0, err - dy, (fuel - 1) as nat)
                    }
                }
            } else {
                if 2 * e2 <= dy {
                    if y0 == y1 {
                        main
                    } else {
                        let w2 = if dx - e2 < ed {
                            seq![(x0 + self.aa_sx(), y0, self.aa_color(dx - e2))]
                        } else {
                            Seq::empty()
                        };
                        main + w2 + self.aa_tail(x0, y0 + self.aa_sy(), err + dx, (fuel - 1) as nat)
                    }
                } else {
                    main
                }
            }
        }
    }

    /// All writes of the anti-aliased line.
    pub open spec fn aa_writes(self) -> Seq<(int, int, Color)> {
        self.aa_tail(
            self.from.x as int,
            self.from.y as int,
            self.dx() - self.dy(),
            (self.dx() + self.dy() + 1) as nat,
        )
    }
}

impl Line2D {
    /// The anti-aliased line's pixel writes as a list.
    #[verifier::rlimit(100)]
    pub fn aa_pixels(&self) -> (r: Vec<PixelWrite>)
        requires
            self.wf(),
        ensures
            writes_view(r@) == self.aa_writes(),
    {
        let l = *self;
        let tx: i64 = (self.to.x as i64) - (self.from.x as i64);
        let ty: i64 = (self.to.y as i64) - (self.from.y as i64);
        let dxv: i64 = if tx >= 0 {
            tx
        } else {
            -tx
        };
        let dyv: i64 = if ty >= 0 {
            ty
        } else {
            -ty
        };
        assert(dxv * dxv + dyv * dyv <= 0x10_0000_0000_0000) by (nonlinear_arith)
            requires
                0 <= dxv <= 0x200_0000,
                0 <= dyv <= 0x200_0000,
        ;
        let edv: i64 = if dxv + dyv == 0 {
            1
        } else {
            isqrt(dxv * dxv + dyv * dyv)
        };
        proof {
            if l.dx() + l.dy() != 0 {
                lemma_sqrt_floor_bounds(l.dx() * l.dx() + l.dy() * l.dy());
                assert(edv >= 1 && edv <= 0x1_0000_0000) by (nonlinear_arith)
                    requires
                        edv == sqrt_floor(l.dx() * l.dx() + l.dy() * l.dy()),
                        edv * edv <= l.dx() * l.dx() + l.dy() * l.dy(),
                        (edv + 1) * (edv + 1) > l.dx() * l.dx() + l.dy() * l.dy(),
                        0 <= l.dx() <= 0x200_0000,
                        0 <= l.dy() <= 0x200_0000,
                        l.dx() + l.dy() >= 1,
                ;
            }
        }
        let sxv: i32 = if self.from.x < self.to.x {
            1
        } else {
            -1
        };
        let syv: i32 = if self.from.y < self.to.y {
            1
        } else {
            -1
        };
        let x1 = self.to.x;
        let y1 = self.to.y;
        let mut x0 = self.from.x;
        let mut y0 = self.from.y;
        let mut err: i64 = dxv - dyv;
        let mut v: Vec<PixelWrite> = Vec::new();
        let ghost mut fuel: int = dxv + dyv + 1;
        proof {
            assert(writes_view(v@) =~= Seq::<(int, int, Color)>::empty());
            assert(writes_view(v@) + l.aa_writes() =~= l.aa_writes());
            let xoff0 = iabs(x0 as int - l.from.x as int);
            let yoff0 = iabs(y0 as int - l.from.y as int);
            assert(xoff0 == 0 && yoff0 == 0);
            assert((dxv + dyv) * (1 + xoff0 + yoff0) == dxv + dyv) by (nonlinear_arith)
                requires
                    xoff0 == 0,
                    yoff0 == 0,
            ;
        }
        loop
            invariant_except_break
                l == *self,
                l.wf(),
                dxv == l.dx(),
                dyv == l.dy(),
                edv == l.ed(),
                1 <= edv <= 0x1_0000_0000,
                sxv as int == l.aa_sx(),
                syv as int == l.aa_sy(),
                x1 == l.to.x,
                y1 == l.to.y,
                sxv == 1 ==> l.from.x <= x0 <= x1,
                sxv == -1 ==> x1 <= x0 <= l.from.x,
                syv == 1 ==> l.from.y <= y0 <= y1,
                syv == -1 ==> y1 <= y0 <= l.from.y,
                iabs(err as int) <= 1 + (dxv + dyv) * (1 + iabs(x0 as int - l.from.x as int)
                    + iabs(y0 as int - l.from.y as int)),
                fuel >= iabs(x1 as int - x0 as int) + iabs(y1 as int - y0 as int) + 1,
                writes_view(v@) + l.aa_tail(x0 as int, y0 as int, err as int, fuel as nat)
                    == l.aa_writes(),
            ensures
                writes_view(v@) == l.aa_writes(),
            decreases iabs(x1 as int - x0 as int) + iabs(y1 as int - y0 as int),
        {
            let ghost v_entry = v@;
            let ghost entry_tail = l.aa_tail(x0 as int, y0 as int, err as int, fuel as nat);
            let ghost xoff = iabs(x0 as int - l.from.x as int);
            let ghost yoff = iabs(y0 as int - l.from.y as int);
            proof {
                assert(xoff <= dxv && yoff <= dyv);
                assert((dxv + dyv) * (1 + xoff + yoff) <= (dxv + dyv) * (1 + dxv + dyv))
                    by (nonlinear_arith)
                    requires
                        0 <= dxv,
                        0 <= dyv,
                        0 <= xoff <= dxv,
                        0 <= yoff <= dyv,
                ;
                assert((dxv + dyv) * (1 + dxv + dyv) <= 0x20_0000_0000_0000) by (nonlinear_arith)
                    requires
                        0 <= dxv <= 0x200_0000,
                        0 <= dyv <= 0x200_0000,
                ;
            }
            let qmain: i64 = {
                let t: i64 = err - dxv + dyv;
                if t >= 0 {
                    t
                } else {
                    -t
                }
            };
            let cmain = coverage_color(self.from.color, qmain, edv);
            v.push(PixelWrite { x: x0, y: y0, color: cmain });
            let ghost wmain: (int, int, Color) = (x0 as int, y0 as int, cmain);
            proof {
                assert(cmain == l.aa_color(qmain as int));
                assert(writes_view(v@) =~= writes_view(v_entry) + seq![wmain]);
            }
            let e2: i64 = err;
            let x2: i32 = x0;
            let ghost mut w1seq: Seq<(int, int, Color)> = Seq::empty();
            let ghost mut w2seq: Seq<(int, int, Color)> = Seq::empty();
            let branch1 = 2 * e2 >= -dxv;
            if branch1 {
                if x0 == x1 {
                    proof {
                        assert(entry_tail == seq![wmain]);
                        assert(writes_view(v@) =~= l.aa_writes());
                    }
                    break ;
                }
                if e2 + dyv < edv {
                    let cn = coverage_color(self.from.color, e2 + dyv, edv);
                    v.push(PixelWrite { x: x0, y: y0 + syv, color: cn });
                    proof {
                        assert(cn == l.aa_color(e2 + dyv));
                        w1seq = seq![((x0 as int), (y0 + syv) as int, cn)];
                        assert(writes_view(v@) =~= writes_view(v_entry) + seq![wmain] + w1seq);
                    }
                }
                err = err - dyv;
                x0 = x0 + sxv;
            }
            if 2 * e2 <= dyv {
                if y0 == y1 {
                    proof {
                        assert(entry_tail == seq![wmain] + w1seq);
                        assert(writes_view(v@) =~= l.aa_writes());
                    }
                    break ;
                }
                if dxv - e2 < edv {
                    let cn2 = coverage_color(self.from.color, dxv - e2, edv);
                    v.push(PixelWrite { x: x2 + sxv, y: y0, color: cn2 });
                    proof {
                        assert(cn2 == l.aa_color(dxv - e2));
                        w2seq = seq![((x2 + sxv) as int, y0 as int, cn2)];
                        assert(writes_view(v@) =~= writes_view(v_entry) + seq![wmain] + w1seq
                            + w2seq);
                    }
                }
                err = err + dxv;
                y0 = y0 + syv;
            }
            proof {
                fuel = fuel - 1;
                let next_tail = l.aa_tail(x0 as int, y0 as int, err as int, fuel as nat);
                assert(entry_tail == seq![wmain] + w1seq + w2seq + next_tail);
                assert(writes_view(v@) =~= writes_view(v_entry) + seq![wmain] + w1seq + w2seq);
                assert(writes_view(v@) + next_tail =~= writes_view(v_entry) + entry_tail);
                let xoff2 = iabs(x0 as int - l.from.x as int);
                let yoff2 = iabs(y0 as int - l.from.y as int);
                assert(xoff2 + yoff2 >= xoff + yoff + 1);
                assert(iabs(err as int) <= 1 + (dxv + dyv) * (1 + xoff + yoff) + (dxv + dyv));
                assert(1 + (dxv + dyv) * (1 + xoff + yoff) + (dxv + dyv) <= 1 + (dxv + dyv) * (1
                    + xoff2 + yoff2)) by (nonlinear_arith)
                    requires
                        0 <= dxv,
                        0 <= dyv,
                        0 <= xoff + yoff,
                        xoff2 + yoff2 >= xoff + yoff + 1,
                ;
            }
        }
        v
    }

    /// Draws the anti-aliased line; reports the first pixel that misses the
    /// buffer.
    pub fn draw_aa(&self, canvas: &mut raster::Image) -> (r: Result<(), DrawError>)
        requires
            self.wf(),
            img_wf(*old(canvas)),
        ensures
            img_wf(*final(canvas)),
            img_dims(*final(canvas)) == img_dims(*old(canvas)),
            img_cells(*final(canvas)) == paint(
                img_cells(*old(canvas)),
                img_dims(*old(canvas)).0,
                img_dims(*old(canvas)).1,
                self.aa_writes(),
            ),
            r is Ok <==> paint_ok(
                img_dims(*old(canvas)).0,
                img_dims(*old(canvas)).1,
                self.aa_writes(),
            ),
    {
        let px = self.aa_pixels();
        blit(canvas, &px)
    }

    /// Same as `draw_aa`: a line has no fillable interior.
    pub fn draw_outline_aa(&self, canvas: &mut raster::Image) -> (r: Result<(), DrawError>)
        requires
            self.wf(),
            img_wf(*old(canvas)),
        ensures
            img_wf(*final(canvas)),
            img_dims(*final(canvas)) == img_dims(*old(canvas)),
            img_cells(*final(canvas)) == paint(
                img_cells(*old(canvas)),
                img_dims(*old(canvas)).0,
                img_dims(*old(canvas)).1,
                self.aa_writes(),
            ),
            r is Ok <==> paint_ok(
                img_dims(*old(canvas)).0,
                img_dims(*old(canvas)).1,
                self.aa_writes(),
            ),
    {
        self.draw_aa(canvas)
    }
}

/// Every Bresenham walk emits exactly one write per remaining step.
proof fn lemma_line_tail_len(l: Line2D, x: int, y: int, e2: int, k: nat)
    ensures
        l.line_tail(x, y, e2, k).len() == k,
    decreases k,
{
    if k > 0 {
        let e2a = e2 - 2 * l.efast();
        if e2a < 0 {
            lemma_line_tail_len(l, x + l.sx(), y + l.sy(), e2a + 2 * l.steps(), (k - 1) as nat);
        } else {
            lemma_line_tail_len(l, x + l.px_step(), y + l.py_step(), e2a, (k - 1) as nat);
        }
    }
}

/// A solid line rasterizes to exactly one pixel more than its larger
/// extent, and the first write is the start pixel in the start color.
pub proof fn lemma_line_pixel_count(l: Line2D)
    ensures
        l.solid_writes().len() == l.steps() + 1,
        l.solid_writes()[0] == (l.from.x as int, l.from.y as int, l.from.color),
{
    lemma_line_tail_len(
        l,
        l.from.x as int,
        l.from.y as int,
        l.steps(),
        l.steps() as nat,
    );
}

impl Line2D {
    /// The number of diagonal steps the walk takes in `k` steps starting
    /// from doubled error term `e2`.
    pub(crate) open spec fn diag_count(self, e2: int, k: nat) -> int
        decreases k,
    {
        if k == 0 {
            0
        } else {
            let e2a = e2 - 2 * self.efast();
            if e2a < 0 {
                1 + self.diag_count(e2a + 2 * self.steps(), (k - 1) as nat)
            } else {
                self.diag_count(e2a, (k - 1) as nat)
            }
        }
    }
}

/// Closed form of the diagonal count: how often the error term wraps in
/// `k` steps.
proof fn lemma_diag_count(l: Line2D, e2: int, k: nat)
    requires
        0 <= e2 < 2 * l.steps(),
    ensures
        l.diag_count(e2, k) == (2 * l.efast() * k - e2 + 2 * l.steps() - 1) / (2 * l.steps()),
    decreases k,
{
    let es = l.steps();
    let ef = l.efast();
    if k == 0 {
        assert(2 * ef * 0 == 0) by (nonlinear_arith);
        vstd::arithmetic::div_mod::lemma_basic_div(2 * es - 1 - e2, 2 * es);
    } else {
        let e2a = e2 - 2 * ef;
        assert(2 * ef * (k as int) == 2 * ef * (k - 1) + 2 * ef) by (nonlinear_arith);
        if e2a < 0 {
            lemma_diag_count(l, e2a + 2 * es, (k - 1) as nat);
            vstd::arithmetic::div_mod::lemma_div_plus_one(2 * ef * (k as int) - e2 - 1, 2 * es);
        } else {
            lemma_diag_count(l, e2a, (k - 1) as nat);
        }
    }
}

/// The last write of a `k`-step walk: the start advanced by one major-axis
/// step per round, plus one minor-axis step per diagonal.
proof fn lemma_line_tail_last(l: Line2D, x: int, y: int, e2: int, k: nat)
    requires
        k >= 1,
    ensures
        ({
            let dc = l.diag_count(e2, k);
            let xe = x + dc * l.sx() + (k - dc) * l.px_step();
            let ye = y + dc * l.sy() + (k - dc) * l.py_step();
            l.line_tail(x, y, e2, k).last() == (xe, ye, l.grad_color(xe))
        }),
    decreases k,
{
    let e2a = e2 - 2 * l.efast();
    let dc = l.diag_count(e2, k);
    if e2a < 0 {
        let xs = x + l.sx();
        let ys = y + l.sy();
        let e2n = e2a + 2 * l.steps();
        if k == 1 {
            assert(l.diag_count(e2n, 0) == 0);
            assert(l.line_tail(xs, ys, e2n, 0) =~= Seq::<(int, int, Color)>::empty());
            let head = seq![(xs, ys, l.grad_color(xs))];
            assert(l.line_tail(x, y, e2, k) == head + l.line_tail(xs, ys, e2n, 0));
            assert((head + l.line_tail(xs, ys, e2n, 0)).last() == head[0]);
            assert(1 * l.sx() == l.sx() && 0 * l.px_step() == 0 && 1 * l.sy() == l.sy() && 0
                * l.py_step() == 0) by (nonlinear_arith);
        } else {
            lemma_line_tail_len(l, xs, ys, e2n, (k - 1) as nat);
            lemma_line_tail_last(l, xs, ys, e2n, (k - 1) as nat);
            let rest = l.line_tail(xs, ys, e2n, (k - 1) as nat);
            let head = seq![(xs, ys, l.grad_color(xs))];
            assert((head + rest).last() == rest.last());
            let dc2 = l.diag_count(e2n, (k - 1) as nat);
            assert(dc == 1 + dc2);
            assert((1 + dc2) * l.sx() == l.sx() + dc2 * l.sx() && (1 + dc2) * l.sy() == l.sy()
                + dc2 * l.sy()) by (nonlinear_arith);
        }
    } else {
        let xs = x + l.px_step();
        let ys = y + l.py_step();
        if k == 1 {
            assert(l.diag_count(e2a, 0) == 0);
            assert(l.line_tail(xs, ys, e2a, 0) =~= Seq::<(int, int, Color)>::empty());
            let head = seq![(xs, ys, l.grad_color(xs))];
            assert(l.line_tail(x, y, e2, k) == head + l.line_tail(xs, ys, e2a, 0));
            assert((head + l.line_tail(xs, ys, e2a, 0)).last() == head[0]);
            assert(0 * l.sx() == 0 && 1 * l.px_step() == l.px_step() && 0 * l.sy() == 0 && 1
                * l.py_step() == l.py_step()) by (nonlinear_arith);
        } else {
            lemma_line_tail_len(l, xs, ys, e2a, (k - 1) as nat);
            lemma_line_tail_last(l, xs, ys, e2a, (k - 1) as nat);
            let rest = l.line_tail(xs, ys, e2a, (k - 1) as nat);
            let head = seq![(xs, ys, l.grad_color(xs))];
            assert((head + rest).last() == rest.last());
            let dc2 = l.diag_count(e2a, (k - 1) as nat);
            assert(dc == dc2);
            assert((k - dc) * l.px_step() == l.px_step() + (k - 1 - dc) * l.px_step() && (k - dc)
                * l.py_step() == l.py_step() + (k - 1 - dc) * l.py_step()) by (nonlinear_arith)
                requires
                    k >= 1,
            ;
        }
    }
}

/// A Bresenham line ends exactly on its target: the last write of a line
/// with at least one step is the endpoint pixel, in the gradient color of
/// its column.
pub proof fn lemma_line_endpoint(l: Line2D)
    requires
        l.steps() > 0,
    ensures
        l.solid_writes().last() == (l.to.x as int, l.to.y as int, l.grad_color(l.to.x as int)),
{
    let es = l.steps();
    let ef = l.efast();
    let x0 = l.from.x as int;
    let y0 = l.from.y as int;
    let tx = l.to.x - l.from.x;
    let ty = l.to.y - l.from.y;
    lemma_diag_count(l, es, es as nat);
    assert(2 * ef * es - es + 2 * es - 1 == ef * (2 * es) + (es - 1)) by (nonlinear_arith);
    vstd::arithmetic::div_mod::lemma_fundamental_div_mod_converse(
        2 * ef * es - es + 2 * es - 1,
        2 * es,
        ef,
        es - 1,
    );
    let dc = l.diag_count(es, es as nat);
    assert(dc == ef);
    lemma_line_tail_last(l, x0, y0, es, es as nat);
    lemma_line_tail_len(l, x0, y0, es, es as nat);
    let tail = l.line_tail(x0, y0, es, es as nat);
    assert(l.solid_writes().last() == tail.last());
    if l.dx() > l.dy() {
        // Major axis x: es steps of sx, ef diagonals of sy.
        assert(ef * l.sx() + (es - ef) * l.sx() == es * l.sx()) by (nonlinear_arith);
        assert((es - ef) * 0 == 0) by (nonlinear_arith);
        assert(es * l.sx() == tx) by (nonlinear_arith)
            requires
                es == iabs(tx),
                l.sx() == sgn(tx),
                tx != 0,
        ;
        assert(ef * l.sy() == ty) by (nonlinear_arith)
            requires
                ef == iabs(ty),
                l.sy() == sgn(ty),
        ;
    } else {
        assert(ef * l.sy() + (es - ef) * l.sy() == es * l.sy()) by (nonlinear_arith);
        assert((es - ef) * 0 == 0) by (nonlinear_arith);
        assert(es * l.sy() == ty) by (nonlinear_arith)
            requires
                es == iabs(ty),
                l.sy() == sgn(ty),
                ty != 0,
        ;
        assert(ef * l.sx() == tx) by (nonlinear_arith)
            requires
                ef == iabs(tx),
                l.sx() == sgn(tx),
        ;
    }
}

/// On a rightward horizontal walk the error term never goes negative, so
/// every step is parallel: one pixel per column, all in the start row.
proof fn lemma_line_tail_horizontal(l: Line2D, x: int, e2: int, k: nat)
    requires
        l.dy() == 0,
        l.dx() > 0,
        l.sx() == 1,
        e2 >= 0,
    ensures
        l.line_tail(x, l.from.y as int, e2, k).len() == k,
        forall|j: int|
            0 <= j < k ==> l.line_tail(x, l.from.y as int, e2, k)[j] == (
            x + j + 1,
            l.from.y as int,
            l.grad_color(x + j + 1),
            ),
    decreases k,
{
    if k > 0 {
        lemma_line_tail_horizontal(l, x + 1, e2, (k - 1) as nat);
    }
}

/// A horizontal line from `(x0, y)` rightward to `(x1, y)` rasterizes to
/// exactly `x1 - x0 + 1` pixels, one per column from `x0` to `x1`, all in
/// row `y`.
pub proof fn lemma_line_horizontal(l: Line2D)
    requires
        l.from.y == l.to.y,
        l.from.x < l.to.x,
    ensures
        l.solid_writes().len() == l.to.x - l.from.x + 1,
        forall|j: int|
            0 <= j < l.solid_writes().len() ==> l.solid_writes()[j].0 == l.from.x + j
                && l.solid_writes()[j].1 == l.from.y,
{
    let ws = l.solid_writes();
    let tail = l.line_tail(l.from.x as int, l.from.y as int, l.steps(), l.steps() as nat);
    lemma_line_tail_horizontal(l, l.from.x as int, l.steps(), l.steps() as nat);
    assert forall|j: int|
        0 <= j < ws.len() implies ws[j].0 == l.from.x + j && ws[j].1 == l.from.y by {
        if j > 0 {
            assert(ws[j] == tail[j - 1]);
        }
    }
}

} // verus!
