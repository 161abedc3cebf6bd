//! A 2D circle, rasterized with the integer midpoint algorithm.

use vstd::prelude::*;

use crate::canvas::blit;
use crate::canvas::img_cells;
use crate::canvas::img_dims;
use crate::canvas::img_wf;
use crate::canvas::paint;
use crate::canvas::paint_ok;
use crate::canvas::writes_view;
use crate::canvas::DrawError;
use crate::canvas::PixelWrite;
use crate::color::Color;
use crate::canvas::lemma_paint_append;
use crate::geometric::geometric::iabs;
use crate::geometric::geometric::tdiv;
use crate::geometric::geometric::tdiv_i64;
use crate::geometric::geometric::wrap_alpha;
use crate::geometric::geometric::wrap_u8;
use crate::geometric::geometric::MAX_COORD;
use crate::geometric::point2d::Point2D;

verus! {

/// A 2D circle: a radius and a colored center point.
#[derive(Clone, Copy, PartialEq, Eq, Structural, Debug)]
pub struct Circle2D {
    /// Radius of the circle.
    pub r: i32,
    /// Center point of the circle; its color is the circle's color.
    pub m: Point2D,
}

/// The four symmetric ring pixels the midpoint walk emits per step, one per
/// quadrant.
pub open spec fn ring_quad(xm: int, ym: int, x: int, y: int, col: Color) -> Seq<(int, int, Color)> {
    seq![(xm - x, ym - y, col), (xm + x, ym - y, col), (xm + x, ym + y, col), (xm - x, ym + y, col)]
}

/// The writes of the midpoint circle walk from state `(x, y)` with error
/// `err`: four symmetric pixels per round; the error decides whether the
/// walk steps vertically, horizontally, or both, and it ends once `x`
/// becomes positive.
pub open spec fn ring_arc(
    xm: int,
    ym: int,
    col: Color,
    x: int,
    y: int,
    err: int,
    r: int,
) -> Seq<(int, int, Color)>
    decreases (1 - x) + (r + 2 - y),
{
    let quad = ring_quad(xm, ym, x, y, col);
    let radius = err;
    let ystep = radius <= y;
    let y2 = if ystep {
        y + 1
    } else {
        y
    };
    let err2 = if ystep {
        err + 2 * (y + 1) + 1
    } else {
        err
    };
    let xstep = radius > x || err2 > y2;
    let x2 = if xstep {
        x + 1
    } else {
        x
    };
    let err3 = if xstep {
        err2 + 2 * (x + 1) + 1
    } else {
        err2
    };
    if x2 > 0 || y2 > r + 1 || x2 + y2 <= x + y {
        quad
    } else {
        quad + ring_arc(xm, ym, col, x2, y2, err3, r)
    }
}

impl Circle2D {
    /// A circle with the given radius and center point.
    pub fn new(r: i32, m: Point2D) -> (c: Circle2D)
        ensures
            c == (Circle2D { r, m }),
    {
        Circle2D { r, m }
    }

    /// The color of the circle: its center point's color.
    pub fn get_color(&self) -> (c: Color)
        ensures
            c == self.m.color,
    {
        self.m.get_color()
    }

    /// Whether the center and radius are small enough for the rasterizers.
    pub open spec fn wf(self) -> bool {
        self.m.wf() && 0 <= self.r <= MAX_COORD
    }

    /// All writes of the solid circle outline: the midpoint walk started at
    /// the leftmost point of the circle.
    pub open spec fn ring_writes(self) -> Seq<(int, int, Color)> {
        ring_arc(
            self.m.x as int,
            self.m.y as int,
            self.m.color,
            -(self.r as int),
            0,
            2 - 2 * (self.r as int),
            self.r as int,
        )
    }

    /// The solid circle outline's pixel writes as a list.
    #[verifier::rlimit(100)]
    pub fn ring_pixels(&self) -> (v: Vec<PixelWrite>)
        requires
            self.wf(),
        ensures
            writes_view(v@) == self.ring_writes(),
    {
        let c = *self;
        let xm = self.m.x;
        let ym = self.m.y;
        let r0 = self.r;
        let col = self.m.color;
        let mut x: i32 = -r0;
        let mut y: i32 = 0;
        let mut err: i64 = 2 - 2 * (r0 as i64);
        let mut v: Vec<PixelWrite> = Vec::new();
        proof {
            assert(writes_view(v@) =~= Seq::<(int, int, Color)>::empty());
            assert(err == (x + 1) * (x + 1) + (y + 1) * (y + 1) - (r0 as int) * (r0 as int))
                by (nonlinear_arith)
                requires
                    x == -(r0 as int),
                    y == 0,
                    err == 2 - 2 * (r0 as int),
            ;
            assert(writes_view(v@) + c.ring_writes() =~= c.ring_writes());
        }
        loop
            invariant_except_break
                c == *self,
                c.wf(),
                xm == c.m.x,
                ym == c.m.y,
                r0 == c.r,
                col == c.m.color,
                -(r0 as int) <= x <= 0,
                0 <= y <= r0,
                err == (x + 1) * (x + 1) + (y + 1) * (y + 1) - (r0 as int) * (r0 as int),
                writes_view(v@) + ring_arc(
                    xm as int,
                    ym as int,
                    col,
                    x as int,
                    y as int,
                    err as int,
                    r0 as int,
                ) == c.ring_writes(),
            ensures
                writes_view(v@) == c.ring_writes(),
            decreases (1 - x as int) + (r0 as int + 2 - y as int),
        {
            let ghost v_entry = v@;
            let ghost entry_tail = ring_arc(
                xm as int,
                ym as int,
                col,
                x as int,
                y as int,
                err as int,
                r0 as int,
            );
            let ghost x_old = x as int;
            let ghost y_old = y as int;
            v.push(PixelWrite { x: xm - x, y: ym - y, color: col });
            v.push(PixelWrite { x: xm + x, y: ym - y, color: col });
            v.push(PixelWrite { x: xm + x, y: ym + y, color: col });
            v.push(PixelWrite { x: xm - x, y: ym + y, color: col });
            proof {
                assert(writes_view(v@) =~= writes_view(v_entry) + ring_quad(
                    xm as int,
                    ym as int,
                    x as int,
                    y as int,
                    col,
                ));
            }
            let radius: i64 = err;
            proof {
                assert(-0x10_0000_0000_0000 <= err && err <= 0x10_0000_0000_0000)
                    by (nonlinear_arith)
                    requires
                        err == (x + 1) * (x + 1) + (y + 1) * (y + 1) - (r0 as int) * (r0 as int),
                        -(r0 as int) <= x <= 0,
                        0 <= y <= r0 as int,
                        0 <= r0 <= 0x100_0000,
                ;
            }
            if radius <= y as i64 {
                y = y + 1;
                err = err + 2 * (y as i64) + 1;
                proof {
                    assert(err == (x + 1) * (x + 1) + (y_old + 2) * (y_old + 2) - (r0 as int) * (
                    r0 as int)) by (nonlinear_arith)
                        requires
                            err == (x + 1) * (x + 1) + (y_old + 1) * (y_old + 1) - (r0 as int) * (
                            r0 as int) + 2 * (y_old + 1) + 1,
                            y == y_old + 1,
                    ;
                    assert(y <= r0) by (nonlinear_arith)
                        requires
                            (x + 1) * (x + 1) + (y_old + 1) * (y_old + 1) - (r0 as int) * (
                            r0 as int) <= y_old,
                            0 <= y_old,
                            0 <= r0,
                            y == y_old + 1,
                    ;
                }
            }
            if radius > x as i64 || err > y as i64 {
                proof {
                    assert(-0x10_0000_0000_0000 <= err && err <= 0x10_0000_0000_0000)
                        by (nonlinear_arith)
                        requires
                            err == (x + 1) * (x + 1) + (y + 1) * (y + 1) - (r0 as int) * (
                            r0 as int),
                            -(r0 as int) <= x <= 0,
                            0 <= y <= r0 as int + 1,
                            0 <= r0 <= 0x100_0000,
                    ;
                }
                x = x + 1;
                proof {
                    assert((x_old + 2) * (x_old + 2) == (x_old + 1) * (x_old + 1) + 2 * (x_old + 1)
                        + 1) by (nonlinear_arith);
                }
                err = err + 2 * (x as i64) + 1;
            }
            if x > 0 {
                proof {
                    assert(entry_tail == ring_quad(xm as int, ym as int, x_old, y_old, col));
                    assert(writes_view(v@) =~= c.ring_writes());
                }
                break ;
            }
            proof {
                let next_tail = ring_arc(
                    xm as int,
                    ym as int,
                    col,
                    x as int,
                    y as int,
                    err as int,
                    r0 as int,
                );
                assert(entry_tail == ring_quad(xm as int, ym as int, x_old, y_old, col)
                    + next_tail);
                assert(writes_view(v@) + next_tail =~= writes_view(v_entry) + entry_tail);
            }
        }
        v
    }

    /// Draws the solid circle outline; reports the first pixel that misses
    /// the buffer.
    pub fn draw(&self, canvas: &mut raster::Image) -> (r: Result<(), DrawError>)
        requires
            self.wf(),
            img_wf(*old(canvas)),
        ensures
            img_wf(*final(canvas)),
            img_dims(*final(canvas)) == img_dims(*old(canvas)),
            img_cells(*final(canvas)) == paint(
                img_cells(*old(canvas)),
                img_dims(*old(canvas)).0,
                img_dims(*old(canvas)).1,
                self.ring_writes(),
            ),
            r is Ok <==> paint_ok(
                img_dims(*old(canvas)).0,
                img_dims(*old(canvas)).1,
                self.ring_writes(),
            ),
    {
        let px = self.ring_pixels();
        blit(canvas, &px)
    }
}

/// The writes of one disk scan row: candidate offsets `tx ..= r` of row
/// `ty`, keeping those inside the circle.
pub open spec fn disk_row(
    xm: int,
    ym: int,
    col: Color,
    r: int,
    ty: int,
    tx: int,
) -> Seq<(int, int, Color)>
    decreases r + 1 - tx,
{
    if tx > r || r + 1 - tx < 0 {
        Seq::empty()
    } else {
        let cell = if tx * tx + ty * ty <= r * r {
            seq![(xm + tx, ym + ty, col)]
        } else {
            Seq::empty()
        };
        cell + disk_row(xm, ym, col, r, ty, tx + 1)
    }
}

/// The writes of the disk scan from row `ty` down: every offset of the
/// bounding square `[-r, r]` per axis is tested against `tx^2 + ty^2 <=
/// r^2`.
pub open spec fn disk_rows(xm: int, ym: int, col: Color, r: int, ty: int) -> Seq<(int, int, Color)>
    decreases r + 1 - ty,
{
    if ty > r || r + 1 - ty < 0 {
        Seq::empty()
    } else {
        disk_row(xm, ym, col, r, ty, -r) + disk_rows(xm, ym, col, r, ty + 1)
    }
}

impl Circle2D {
    /// All writes of the filled disk: a dense scan of the bounding square
    /// with a per-pixel inside test.
    pub open spec fn disk_writes(self) -> Seq<(int, int, Color)> {
        disk_rows(self.m.x as int, self.m.y as int, self.m.color, self.r as int, -(self.r as int))
    }

    /// The filled disk's pixel writes as a list.
    #[verifier::loop_isolation(false)]
    #[verifier::rlimit(100)]
    pub fn disk_pixels(&self) -> (v: Vec<PixelWrite>)
        requires
            self.wf(),
        ensures
            writes_view(v@) == self.disk_writes(),
    {
        let c = *self;
        let xm = self.m.x;
        let ym = self.m.y;
        let r0 = self.r;
        let col = self.m.color;
        proof {
            assert(0 <= (r0 as int) * (r0 as int) <= 0x1_0000_0000_0000) by (nonlinear_arith)
                requires
                    0 <= r0 <= 0x100_0000,
            ;
        }
        let r2: i64 = (r0 as i64) * (r0 as i64);
        let mut v: Vec<PixelWrite> = Vec::new();
        proof {
            assert(writes_view(v@) =~= Seq::<(int, int, Color)>::empty());
            assert(writes_view(v@) + c.disk_writes() =~= c.disk_writes());
        }
        let mut ty: i32 = -r0;
        while ty <= r0
            invariant
                -(r0 as int) <= ty <= r0 as int + 1,
                writes_view(v@) + disk_rows(xm as int, ym as int, col, r0 as int, ty as int)
                    == c.disk_writes(),
            decreases r0 as int + 1 - ty as int,
        {
            let ghost rows_entry = disk_rows(xm as int, ym as int, col, r0 as int, ty as int);
            let mut tx: i32 = -r0;
            while tx <= r0
                invariant
                    -(r0 as int) <= ty <= r0 as int,
                    -(r0 as int) <= tx <= r0 as int + 1,
                    writes_view(v@) + disk_row(xm as int, ym as int, col, r0 as int, ty as int, tx as int)
                        + disk_rows(xm as int, ym as int, col, r0 as int, ty as int + 1)
                        == c.disk_writes(),
                decreases r0 as int + 1 - tx as int,
            {
                let ghost v_entry = v@;
                let ghost row_entry = disk_row(
                    xm as int,
                    ym as int,
                    col,
                    r0 as int,
                    ty as int,
                    tx as int,
                );
                proof {
                    assert(0 <= (tx as int) * (tx as int) <= 0x4_0000_0000_0000 && 0 <= (ty as int)
                        * (ty as int) <= 0x4_0000_0000_0000) by (nonlinear_arith)
                        requires
                            -0x100_0001 <= tx <= 0x100_0001,
                            -0x100_0001 <= ty <= 0x100_0001,
                    ;
                }
                let inside = (tx as i64) * (tx as i64) + (ty as i64) * (ty as i64) <= r2;
                if inside {
                    v.push(PixelWrite { x: xm + tx, y: ym + ty, color: col });
                    proof {
                        assert(writes_view(v@) =~= writes_view(v_entry) + seq![
                            ((xm + tx) as int, (ym + ty) as int, col),
                        ]);
                    }
                }
                tx = tx + 1;
                proof {
                    let row_next = disk_row(xm as int, ym as int, col, r0 as int, ty as int, tx as int);
                    assert(row_entry == (if inside {
                        seq![((xm + tx - 1) as int, (ym + ty) as int, col)]
                    } else {
                        Seq::<(int, int, Color)>::empty()
                    }) + row_next);
                    assert(writes_view(v@) + row_next + disk_rows(
                        xm as int,
                        ym as int,
                        col,
                        r0 as int,
                        ty as int + 1,
                    ) =~= writes_view(v_entry) + row_entry + disk_rows(
                        xm as int,
                        ym as int,
                        col,
                        r0 as int,
                        ty as int + 1,
                    ));
                }
            }
            ty = ty + 1;
            proof {
                assert(disk_row(xm as int, ym as int, col, r0 as int, ty as int - 1, tx as int)
                    =~= Seq::<(int, int, Color)>::empty());
                assert(rows_entry == disk_row(xm as int, ym as int, col, r0 as int, ty as int - 1, -(
                r0 as int)) + disk_rows(xm as int, ym as int, col, r0 as int, ty as int));
            }
        }
        proof {
            assert(disk_rows(xm as int, ym as int, col, r0 as int, ty as int) =~= Seq::<
                (int, int, Color),
            >::empty());
        }
        v
    }

    /// Draws the circle as a filled disk, solid and without anti-aliasing;
    /// reports the first pixel that misses the buffer.
    pub fn draw_outline(&self, canvas: &mut raster::Image) -> (r: Result<(), DrawError>)
        requires
            self.wf(),
            img_wf(*old(canvas)),
        ensures
            img_wf(*final(canvas)),
            img_dims(*final(canvas)) == img_dims(*old(canvas)),
            img_cells(*final(canvas)) == paint(
                img_cells(*old(canvas)),
                img_dims(*old(canvas)).0,
                img_dims(*old(canvas)).1,
                self.disk_writes(),
            ),
            r is Ok <==> paint_ok(
                img_dims(*old(canvas)).0,
                img_dims(*old(canvas)).1,
                self.disk_writes(),
            ),
    {
        let px = self.disk_pixels();
        blit(canvas, &px)
    }
}

/// The four symmetric anti-aliased ring pixels at offset `(x, y)`: the
/// circle's color channels with the blend value in the alpha channel.
pub open spec fn aa_quad(
    xm: int,
    ym: int,
    x: int,
    y: int,
    col: Color,
    alpha: u8,
) -> Seq<(int, int, Color)> {
    let c = Color { r: col.r, g: col.g, b: col.b, a: alpha };
    seq![(xm + x, ym - y, c), (xm + y, ym + x, c), (xm - x, ym + y, c), (xm - y, ym - x, c)]
}

/// The writes of the anti-aliased midpoint walk from state `(x, y)` with
/// error `err`, for the circle `c`: `x` runs from the radius down to 0 and
/// `y` from 0 down to the negated radius. Each round blends the primary
/// ring pixel by the error distance, and emits an outward or inward
/// neighbor quadruple whenever its blend value is below fully opaque. All
/// blend arithmetic is the midpoint derivation's integer bookkeeping, its
/// result wrapped to a byte exactly as a machine cast would.
pub open spec fn aa_ring_arc(c: Circle2D, x: int, y: int, err: int) -> Seq<(int, int, Color)>
    decreases x + y + (c.r as int) + 1,
{
    let xm = c.m.x as int;
    let ym = c.m.y as int;
    let col = c.m.color;
    let rdiv = 2 * (c.r as int) - 1;
    let am = wrap_u8(tdiv(255 * iabs(err + 2 * (x + y) - 2), rdiv));
    let main = aa_quad(xm, ym, x, y, col, am);
    if x == 0 {
        main
    } else {
        let e2 = err;
        let xstep = err > y;
        let iout = tdiv(255 * (err + 2 * x - 1), rdiv);
        let wout = if xstep && iout < 255 {
            aa_quad(xm, ym, x, y - 1, col, wrap_u8(iout))
        } else {
            Seq::empty()
        };
        let x1 = if xstep {
            x - 1
        } else {
            x
        };
        let err1 = if xstep {
            err - (2 * (x - 1) - 1)
        } else {
            err
        };
        let x2 = x - 1;
        let ystep = e2 <= x2 + 1;
        let iin = tdiv(255 * (1 - 2 * y - e2), rdiv);
        let win = if ystep && iin < 255 {
            aa_quad(xm, ym, x2, y, col, wrap_u8(iin))
        } else {
            Seq::empty()
        };
        let y1 = if ystep {
            y - 1
        } else {
            y
        };
        let err2 = if ystep {
            err1 - (2 * (y - 1) - 1)
        } else {
            err1
        };
        if x1 < 0 || y1 < -(c.r as int) || x1 + y1 >= x + y {
            main + wout + win
        } else {
            main + wout + win + aa_ring_arc(c, x1, y1, err2)
        }
    }
}

impl Circle2D {
    /// All writes of the anti-aliased circle outline.
    pub open spec fn outline_aa_writes(self) -> Seq<(int, int, Color)> {
        aa_ring_arc(self, self.r as int, 0, 2 - 2 * (self.r as int))
    }

    /// The anti-aliased circle outline's pixel writes as a list.
    #[verifier::rlimit(100)]
    pub fn outline_aa_pixels(&self) -> (v: Vec<PixelWrite>)
        requires
            self.wf(),
        ensures
            writes_view(v@) == self.outline_aa_writes(),
    {
        let c = *self;
        let xm = self.m.x;
        let ym = self.m.y;
        let r0 = self.r;
        let col = self.m.color;
        let rdiv: i64 = 2 * (r0 as i64) - 1;
        let mut x: i32 = r0;
        let mut y: i32 = 0;
        let mut err: i64 = 2 - 2 * (r0 as i64);
        let mut v: Vec<PixelWrite> = Vec::new();
        proof {
            assert(writes_view(v@) =~= Seq::<(int, int, Color)>::empty());
            assert(err == (x - 1) * (x - 1) + (y - 1) * (y - 1) - (r0 as int) * (r0 as int))
                by (nonlinear_arith)
                requires
                    x == r0 as int,
                    y == 0,
                    err == 2 - 2 * (r0 as int),
            ;
            assert(writes_view(v@) + c.outline_aa_writes() =~= c.outline_aa_writes());
        }
        loop
            invariant_except_break
                c == *self,
                c.wf(),
                xm == c.m.x,
                ym == c.m.y,
                r0 == c.r,
                col == c.m.color,
                rdiv == 2 * (r0 as int) - 1,
                0 <= x <= r0,
                -(r0 as int) <= y <= 0,
                err == (x - 1) * (x - 1) + (y - 1) * (y - 1) - (r0 as int) * (r0 as int),
                writes_view(v@) + aa_ring_arc(c, x as int, y as int, err as int)
                    == c.outline_aa_writes(),
            ensures
                writes_view(v@) == c.outline_aa_writes(),
            decreases x as int + y as int + r0 as int,
        {
            let ghost v_entry = v@;
            let ghost entry_tail = aa_ring_arc(c, x as int, y as int, err as int);
            let ghost x_old = x as int;
            let ghost y_old = y as int;
            proof {
                assert(-0x10_0000_0000_0000 <= err && err <= 0x10_0000_0000_0000)
                    by (nonlinear_arith)
                    requires
                        err == (x - 1) * (x - 1) + (y - 1) * (y - 1) - (r0 as int) * (r0 as int),
                        0 <= x <= r0 as int,
                        -(r0 as int) <= y <= 0,
                        0 <= r0 <= 0x100_0000,
                ;
            }
            let tmain: i64 = {
                let t: i64 = err + 2 * ((x as i64) + (y as i64)) - 2;
                if t >= 0 {
                    t
                } else {
                    -t
                }
            };
            let am = wrap_alpha(tdiv_i64(255 * tmain, rdiv));
            let cm = Color { r: col.r, g: col.g, b: col.b, a: am };
            v.push(PixelWrite { x: xm + x, y: ym - y, color: cm });
            v.push(PixelWrite { x: xm + y, y: ym + x, color: cm });
            v.push(PixelWrite { x: xm - x, y: ym + y, color: cm });
            v.push(PixelWrite { x: xm - y, y: ym - x, color: cm });
            let ghost mainseq = aa_quad(xm as int, ym as int, x as int, y as int, col, am);
            proof {
                assert(writes_view(v@) =~= writes_view(v_entry) + mainseq);
            }
            if x == 0 {
                proof {
                    assert(entry_tail == mainseq);
                    assert(writes_view(v@) =~= c.outline_aa_writes());
                }
                break ;
            }
            let e2: i64 = err;
            let x2pre: i32 = x;
            let ghost mut woutseq: Seq<(int, int, Color)> = Seq::empty();
            let ghost mut winseq: Seq<(int, int, Color)> = Seq::empty();
            let xstep = err > y as i64;
            if xstep {
                let io = tdiv_i64(255 * (err + 2 * (x as i64) - 1), rdiv);
                if io < 255 {
                    let al = wrap_alpha(io);
                    let co = Color { r: col.r, g: col.g, b: col.b, a: al };
                    v.push(PixelWrite { x: xm + x, y: ym - y + 1, color: co });
                    v.push(PixelWrite { x: xm + y - 1, y: ym + x, color: co });
                    v.push(PixelWrite { x: xm - x, y: ym + y - 1, color: co });
                    v.push(PixelWrite { x: xm - y + 1, y: ym - x, color: co });
                    proof {
                        woutseq = aa_quad(xm as int, ym as int, x as int, y as int - 1, col, al);
                        assert(writes_view(v@) =~= writes_view(v_entry) + mainseq + woutseq);
                    }
                }
                x = x - 1;
                err = err - (2 * (x as i64) - 1);
                proof {
                    assert(err == (x - 1) * (x - 1) + (y - 1) * (y - 1) - (r0 as int) * (r0 as int))
                        by (nonlinear_arith)
                        requires
                            err == (x_old - 1) * (x_old - 1) + (y - 1) * (y - 1) - (r0 as int) * (
                            r0 as int) - (2 * (x_old - 1) - 1),
                            x == x_old - 1,
                    ;
                }
            }
            let ystep = e2 <= (x2pre as i64);
            if ystep {
                let ii = tdiv_i64(255 * (1 - 2 * (y as i64) - e2), rdiv);
                if ii < 255 {
                    let al2 = wrap_alpha(ii);
                    let ci = Color { r: col.r, g: col.g, b: col.b, a: al2 };
                    v.push(PixelWrite { x: xm + x2pre - 1, y: ym - y, color: ci });
                    v.push(PixelWrite { x: xm + y, y: ym + x2pre - 1, color: ci });
                    v.push(PixelWrite { x: xm - x2pre + 1, y: ym + y, color: ci });
                    v.push(PixelWrite { x: xm - y, y: ym - x2pre + 1, color: ci });
                    proof {
                        winseq = aa_quad(
                            xm as int,
                            ym as int,
                            x2pre as int - 1,
                            y as int,
                            col,
                            al2,
                        );
                        assert(writes_view(v@) =~= writes_view(v_entry) + mainseq + woutseq
                            + winseq);
                    }
                }
                proof {
                    assert(y as int - 1 >= -(r0 as int)) by (nonlinear_arith)
                        requires
                            e2 == (x_old - 1) * (x_old - 1) + (y - 1) * (y - 1) - (r0 as int) * (
                            r0 as int),
                            e2 <= x_old,
                            1 <= x_old <= r0 as int,
                            -(r0 as int) <= y <= 0,
                            0 <= r0,
                    ;
                }
                y = y - 1;
                err = err - (2 * (y as i64) - 1);
                proof {
                    assert(err == (x - 1) * (x - 1) + (y - 1) * (y - 1) - (r0 as int) * (r0 as int))
                        by (nonlinear_arith)
                        requires
                            err == (x - 1) * (x - 1) + (y_old - 1) * (y_old - 1) - (r0 as int) * (
                            r0 as int) - (2 * (y_old - 1) - 1),
                            y == y_old - 1,
                    ;
                }
            }
            proof {
                let next_tail = aa_ring_arc(c, x as int, y as int, err as int);
                assert(entry_tail == mainseq + woutseq + winseq + next_tail);
                assert(writes_view(v@) =~= writes_view(v_entry) + mainseq + woutseq + winseq);
                assert(writes_view(v@) + next_tail =~= writes_view(v_entry) + entry_tail);
            }
        }
        v
    }

    /// Draws the anti-aliased circle outline; reports the first pixel that
    /// misses the buffer.
    pub fn draw_outline_aa(&self, canvas: &mut raster::Image) -> (r: Result<(), DrawError>)
        requires
            self.wf(),
            img_wf(*old(canvas)),
        ensures
            img_wf(*final(canvas)),
            img_dims(*final(canvas)) == img_dims(*old(canvas)),
            img_cells(*final(canvas)) == paint(
                img_cells(*old(canvas)),
                img_dims(*old(canvas)).0,
                img_dims(*old(canvas)).1,
                self.outline_aa_writes(),
            ),
            r is Ok <==> paint_ok(
                img_dims(*old(canvas)).0,
                img_dims(*old(canvas)).1,
                self.outline_aa_writes(),
            ),
    {
        let px = self.outline_aa_pixels();
        blit(canvas, &px)
    }

    /// Draws the circle filled and anti-aliased: the anti-aliased outline
    /// first, then the solid disk over it, so the hard edge of the fill
    /// does not clobber the anti-aliased fringe outside the boundary.
    pub fn draw_aa(&self, canvas: &mut raster::Image) -> (r: Result<(), DrawError>)
        requires
            self.wf(),
            img_wf(*old(canvas)),
        ensures
            img_wf(*final(canvas)),
            img_dims(*final(canvas)) == img_dims(*old(canvas)),
            img_cells(*final(canvas)) == paint(
                img_cells(*old(canvas)),
                img_dims(*old(canvas)).0,
                img_dims(*old(canvas)).1,
                self.outline_aa_writes() + self.disk_writes(),
            ),
            r is Ok <==> paint_ok(
                img_dims(*old(canvas)).0,
                img_dims(*old(canvas)).1,
                self.outline_aa_writes() + self.disk_writes(),
            ),
    {
        let ghost w = img_dims(*old(canvas)).0;
        let ghost h = img_dims(*old(canvas)).1;
        let ghost cells0 = img_cells(*old(canvas));
        proof {
            lemma_paint_append(cells0, w, h, self.outline_aa_writes(), self.disk_writes());
        }
        let r1 = self.draw_outline_aa(canvas);
        if r1.is_err() {
            return r1;
        }
        self.draw_outline(canvas)
    }
}

/// Whether some write of the sequence targets pixel `(x, y)`.
pub open spec fn writes_hit(ws: Seq<(int, int, Color)>, x: int, y: int) -> bool {
    exists|j: int| 0 <= j < ws.len() && (#[trigger] ws[j]).0 == x && ws[j].1 == y
}

/// A concatenation hits a pixel exactly when one of its parts does.
proof fn lemma_hit_append(a: Seq<(int, int, Color)>, b: Seq<(int, int, Color)>, x: int, y: int)
    ensures
        writes_hit(a + b, x, y) == (writes_hit(a, x, y) || writes_hit(b, x, y)),
{
    if writes_hit(a, x, y) {
        let j = choose|j: int| 0 <= j < a.len() && (#[trigger] a[j]).0 == x && a[j].1 == y;
        assert((a + b)[j] == a[j]);
    }
    if writes_hit(b, x, y) {
        let j = choose|j: int| 0 <= j < b.len() && (#[trigger] b[j]).0 == x && b[j].1 == y;
        assert((a + b)[a.len() + j] == b[j]);
    }
    if writes_hit(a + b, x, y) {
        let j = choose|j: int|
            0 <= j < (a + b).len() && (#[trigger] (a + b)[j]).0 == x && (a + b)[j].1 == y;
        if j < a.len() {
            assert(a[j] == (a + b)[j]);
        } else {
            assert(b[j - a.len()] == (a + b)[j]);
        }
    }
}

/// One disk scan row hits exactly the row's in-circle offsets at or after
/// the scan position.
proof fn lemma_disk_row_hit(xm: int, ym: int, col: Color, r: int, tyr: int, tx0: int, x: int, y: int)
    ensures
        writes_hit(disk_row(xm, ym, col, r, tyr, tx0), x, y) == (y == ym + tyr && tx0 <= x - xm
            <= r && (x - xm) * (x - xm) + tyr * tyr <= r * r),
    decreases r + 1 - tx0,
{
    if tx0 > r || r + 1 - tx0 < 0 {
    } else {
        let cell = if tx0 * tx0 + tyr * tyr <= r * r {
            seq![(xm + tx0, ym + tyr, col)]
        } else {
            Seq::<(int, int, Color)>::empty()
        };
        lemma_disk_row_hit(xm, ym, col, r, tyr, tx0 + 1, x, y);
        lemma_hit_append(cell, disk_row(xm, ym, col, r, tyr, tx0 + 1), x, y);
        if cell.len() > 0 {
            assert(writes_hit(cell, x, y) == (x == xm + tx0 && y == ym + tyr)) by {
                if x == xm + tx0 && y == ym + tyr {
                    assert(cell[0].0 == x && cell[0].1 == y);
                }
            }
        }
    }
}

/// The disk scan rows from `ty0` down hit exactly the in-circle offsets in
/// those rows.
proof fn lemma_disk_rows_hit(xm: int, ym: int, col: Color, r: int, ty0: int, x: int, y: int)
    ensures
        writes_hit(disk_rows(xm, ym, col, r, ty0), x, y) == (ty0 <= y - ym <= r && -r <= x - xm
            <= r && (x - xm) * (x - xm) + (y - ym) * (y - ym) <= r * r),
    decreases r + 1 - ty0,
{
    if ty0 > r || r + 1 - ty0 < 0 {
    } else {
        lemma_disk_row_hit(xm, ym, col, r, ty0, -r, x, y);
        lemma_disk_rows_hit(xm, ym, col, r, ty0 + 1, x, y);
        lemma_hit_append(disk_row(xm, ym, col, r, ty0, -r), disk_rows(xm, ym, col, r, ty0 + 1), x, y);
        if y == ym + ty0 && -r <= x - xm <= r && (x - xm) * (x - xm) + ty0 * ty0 <= r * r {
            assert((x - xm) * (x - xm) >= 0) by (nonlinear_arith);
        }
    }
}

/// The filled disk writes exactly the pixels of the bounding square whose
/// offset `(tx, ty)` from the center satisfies `tx^2 + ty^2 <= r^2`: the
/// dense inside-test drawn out as a statement about coverage.
pub proof fn lemma_disk_coverage(c: Circle2D, x: int, y: int)
    ensures
        writes_hit(c.disk_writes(), x, y) == ({
            let tx = x - c.m.x;
            let ty = y - c.m.y;
            -(c.r as int) <= tx <= c.r as int && -(c.r as int) <= ty <= c.r as int && tx * tx + ty
                * ty <= (c.r as int) * (c.r as int)
        }),
{
    lemma_disk_rows_hit(c.m.x as int, c.m.y as int, c.m.color, c.r as int, -(c.r as int), x, y);
    let tx = x - c.m.x;
    let ty = y - c.m.y;
    if -(c.r as int) <= tx <= c.r as int && -(c.r as int) <= ty <= c.r as int && tx * tx + ty * ty
        <= (c.r as int) * (c.r as int) {
        assert(ty * ty >= 0) by (nonlinear_arith);
    }
}

/// A circle of radius zero draws a single degenerate point: its four
/// symmetric writes all land on the center pixel.
pub proof fn lemma_ring_radius_zero(c: Circle2D)
    requires
        c.r == 0,
    ensures
        c.ring_writes().len() == 4,
        forall|j: int|
            0 <= j < c.ring_writes().len() ==> c.ring_writes()[j] == (
            c.m.x as int,
            c.m.y as int,
            c.m.color,
            ),
{
    assert(c.ring_writes() =~= ring_quad(c.m.x as int, c.m.y as int, 0, 0, c.m.color));
}

} // verus!
