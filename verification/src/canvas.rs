//! The pixel buffer boundary and the write model.
//!
//! Every rasterizer in this crate is specified by the sequence of pixel
//! writes it emits; this module says what a sequence of writes does to a
//! buffer (`paint`), and holds the trusted boundary to the `raster` crate's
//! `Image`, which stores the pixels.
//!
//! The image is modeled by two names: `img_dims`, the `(width, height)` pair,
//! and `img_cells`, its bytes read four at a time as RGBA colors, in row-major
//! order, so that pixel `(x, y)` lives at flat index `y * width + x`.

use vstd::prelude::*;

use crate::color::Color;

verus! {

/// A single pending pixel write: a coordinate pair and the color to store.
#[derive(Clone, Copy, PartialEq, Eq, Structural, Debug)]
pub struct PixelWrite {
    /// Column of the target pixel.
    pub x: i32,
    /// Row of the target pixel.
    pub y: i32,
    /// Color to store there.
    pub color: Color,
}

/// The mathematical view of a list of pixel writes.
pub open spec fn writes_view(s: Seq<PixelWrite>) -> Seq<(int, int, Color)> {
    s.map(|i: int, p: PixelWrite| (p.x as int, p.y as int, p.color))
}

/// Whether `(x, y)` lies inside a `w`-by-`h` buffer.
pub open spec fn in_bounds(w: int, h: int, x: int, y: int) -> bool {
    0 <= x < w && 0 <= y < h
}

/// Flat cell index of pixel `(x, y)` in row-major order.
pub open spec fn cell_index(w: int, x: int, y: int) -> int {
    y * w + x
}

/// Apply writes left to right; stop at the first out-of-bounds write.
pub open spec fn paint(cells: Seq<Color>, w: int, h: int, ws: Seq<(int, int, Color)>) -> Seq<Color>
    decreases ws.len(),
{
    if ws.len() == 0 {
        cells
    } else if in_bounds(w, h, ws[0].0, ws[0].1) {
        paint(cells.update(cell_index(w, ws[0].0, ws[0].1), ws[0].2), w, h, ws.drop_first())
    } else {
        cells
    }
}

/// Whether every write of the sequence lands inside the buffer.
pub open spec fn paint_ok(w: int, h: int, ws: Seq<(int, int, Color)>) -> bool
    decreases ws.len(),
{
    ws.len() == 0 || (in_bounds(w, h, ws[0].0, ws[0].1) && paint_ok(w, h, ws.drop_first()))
}

/// Apply writes left to right, silently skipping out-of-bounds writes.
pub open spec fn paint_skipping(
    cells: Seq<Color>,
    w: int,
    h: int,
    ws: Seq<(int, int, Color)>,
) -> Seq<Color>
    decreases ws.len(),
{
    if ws.len() == 0 {
        cells
    } else if in_bounds(w, h, ws[0].0, ws[0].1) {
        paint_skipping(
            cells.update(cell_index(w, ws[0].0, ws[0].1), ws[0].2),
            w,
            h,
            ws.drop_first(),
        )
    } else {
        paint_skipping(cells, w, h, ws.drop_first())
    }
}

/// The error a draw call reports when a pixel falls outside the buffer.
#[derive(Clone, Copy, PartialEq, Eq, Structural, Debug)]
pub enum DrawError {
    /// Some pixel of the primitive lies outside the buffer; the writes before
    /// it have been applied, the rest have not.
    OutOfBounds,
}

#[verifier::external_type_specification]
#[verifier::external_body]
pub struct ExImage(raster::Image);

/// The `(width, height)` of a `raster::Image`, as the pair of its two
/// dimension fields.
pub uninterp spec fn img_dims(img: raster::Image) -> (int, int);

/// The pixels of a `raster::Image`: its byte vector read four bytes at a time
/// as RGBA colors, row by row, one color per pixel.
pub uninterp spec fn img_cells(img: raster::Image) -> Seq<Color>;

/// A well-formed image: nonnegative dimensions small enough that the byte
/// index arithmetic of the `raster` crate stays inside `i32`, and one cell
/// per pixel.
pub open spec fn img_wf(img: raster::Image) -> bool {
    &&& img_dims(img).0 >= 0
    &&& img_dims(img).1 >= 0
    &&& img_dims(img).0 * img_dims(img).1 <= 0x1fff_ffff
    &&& img_cells(img).len() == img_dims(img).0 * img_dims(img).1
}

/// Relies on `raster::Image::blank`: a `w`-by-`h` image filled with opaque
/// black, one RGBA quadruple per pixel.
#[verifier::external_body]
pub fn blank_image(w: i32, h: i32) -> (img: raster::Image)
    requires
        0 <= w,
        0 <= h,
        w * h <= 0x1fff_ffff,
    ensures
        img_dims(img) == (w as int, h as int),
        img_cells(img).len() == w * h,
        forall|i: int|
            0 <= i < img_cells(img).len() ==> img_cells(img)[i] == (Color {
                r: 0,
                g: 0,
                b: 0,
                a: 255,
            }),
{
    raster::Image::blank(w, h)
}

/// Relies on `raster::Image::set_pixel`: stores the four channels of one
/// in-bounds pixel and leaves everything else unchanged.
#[verifier::external_body]
pub fn put_pixel(img: &mut raster::Image, x: i32, y: i32, c: Color)
    requires
        img_wf(*old(img)),
        in_bounds(img_dims(*old(img)).0, img_dims(*old(img)).1, x as int, y as int),
    ensures
        img_dims(*final(img)) == img_dims(*old(img)),
        img_cells(*final(img)) == img_cells(*old(img)).update(
            cell_index(img_dims(*old(img)).0, x as int, y as int),
            c,
        ),
{
    img.set_pixel(x, y, raster::Color::rgba(c.r, c.g, c.b, c.a)).unwrap();
}

/// Relies on `raster::Image::get_pixel`: reads the four channels of one
/// in-bounds pixel.
#[verifier::external_body]
pub fn read_pixel(img: &raster::Image, x: i32, y: i32) -> (c: Color)
    requires
        img_wf(*img),
        in_bounds(img_dims(*img).0, img_dims(*img).1, x as int, y as int),
    ensures
        c == img_cells(*img)[cell_index(img_dims(*img).0, x as int, y as int)],
{
    let rc = img.get_pixel(x, y).unwrap();
    Color { r: rc.r, g: rc.g, b: rc.b, a: rc.a }
}

/// A write inside the buffer has a flat index inside the cell vector.
pub proof fn lemma_cell_index_range(w: int, h: int, x: int, y: int)
    by (nonlinear_arith)
    requires
        in_bounds(w, h, x, y),
    ensures
        0 <= cell_index(w, x, y) < w * h,
{
}

/// Apply the writes to the image in order; stop at the first out-of-bounds
/// write and report it.
#[verifier::loop_isolation(false)]
pub fn blit(img: &mut raster::Image, ws: &Vec<PixelWrite>) -> (r: Result<(), DrawError>)
    requires
        img_wf(*old(img)),
    ensures
        img_wf(*final(img)),
        img_dims(*final(img)) == img_dims(*old(img)),
        img_cells(*final(img)) == paint(
            img_cells(*old(img)),
            img_dims(*old(img)).0,
            img_dims(*old(img)).1,
            writes_view(ws@),
        ),
        r is Ok <==> paint_ok(img_dims(*old(img)).0, img_dims(*old(img)).1, writes_view(ws@)),
{
    let ghost w = img_dims(*old(img)).0;
    let ghost h = img_dims(*old(img)).1;
    let ghost cells0 = img_cells(*old(img));
    let ghost full = writes_view(ws@);
    let width = image_width(img);
    let height = image_height(img);
    let mut i: usize = 0;
    proof {
        assert(full.skip(0) =~= full);
    }
    while i < ws.len()
        invariant
            i <= ws.len(),
            img_wf(*img),
            img_dims(*img) == (w, h),
            width == w,
            height == h,
            full == writes_view(ws@),
            paint(cells0, w, h, full) == paint(img_cells(*img), w, h, full.skip(i as int)),
            paint_ok(w, h, full) == paint_ok(w, h, full.skip(i as int)),
        decreases ws.len() - i,
    {
        let p = ws[i];
        proof {
            assert(full.skip(i as int)[0] == (p.x as int, p.y as int, p.color));
        }
        if 0 <= p.x && p.x < width && 0 <= p.y && p.y < height {
            proof {
                lemma_cell_index_range(w, h, p.x as int, p.y as int);
            }
            put_pixel(img, p.x, p.y, p.color);
            proof {
                assert(full.skip(i as int).drop_first() =~= full.skip(i + 1));
            }
        } else {
            assert(paint(img_cells(*img), w, h, full.skip(i as int)) == img_cells(*img));
            return Err(DrawError::OutOfBounds);
        }
        i = i + 1;
    }
    proof {
        assert(full.skip(ws@.len() as int) =~= Seq::<(int, int, Color)>::empty());
    }
    Ok(())
}

/// Apply the writes to the image in order, skipping any that fall outside the
/// buffer.
#[verifier::loop_isolation(false)]
pub fn blit_skipping(img: &mut raster::Image, ws: &Vec<PixelWrite>)
    requires
        img_wf(*old(img)),
    ensures
        img_wf(*final(img)),
        img_dims(*final(img)) == img_dims(*old(img)),
        img_cells(*final(img)) == paint_skipping(
            img_cells(*old(img)),
            img_dims(*old(img)).0,
            img_dims(*old(img)).1,
            writes_view(ws@),
        ),
{
    let ghost w = img_dims(*old(img)).0;
    let ghost h = img_dims(*old(img)).1;
    let ghost cells0 = img_cells(*old(img));
    let ghost full = writes_view(ws@);
    let width = image_width(img);
    let height = image_height(img);
    let mut i: usize = 0;
    proof {
        assert(full.skip(0) =~= full);
    }
    while i < ws.len()
        invariant
            i <= ws.len(),
            img_wf(*img),
            img_dims(*img) == (w, h),
            width == w,
            height == h,
            full == writes_view(ws@),
            paint_skipping(cells0, w, h, full) == paint_skipping(
                img_cells(*img),
                w,
                h,
                full.skip(i as int),
            ),
        decreases ws.len() - i,
    {
        let p = ws[i];
        proof {
            assert(full.skip(i as int)[0] == (p.x as int, p.y as int, p.color));
        }
        if 0 <= p.x && p.x < width && 0 <= p.y && p.y < height {
            proof {
                lemma_cell_index_range(w, h, p.x as int, p.y as int);
            }
            put_pixel(img, p.x, p.y, p.color);
        }
        proof {
            assert(full.skip(i as int).drop_first() =~= full.skip(i + 1));
        }
        i = i + 1;
    }
    proof {
        assert(full.skip(ws@.len() as int) =~= Seq::<(int, int, Color)>::empty());
    }
}

/// Painting a concatenation paints the first part, and then, if every write
/// of the first part was in bounds, the second part.
pub proof fn lemma_paint_append(
    cells: Seq<Color>,
    w: int,
    h: int,
    a: Seq<(int, int, Color)>,
    b: Seq<(int, int, Color)>,
)
    ensures
        paint_ok(w, h, a + b) == (paint_ok(w, h, a) && paint_ok(w, h, b)),
        paint(cells, w, h, a + b) == (if paint_ok(w, h, a) {
            paint(paint(cells, w, h, a), w, h, b)
        } else {
            paint(cells, w, h, a)
        }),
    decreases a.len(),
{
    if a.len() == 0 {
        assert(a + b =~= b);
    } else {
        assert((a + b)[0] == a[0]);
        assert((a + b).drop_first() =~= a.drop_first() + b);
        if in_bounds(w, h, a[0].0, a[0].1) {
            lemma_paint_append(
                cells.update(cell_index(w, a[0].0, a[0].1), a[0].2),
                w,
                h,
                a.drop_first(),
                b,
            );
        } else {
            lemma_paint_not_ok(cells, w, h, a + b);
        }
    }
}

/// A sequence whose first write is already out of bounds paints nothing and
/// is not ok.
proof fn lemma_paint_not_ok(cells: Seq<Color>, w: int, h: int, ws: Seq<(int, int, Color)>)
    requires
        ws.len() > 0,
        !in_bounds(w, h, ws[0].0, ws[0].1),
    ensures
        !paint_ok(w, h, ws),
        paint(cells, w, h, ws) == cells,
{
}

/// The last write of the sequence that targets flat cell `j`, if any.
pub open spec fn last_write_at(ws: Seq<(int, int, Color)>, w: int, j: int) -> Option<Color>
    decreases ws.len(),
{
    if ws.len() == 0 {
        None
    } else {
        let rest = last_write_at(ws.drop_first(), w, j);
        if rest is Some {
            rest
        } else if cell_index(w, ws[0].0, ws[0].1) == j {
            Some(ws[0].2)
        } else {
            None
        }
    }
}

/// What painting leaves in each cell: the last write that targets it, or the
/// cell's old color where no write does.
pub proof fn lemma_paint_at(cells: Seq<Color>, w: int, h: int, ws: Seq<(int, int, Color)>)
    requires
        paint_ok(w, h, ws),
        cells.len() == w * h,
    ensures
        paint(cells, w, h, ws).len() == cells.len(),
        forall|j: int|
            0 <= j < cells.len() ==> paint(cells, w, h, ws)[j] == (match last_write_at(ws, w, j) {
                Some(c) => c,
                None => cells[j],
            }),
    decreases ws.len(),
{
    if ws.len() > 0 {
        lemma_cell_index_range(w, h, ws[0].0, ws[0].1);
        let cells2 = cells.update(cell_index(w, ws[0].0, ws[0].1), ws[0].2);
        lemma_paint_at(cells2, w, h, ws.drop_first());
    }
}

/// Painting the same writes a second time changes nothing: the buffer a draw
/// leaves behind is a fixed point of that draw. With every write in bounds,
/// two identical draws on one buffer end in the same pixels as one.
pub proof fn lemma_paint_idempotent(cells: Seq<Color>, w: int, h: int, ws: Seq<(int, int, Color)>)
    requires
        paint_ok(w, h, ws),
        cells.len() == w * h,
    ensures
        paint(paint(cells, w, h, ws), w, h, ws) == paint(cells, w, h, ws),
{
    let r1 = paint(cells, w, h, ws);
    lemma_paint_at(cells, w, h, ws);
    lemma_paint_at(r1, w, h, ws);
    assert(paint(r1, w, h, ws) =~= r1);
}

/// Relies on the public `width` field of `raster::Image`.
#[verifier::external_body]
pub fn image_width(img: &raster::Image) -> (w: i32)
    ensures
        w == img_dims(*img).0,
{
    img.width
}

/// Relies on the public `height` field of `raster::Image`.
#[verifier::external_body]
pub fn image_height(img: &raster::Image) -> (h: i32)
    ensures
        h == img_dims(*img).1,
{
    img.height
}

} // verus!
