//! The renderer composes registered primitives onto one pixel buffer.

use vstd::prelude::*;

use crate::canvas::blank_image;
use crate::canvas::img_cells;
use crate::canvas::img_dims;
use crate::canvas::img_wf;
use crate::canvas::lemma_paint_append;
use crate::canvas::lemma_paint_idempotent;
use crate::canvas::paint;
use crate::canvas::paint_ok;
use crate::canvas::read_pixel;
use crate::canvas::DrawError;
use crate::color::Color;
use crate::geometric::circle2d::Circle2D;
use crate::geometric::line2d::Line2D;
use crate::geometric::point2d::Point2D;
use crate::geometric::triangle2d::Triangle2D;

verus! {

/// One drawable primitive: the closed set of shapes the renderer composes.
#[derive(Clone, Copy, PartialEq, Eq, Structural, Debug)]
pub enum Shape {
    /// A single pixel.
    Point(Point2D),
    /// A line segment.
    Line(Line2D),
    /// A circle.
    Circle(Circle2D),
    /// A triangle.
    Triangle(Triangle2D),
}

impl Shape {
    /// Whether the shape's coordinates are small enough for the
    /// rasterizers.
    pub open spec fn wf(self) -> bool {
        match self {
            Shape::Point(p) => p.wf(),
            Shape::Line(l) => l.wf(),
            Shape::Circle(c) => c.wf(),
            Shape::Triangle(t) => t.wf(),
        }
    }

    /// The writes of the shape's solid draw: a pixel, a gradient line, a
    /// circle outline ring, or a filled triangle.
    pub open spec fn solid_writes(self) -> Seq<(int, int, Color)> {
        match self {
            Shape::Point(p) => p.point_writes(),
            Shape::Line(l) => l.solid_writes(),
            Shape::Circle(c) => c.ring_writes(),
            Shape::Triangle(t) => t.fill_writes(),
        }
    }

    /// The writes of the shape's outline draw: a pixel, the same gradient
    /// line, a filled disk, or the triangle's three edges.
    pub open spec fn outline_writes(self) -> Seq<(int, int, Color)> {
        match self {
            Shape::Point(p) => p.point_writes(),
            Shape::Line(l) => l.solid_writes(),
            Shape::Circle(c) => c.disk_writes(),
            Shape::Triangle(t) => t.outline_writes(),
        }
    }

    /// Draws the shape solid; reports the first pixel that misses the
    /// buffer.
    pub fn draw(&self, canvas: &mut raster::Image) -> (r: Result<(), DrawError>)
        requires
            self.wf(),
            img_wf(*old(canvas)),
        ensures
            img_wf(*final(canvas)),
            img_dims(*final(canvas)) == img_dims(*old(canvas)),
            img_cells(*final(canvas)) == paint(
                img_cells(*old(canvas)),
                img_dims(*old(canvas)).0,
                img_dims(*old(canvas)).1,
                self.solid_writes(),
            ),
            r is Ok <==> paint_ok(
                img_dims(*old(canvas)).0,
                img_dims(*old(canvas)).1,
                self.solid_writes(),
            ),
    {
        match self {
            Shape::Point(p) => p.draw(canvas),
            Shape::Line(l) => l.draw(canvas),
            Shape::Circle(c) => c.draw(canvas),
            Shape::Triangle(t) => t.draw(canvas),
        }
    }

    /// Draws the shape's outline; reports the first pixel that misses the
    /// buffer.
    pub fn draw_outline(&self, canvas: &mut raster::Image) -> (r: Result<(), DrawError>)
        requires
            self.wf(),
            img_wf(*old(canvas)),
        ensures
            img_wf(*final(canvas)),
            img_dims(*final(canvas)) == img_dims(*old(canvas)),
            img_cells(*final(canvas)) == paint(
                img_cells(*old(canvas)),
                img_dims(*old(canvas)).0,
                img_dims(*old(canvas)).1,
                self.outline_writes(),
            ),
            r is Ok <==> paint_ok(
                img_dims(*old(canvas)).0,
                img_dims(*old(canvas)).1,
                self.outline_writes(),
            ),
    {
        match self {
            Shape::Point(p) => p.draw_outline(canvas),
            Shape::Line(l) => l.draw_outline(canvas),
            Shape::Circle(c) => c.draw_outline(canvas),
            Shape::Triangle(t) => t.draw_outline(canvas),
        }
    }
}

/// The writes of a whole scene drawn solid: the most recently registered
/// shape first, then the rest, mirroring the renderer's reversed iteration
/// order.
pub open spec fn scene_solid_writes(shapes: Seq<Shape>) -> Seq<(int, int, Color)>
    decreases shapes.len(),
{
    if shapes.len() == 0 {
        Seq::empty()
    } else {
        shapes.last().solid_writes() + scene_solid_writes(shapes.drop_last())
    }
}

/// The writes of a whole scene drawn as outlines, most recently registered
/// shape first.
pub open spec fn scene_outline_writes(shapes: Seq<Shape>) -> Seq<(int, int, Color)>
    decreases shapes.len(),
{
    if shapes.len() == 0 {
        Seq::empty()
    } else {
        shapes.last().outline_writes() + scene_outline_writes(shapes.drop_last())
    }
}

/// An ordered collection of drawable primitives and the pixel buffer they
/// are composed onto. Primitives live in the renderer's own arena and are
/// addressed by the handle `add` returns; iteration at draw time runs from
/// the most recently added primitive to the first.
pub struct Renderer {
    /// The registered primitives, in registration order.
    pub shapes: Vec<Shape>,
    /// The output buffer.
    pub image: raster::Image,
}

impl Renderer {
    /// A well-formed renderer: a well-formed buffer and well-formed
    /// shapes.
    pub open spec fn wf(&self) -> bool {
        &&& img_wf(self.image)
        &&& forall|i: int| 0 <= i < self.shapes@.len() ==> (#[trigger] self.shapes@[i]).wf()
    }

    /// Width of the output buffer.
    pub open spec fn width(&self) -> int {
        img_dims(self.image).0
    }

    /// Height of the output buffer.
    pub open spec fn height(&self) -> int {
        img_dims(self.image).1
    }

    /// The pixels of the output buffer.
    pub open spec fn cells(&self) -> Seq<Color> {
        img_cells(self.image)
    }

    /// A renderer with a blank (opaque black) buffer of the given
    /// dimensions and no registered primitives.
    pub fn new(height: i32, width: i32) -> (r: Renderer)
        requires
            0 <= height,
            0 <= width,
            height * width <= 0x1fff_ffff,
        ensures
            r.wf(),
            r.shapes@.len() == 0,
            r.width() == width,
            r.height() == height,
            r.cells().len() == width * height,
            forall|i: int|
                0 <= i < r.cells().len() ==> r.cells()[i] == (Color { r: 0, g: 0, b: 0, a: 255 }),
    {
        proof {
            assert(width * height == height * width) by (nonlinear_arith);
        }
        Renderer { shapes: Vec::new(), image: blank_image(width, height) }
    }

    /// Registers a primitive and returns its handle, the index under which
    /// it can later be replaced.
    pub fn add(&mut self, shape: Shape) -> (h: usize)
        requires
            shape.wf(),
        ensures
            final(self).shapes@ == old(self).shapes@.push(shape),
            h == old(self).shapes@.len(),
            final(self).image == old(self).image,
            old(self).wf() ==> final(self).wf(),
    {
        let h = self.shapes.len();
        self.shapes.push(shape);
        h
    }

    /// Replaces the primitive under a handle, keeping the buffer; the way
    /// to mutate a registered primitive and draw again.
    pub fn set_shape(&mut self, h: usize, shape: Shape)
        requires
            h < old(self).shapes@.len(),
            shape.wf(),
        ensures
            final(self).shapes@ == old(self).shapes@.update(h as int, shape),
            final(self).image == old(self).image,
            old(self).wf() ==> final(self).wf(),
    {
        self.shapes.set(h, shape);
    }

    /// Draws every registered primitive solid, the most recently added
    /// first; stops at the first pixel that misses the buffer and reports
    /// it.
    pub fn draw(&mut self) -> (r: Result<(), DrawError>)
        requires
            old(self).wf(),
        ensures
            final(self).wf(),
            final(self).shapes@ == old(self).shapes@,
            final(self).width() == old(self).width(),
            final(self).height() == old(self).height(),
            final(self).cells() == paint(
                old(self).cells(),
                old(self).width(),
                old(self).height(),
                scene_solid_writes(old(self).shapes@),
            ),
            r is Ok <==> paint_ok(
                old(self).width(),
                old(self).height(),
                scene_solid_writes(old(self).shapes@),
            ),
    {
        let ghost w = old(self).width();
        let ghost h = old(self).height();
        let ghost cells0 = old(self).cells();
        let ghost all = old(self).shapes@;
        let n = self.shapes.len();
        let mut k: usize = 0;
        proof {
            assert(all.take(n as int) =~= all);
        }
        while k < n
            invariant
                old(self).wf(),
                self.wf(),
                k <= n,
                n == all.len(),
                all == self.shapes@,
                all == old(self).shapes@,
                w == old(self).width(),
                h == old(self).height(),
                cells0 == old(self).cells(),
                img_dims(self.image) == (w, h),
                paint(cells0, w, h, scene_solid_writes(all)) == paint(
                    img_cells(self.image),
                    w,
                    h,
                    scene_solid_writes(all.take(n - k)),
                ),
                paint_ok(w, h, scene_solid_writes(all)) == paint_ok(
                    w,
                    h,
                    scene_solid_writes(all.take(n - k)),
                ),
            decreases n - k,
        {
            let ghost m = n - k;
            let shape = self.shapes[n - 1 - k];
            proof {
                assert(all.take(m as int).last() == all[m - 1]);
                assert(all.take(m as int).drop_last() =~= all.take(m - 1));
                lemma_paint_append(
                    img_cells(self.image),
                    w,
                    h,
                    shape.solid_writes(),
                    scene_solid_writes(all.take(m - 1)),
                );
            }
            let res = shape.draw(&mut self.image);
            if res.is_err() {
                return res;
            }
            k = k + 1;
        }
        proof {
            assert(all.take(0) =~= Seq::<Shape>::empty());
        }
        Ok(())
    }

    /// Draws every registered primitive's outline, the most recently added
    /// first; stops at the first pixel that misses the buffer and reports
    /// it.
    pub fn draw_outline(&mut self) -> (r: Result<(), DrawError>)
        requires
            old(self).wf(),
        ensures
            final(self).wf(),
            final(self).shapes@ == old(self).shapes@,
            final(self).width() == old(self).width(),
            final(self).height() == old(self).height(),
            final(self).cells() == paint(
                old(self).cells(),
                old(self).width(),
                old(self).height(),
                scene_outline_writes(old(self).shapes@),
            ),
            r is Ok <==> paint_ok(
                old(self).width(),
                old(self).height(),
                scene_outline_writes(old(self).shapes@),
            ),
    {
        let ghost w = old(self).width();
        let ghost h = old(self).height();
        let ghost cells0 = old(self).cells();
        let ghost all = old(self).shapes@;
        let n = self.shapes.len();
        let mut k: usize = 0;
        proof {
            assert(all.take(n as int) =~= all);
        }
        while k < n
            invariant
                old(self).wf(),
                self.wf(),
                k <= n,
                n == all.len(),
                all == self.shapes@,
                all == old(self).shapes@,
                w == old(self).width(),
                h == old(self).height(),
                cells0 == old(self).cells(),
                img_dims(self.image) == (w, h),
                paint(cells0, w, h, scene_outline_writes(all)) == paint(
                    img_cells(self.image),
                    w,
                    h,
                    scene_outline_writes(all.take(n - k)),
                ),
                paint_ok(w, h, scene_outline_writes(all)) == paint_ok(
                    w,
                    h,
                    scene_outline_writes(all.take(n - k)),
                ),
            decreases n - k,
        {
            let ghost m = n - k;
            let shape = self.shapes[n - 1 - k];
            proof {
                assert(all.take(m as int).last() == all[m - 1]);
                assert(all.take(m as int).drop_last() =~= all.take(m - 1));
                lemma_paint_append(
                    img_cells(self.image),
                    w,
                    h,
                    shape.outline_writes(),
                    scene_outline_writes(all.take(m - 1)),
                );
            }
            let res = shape.draw_outline(&mut self.image);
            if res.is_err() {
                return res;
            }
            k = k + 1;
        }
        proof {
            assert(all.take(0) =~= Seq::<Shape>::empty());
        }
        Ok(())
    }

    /// Reads one pixel of the output buffer; the way a caller (or a test)
    /// observes what was drawn.
    pub fn get_pixel(&self, x: i32, y: i32) -> (c: Option<Color>)
        requires
            self.wf(),
        ensures
            c is Some <==> (0 <= x < self.width() && 0 <= y < self.height()),
            c is Some ==> c->Some_0 == self.cells()[y * self.width() + x],
    {
        let w = crate::canvas::image_width(&self.image);
        let hh = crate::canvas::image_height(&self.image);
        if 0 <= x && x < w && 0 <= y && y < hh {
            Some(read_pixel(&self.image, x, y))
        } else {
            None
        }
    }
}

/// Drawing the same scene a second time leaves the buffer exactly as the
/// first draw did: a scene's writes do not depend on the buffer, so a
/// renderer whose `draw` succeeded produces an identical buffer when
/// `draw` runs again on the same primitives.
pub proof fn lemma_draw_twice(cells: Seq<Color>, w: int, h: int, shapes: Seq<Shape>)
    requires
        paint_ok(w, h, scene_solid_writes(shapes)),
        cells.len() == w * h,
    ensures
        paint(
            paint(cells, w, h, scene_solid_writes(shapes)),
            w,
            h,
            scene_solid_writes(shapes),
        ) == paint(cells, w, h, scene_solid_writes(shapes)),
{
    lemma_paint_idempotent(cells, w, h, scene_solid_writes(shapes));
}

} // verus!

