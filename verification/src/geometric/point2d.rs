//! A 2D point: a pixel coordinate pair carrying its own color.

use vstd::prelude::*;

use crate::canvas::blit;
use crate::canvas::img_cells;
use crate::canvas::img_dims;
use crate::canvas::img_wf;
use crate::canvas::paint;
use crate::canvas::paint_ok;
use crate::canvas::writes_view;
use crate::canvas::DrawError;
use crate::canvas::PixelWrite;
use crate::color::Color;
use crate::geometric::geometric::coord_ok;

verus! {

/// A 2D point at integer pixel coordinates, with its color.
#[derive(Clone, Copy, PartialEq, Eq, Structural, Debug)]
pub struct Point2D {
    /// Column of the point.
    pub x: i32,
    /// Row of the point.
    pub y: i32,
    /// Color of the point.
    pub color: Color,
}

impl Point2D {
    /// Whether the coordinates are small enough for the rasterizers.
    pub open spec fn wf(self) -> bool {
        coord_ok(self.x as int) && coord_ok(self.y as int)
    }

    /// A white point.
    pub fn new(x: i32, y: i32) -> (p: Point2D)
        ensures
            p == (Point2D { x, y, color: Color { r: 255, g: 255, b: 255, a: 255 } }),
    {
        Point2D::new_color(x, y, Color::white())
    }

    /// A colored point.
    pub fn new_color(x: i32, y: i32, color: Color) -> (p: Point2D)
        ensures
            p == (Point2D { x, y, color }),
    {
        Point2D { x, y, color }
    }

    /// The color of the point.
    pub fn get_color(&self) -> (c: Color)
        ensures
            c == self.color,
    {
        self.color
    }

    /// The single write a point emits, for all four draw variants: a point
    /// has no interior, no outline and no sub-pixel shape to anti-alias.
    pub open spec fn point_writes(self) -> Seq<(int, int, Color)> {
        seq![(self.x as int, self.y as int, self.color)]
    }

    /// The point's pixel writes as a list.
    pub fn pixels(&self) -> (r: Vec<PixelWrite>)
        ensures
            writes_view(r@) == self.point_writes(),
    {
        let mut v: Vec<PixelWrite> = Vec::new();
        v.push(PixelWrite { x: self.x, y: self.y, color: self.color });
        proof {
            assert(writes_view(v@) =~= self.point_writes());
        }
        v
    }

    /// Draws the point: one pixel write, reported as out of bounds where it
    /// misses the buffer.
    pub fn draw(&self, canvas: &mut raster::Image) -> (r: Result<(), DrawError>)
        requires
            img_wf(*old(canvas)),
        ensures
            img_wf(*final(canvas)),
            img_dims(*final(canvas)) == img_dims(*old(canvas)),
            img_cells(*final(canvas)) == paint(
                img_cells(*old(canvas)),
                img_dims(*old(canvas)).0,
                img_dims(*old(canvas)).1,
                self.point_writes(),
            ),
            r is Ok <==> paint_ok(
                img_dims(*old(canvas)).0,
                img_dims(*old(canvas)).1,
                self.point_writes(),
            ),
    {
        let px = self.pixels();
        blit(canvas, &px)
    }

    /// Same as `draw`: a point draws as its single pixel.
    pub fn draw_outline(&self, canvas: &mut raster::Image) -> (r: Result<(), DrawError>)
        requires
            img_wf(*old(canvas)),
        ensures
            img_wf(*final(canvas)),
            img_dims(*final(canvas)) == img_dims(*old(canvas)),
            img_cells(*final(canvas)) == paint(
                img_cells(*old(canvas)),
                img_dims(*old(canvas)).0,
                img_dims(*old(canvas)).1,
                self.point_writes(),
            ),
            r is Ok <==> paint_ok(
                img_dims(*old(canvas)).0,
                img_dims(*old(canvas)).1,
                self.point_writes(),
            ),
    {
        self.draw(canvas)
    }

    /// Same as `draw`: a point draws as its single pixel.
    pub fn draw_aa(&self, canvas: &mut raster::Image) -> (r: Result<(), DrawError>)
        requires
            img_wf(*old(canvas)),
        ensures
            img_wf(*final(canvas)),
            img_dims(*final(canvas)) == img_dims(*old(canvas)),
            img_cells(*final(canvas)) == paint(
                img_cells(*old(canvas)),
                img_dims(*old(canvas)).0,
                img_dims(*old(canvas)).1,
                self.point_writes(),
            ),
            r is Ok <==> paint_ok(
                img_dims(*old(canvas)).0,
                img_dims(*old(canvas)).1,
                self.point_writes(),
            ),
    {
        self.draw(canvas)
    }

    /// Same as `draw`: a point draws as its single pixel.
    pub fn draw_outline_aa(&self, canvas: &mut raster::Image) -> (r: Result<(), DrawError>)
        requires
            img_wf(*old(canvas)),
        ensures
            img_wf(*final(canvas)),
            img_dims(*final(canvas)) == img_dims(*old(canvas)),
            img_cells(*final(canvas)) == paint(
                img_cells(*old(canvas)),
                img_dims(*old(canvas)).0,
                img_dims(*old(canvas)).1,
                self.point_writes(),
            ),
            r is Ok <==> paint_ok(
                img_dims(*old(canvas)).0,
                img_dims(*old(canvas)).1,
                self.point_writes(),
            ),
    {
        self.draw(canvas)
    }
}

} // verus!
