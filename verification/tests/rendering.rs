use graphic_library::canvas::DrawError;
use graphic_library::color::Color;
use graphic_library::geometric::draw_circle_aa;
use graphic_library::geometric::Circle2D;
use graphic_library::geometric::Line2D;
use graphic_library::geometric::Point2D;
use graphic_library::geometric::Triangle2D;
use graphic_library::graphic::Renderer;
use graphic_library::graphic::Shape;

fn snapshot(r: &Renderer, w: i32, h: i32) -> Vec<Color> {
    let mut cells = Vec::new();
    for y in 0..h {
        for x in 0..w {
            cells.push(r.get_pixel(x, y).expect("in bounds"));
        }
    }
    cells
}

#[test]
fn new_renderer_is_blank_black() {
    let r = Renderer::new(3, 5);
    assert!(r.get_pixel(4, 2).is_some());
    assert!(r.get_pixel(5, 2).is_none());
    assert!(r.get_pixel(4, 3).is_none());
    assert!(r.get_pixel(-1, 0).is_none());
    for y in 0..3 {
        for x in 0..5 {
            assert_eq!(r.get_pixel(x, y), Some(Color::rgba(0, 0, 0, 255)));
        }
    }
}

#[test]
fn point_draws_one_pixel() {
    let mut r = Renderer::new(6, 6);
    r.add(Shape::Point(Point2D::new_color(2, 3, Color::rgb(9, 8, 7))));
    assert_eq!(r.draw(), Ok(()));
    assert_eq!(r.get_pixel(2, 3), Some(Color::rgb(9, 8, 7)));
    assert_eq!(r.get_pixel(3, 2), Some(Color::black()));
}

#[test]
fn horizontal_line_pixels_in_buffer() {
    let red = Color::rgb(255, 0, 0);
    let mut r = Renderer::new(8, 8);
    r.add(Shape::Line(Line2D::new(
        Point2D::new_color(0, 0, red),
        Point2D::new_color(5, 0, red),
    )));
    assert_eq!(r.draw(), Ok(()));
    for x in 0..6 {
        let c = r.get_pixel(x, 0).unwrap();
        assert_eq!((c.r, c.g, c.b), (255, 0, 0));
    }
    assert_eq!(r.get_pixel(6, 0), Some(Color::black()));
    for x in 0..8 {
        assert_eq!(r.get_pixel(x, 1), Some(Color::black()));
    }
}

#[test]
fn degenerate_triangle_leaves_buffer_unchanged() {
    let c = Color::white();
    let mut r = Renderer::new(8, 8);
    r.add(Shape::Triangle(Triangle2D::new(
        Point2D::new_color(0, 0, c),
        Point2D::new_color(1, 1, c),
        Point2D::new_color(2, 2, c),
    )));
    assert_eq!(r.draw(), Ok(()));
    let cells = snapshot(&r, 8, 8);
    assert!(cells.iter().all(|p| *p == Color::black()));
}

#[test]
fn renderer_draw_twice_identical_buffer() {
    // Drawing the same primitive set twice produces an identical buffer:
    // no hidden mutable state affects rasterization.
    let mut r = Renderer::new(12, 12);
    r.add(Shape::Circle(Circle2D::new(
        3,
        Point2D::new_color(5, 5, Color::rgb(200, 100, 30)),
    )));
    r.add(Shape::Line(Line2D::new(
        Point2D::new_color(0, 0, Color::rgb(1, 2, 3)),
        Point2D::new_color(11, 11, Color::rgb(30, 20, 10)),
    )));
    assert_eq!(r.draw(), Ok(()));
    let first = snapshot(&r, 12, 12);
    assert_eq!(r.draw(), Ok(()));
    let second = snapshot(&r, 12, 12);
    assert_eq!(first, second);
}

#[test]
fn out_of_bounds_line_reports_error() {
    let c = Color::white();
    let mut r = Renderer::new(8, 8);
    r.add(Shape::Line(Line2D::new(
        Point2D::new_color(-3, 0, c),
        Point2D::new_color(2, 0, c),
    )));
    assert_eq!(r.draw(), Err(DrawError::OutOfBounds));
    // The very first write was already out of bounds, so nothing was
    // painted.
    let cells = snapshot(&r, 8, 8);
    assert!(cells.iter().all(|p| *p == Color::black()));
}

#[test]
fn renderer_outline_fills_disk() {
    let mut r = Renderer::new(9, 9);
    r.add(Shape::Circle(Circle2D::new(
        1,
        Point2D::new_color(4, 4, Color::rgb(5, 5, 5)),
    )));
    assert_eq!(r.draw_outline(), Ok(()));
    for (dx, dy) in [(0, 0), (1, 0), (-1, 0), (0, 1), (0, -1)] {
        assert_eq!(r.get_pixel(4 + dx, 4 + dy), Some(Color::rgb(5, 5, 5)));
    }
    assert_eq!(r.get_pixel(5, 5), Some(Color::black()));
}

#[test]
fn mutate_after_registration_and_redraw() {
    // Replace a registered primitive through its handle and draw again:
    // the buffer composes both draws, last write per pixel winning.
    let col = Color::rgb(200, 100, 30);
    let mut r = Renderer::new(16, 16);
    let h = r.add(Shape::Circle(Circle2D::new(2, Point2D::new_color(4, 4, col))));
    assert_eq!(r.draw(), Ok(()));
    r.set_shape(h, Shape::Circle(Circle2D::new(2, Point2D::new_color(9, 9, col))));
    assert_eq!(r.draw(), Ok(()));
    // Pixels of both circle positions are present.
    assert_eq!(r.get_pixel(4 + 2, 4).map(|c| c.r), Some(200));
    assert_eq!(r.get_pixel(9 + 2, 9).map(|c| c.r), Some(200));
}

#[test]
fn later_added_drawn_first_earlier_composites_over() {
    // Iteration order is reversal of insertion: the most recently added
    // primitive is drawn first, so the earlier one ends up on top.
    let first = Point2D::new_color(3, 3, Color::rgb(10, 0, 0));
    let second = Point2D::new_color(3, 3, Color::rgb(0, 10, 0));
    let mut r = Renderer::new(6, 6);
    r.add(Shape::Point(first));
    r.add(Shape::Point(second));
    assert_eq!(r.draw(), Ok(()));
    assert_eq!(r.get_pixel(3, 3), Some(Color::rgb(10, 0, 0)));
}

#[test]
fn draw_circle_aa_skips_out_of_bounds() {
    // The free anti-aliased circle drawer skips writes outside the buffer
    // instead of failing.
    let col = Color::rgb(40, 50, 60);
    let circle = Circle2D::new(2, Point2D::new_color(0, 0, col));
    let mut img = raster::Image::blank(8, 8);
    draw_circle_aa(&circle, &mut img);
    // The on-circle pixel (2, 0) was written with its blend value of 0 in
    // the alpha channel.
    let p = img.get_pixel(2, 0).unwrap();
    assert_eq!((p.r, p.g, p.b, p.a), (40, 50, 60, 0));
}

#[test]
fn circle_method_draws_into_image_directly() {
    let col = Color::rgb(1, 2, 3);
    let c = Circle2D::new(0, Point2D::new_color(3, 3, col));
    let mut img = raster::Image::blank(8, 8);
    assert!(c.draw(&mut img).is_ok());
    let p = img.get_pixel(3, 3).unwrap();
    assert_eq!((p.r, p.g, p.b), (1, 2, 3));
}

#[test]
fn triangle_outline_draws_three_edges() {
    let col = Color::rgb(9, 9, 9);
    let t = Triangle2D::new(
        Point2D::new_color(0, 0, col),
        Point2D::new_color(4, 0, col),
        Point2D::new_color(0, 4, col),
    );
    let mut img = raster::Image::blank(8, 8);
    assert!(t.draw_outline(&mut img).is_ok());
    // All three vertices and the straight edges between them are painted.
    for x in 0..5 {
        assert_eq!(img.get_pixel(x, 0).unwrap().r, 9);
    }
    for y in 0..5 {
        assert_eq!(img.get_pixel(0, y).unwrap().r, 9);
    }
    // A pixel strictly inside the triangle stays blank.
    assert_eq!(img.get_pixel(1, 1).unwrap().r, 0);
}

#[test]
fn triangle_aa_draw_composites_outline_then_fill() {
    let col = Color::rgb(10, 20, 30);
    let t = Triangle2D::new(
        Point2D::new_color(1, 1, col),
        Point2D::new_color(6, 1, col),
        Point2D::new_color(1, 6, col),
    );
    let mut img = raster::Image::blank(10, 10);
    assert!(t.draw_aa(&mut img).is_ok());
    // An interior pixel carries the solid fill color.
    let p = img.get_pixel(2, 2).unwrap();
    assert_eq!((p.r, p.g, p.b), (10, 20, 30));
}
