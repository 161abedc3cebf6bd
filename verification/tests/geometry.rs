use graphic_library::color::Color;
use graphic_library::geometric::interpolate;
use graphic_library::geometric::interpolate_barycentric;
use graphic_library::geometric::Circle2D;
use graphic_library::geometric::Line2D;
use graphic_library::geometric::Point2D;
use graphic_library::geometric::Triangle2D;

#[test]
fn interpolate_midpoints() {
    // a * (1 - t) + b * t at t = 3/4: 0 * 1/4 + 10 * 3/4 = 7.5, truncated.
    assert_eq!(interpolate(0, 10, 3, 4), 7);
    assert_eq!(interpolate(0, 255, 1, 2), 127);
    assert_eq!(interpolate(100, 200, 0, 7), 100);
    assert_eq!(interpolate(100, 200, 7, 7), 200);
}

#[test]
fn interpolate_barycentric_exact() {
    // (0 * 1 + 10 * 1 + 20 * 2) / 4 = 12 (weights sum to the denominator).
    assert_eq!(interpolate_barycentric(0, 10, 20, 1, 1, 2, 4), 12);
    assert_eq!(interpolate_barycentric(9, 9, 9, 5, 6, 7, 18), 9);
}

#[test]
fn point_pixels_single_write() {
    let p = Point2D::new_color(4, 7, Color::rgb(1, 2, 3));
    let ws = p.pixels();
    assert_eq!(ws.len(), 1);
    assert_eq!(ws[0].x, 4);
    assert_eq!(ws[0].y, 7);
    assert_eq!(ws[0].color, Color::rgb(1, 2, 3));
}

#[test]
fn horizontal_line_writes_six_pixels() {
    // A horizontal line from (0,0) to (5,0) writes exactly 6 pixels, all in
    // row 0, one per column from 0 to 5.
    let red = Color::rgb(255, 0, 0);
    let l = Line2D::new(Point2D::new_color(0, 0, red), Point2D::new_color(5, 0, red));
    let ws = l.solid_pixels();
    assert_eq!(ws.len(), 6);
    for (i, w) in ws.iter().enumerate() {
        assert_eq!(w.x, i as i32);
        assert_eq!(w.y, 0);
        assert_eq!((w.color.r, w.color.g, w.color.b), (255, 0, 0));
    }
}

#[test]
fn vertical_line_writes() {
    let c = Color::rgb(3, 3, 3);
    let l = Line2D::new(Point2D::new_color(2, 0, c), Point2D::new_color(2, 4, c));
    let ws = l.solid_pixels();
    assert_eq!(ws.len(), 5);
    for (i, w) in ws.iter().enumerate() {
        assert_eq!(w.x, 2);
        assert_eq!(w.y, i as i32);
    }
}

#[test]
fn diagonal_line_writes() {
    let c = Color::white();
    let l = Line2D::new(Point2D::new_color(0, 0, c), Point2D::new_color(3, 3, c));
    let ws = l.solid_pixels();
    assert_eq!(ws.len(), 4);
    for (i, w) in ws.iter().enumerate() {
        assert_eq!((w.x, w.y), (i as i32, i as i32));
    }
}

#[test]
fn line_gradient_endpoints() {
    let from = Point2D::new_color(0, 0, Color::rgb(0, 0, 0));
    let to = Point2D::new_color(4, 0, Color::rgb(255, 255, 255));
    let ws = Line2D::new(from, to).solid_pixels();
    assert_eq!(ws.len(), 5);
    // The first pixel carries the start color unchanged.
    assert_eq!(ws[0].color, Color::rgb(0, 0, 0));
    // Halfway along, each channel is (0 * 2 + 255 * 2) / 4 = 127.
    assert_eq!(ws[2].color.r, 127);
    // The last pixel reaches the end color.
    assert_eq!(ws[4].color, Color::rgb(255, 255, 255));
}

#[test]
fn aa_horizontal_line_full_coverage() {
    // On an exactly horizontal line every primary pixel is fully covered,
    // and no neighbor pixels are emitted.
    let c = Color::rgb(100, 200, 50);
    let l = Line2D::new(Point2D::new_color(0, 0, c), Point2D::new_color(4, 0, c));
    let ws = l.aa_pixels();
    assert_eq!(ws.len(), 5);
    for (i, w) in ws.iter().enumerate() {
        assert_eq!((w.x, w.y), (i as i32, 0));
        assert_eq!(w.color, Color::rgb(100, 200, 50));
    }
}

#[test]
fn aa_sloped_line_stays_near_its_box() {
    // A sloped anti-aliased line emits primary pixels plus coverage
    // neighbors, all within one pixel of the endpoints' bounding box.
    let c = Color::rgb(255, 255, 255);
    let l = Line2D::new(Point2D::new_color(0, 0, c), Point2D::new_color(5, 2, c));
    let ws = l.aa_pixels();
    assert!(ws.len() >= 6);
    for w in ws.iter() {
        assert!((-1..=6).contains(&w.x));
        assert!((-1..=3).contains(&w.y));
    }
    // The first primary pixel sits exactly on the line and keeps the full
    // color.
    assert_eq!((ws[0].x, ws[0].y), (0, 0));
}

#[test]
fn degenerate_triangle_writes_nothing() {
    // Collinear vertices: zero signed area, so the fill is a no-op.
    let c = Color::white();
    let t = Triangle2D::new(
        Point2D::new_color(0, 0, c),
        Point2D::new_color(1, 1, c),
        Point2D::new_color(2, 2, c),
    );
    assert_eq!(t.fill_pixels().len(), 0);
}

#[test]
fn uniform_triangle_fills_uniformly() {
    // Identical vertex colors interpolate to themselves on every pixel.
    let c = Color::rgb(10, 20, 30);
    let t = Triangle2D::new(
        Point2D::new_color(0, 0, c),
        Point2D::new_color(6, 0, c),
        Point2D::new_color(0, 6, c),
    );
    let ws = t.fill_pixels();
    assert!(ws.len() > 0);
    for w in ws.iter() {
        assert_eq!(w.color, Color::rgb(10, 20, 30));
    }
}

#[test]
fn triangle_gradient_vertices() {
    // At a vertex the barycentric weight of that vertex dominates.
    let t = Triangle2D::new(
        Point2D::new_color(0, 0, Color::rgb(255, 0, 0)),
        Point2D::new_color(8, 0, Color::rgb(0, 255, 0)),
        Point2D::new_color(0, 8, Color::rgb(0, 0, 255)),
    );
    let ws = t.fill_pixels();
    let at_origin = ws
        .iter()
        .find(|w| w.x == 0 && w.y == 0)
        .expect("vertex pixel painted");
    assert_eq!(at_origin.color, Color::rgb(255, 0, 0));
}

#[test]
fn circle_radius_zero_single_point() {
    // A radius-0 circle draws one degenerate point: all four symmetric
    // writes land on the center pixel.
    let c = Circle2D::new(0, Point2D::new_color(3, 3, Color::white()));
    let ws = c.ring_pixels();
    assert_eq!(ws.len(), 4);
    for w in ws.iter() {
        assert_eq!((w.x, w.y), (3, 3));
    }
}

#[test]
fn circle_radius_two_ring() {
    let col = Color::rgb(7, 7, 7);
    let c = Circle2D::new(2, Point2D::new_color(10, 10, col));
    let ws = c.ring_pixels();
    let mut cells: Vec<(i32, i32)> = ws.iter().map(|w| (w.x - 10, w.y - 10)).collect();
    cells.sort();
    cells.dedup();
    let mut expected = vec![
        (-2, -1),
        (-2, 0),
        (-2, 1),
        (-1, -2),
        (-1, 2),
        (0, -2),
        (0, 2),
        (1, -2),
        (1, 2),
        (2, -1),
        (2, 0),
        (2, 1),
    ];
    expected.sort();
    assert_eq!(cells, expected);
}

#[test]
fn disk_radius_one_five_pixels() {
    let col = Color::rgb(5, 5, 5);
    let c = Circle2D::new(1, Point2D::new_color(4, 4, col));
    let ws = c.disk_pixels();
    let mut cells: Vec<(i32, i32)> = ws.iter().map(|w| (w.x - 4, w.y - 4)).collect();
    cells.sort();
    let mut expected = vec![(-1, 0), (0, -1), (0, 0), (0, 1), (1, 0)];
    expected.sort();
    assert_eq!(cells, expected);
}

#[test]
fn aa_circle_radius_zero_blends_center() {
    // The first anti-aliased ring pixel of a radius-0 circle has blend
    // value 0, stored in the alpha channel.
    let c = Circle2D::new(0, Point2D::new_color(2, 2, Color::rgb(40, 50, 60)));
    let ws = c.outline_aa_pixels();
    assert_eq!(ws.len(), 4);
    for w in ws.iter() {
        assert_eq!((w.x, w.y), (2, 2));
        assert_eq!(w.color, Color::rgba(40, 50, 60, 0));
    }
}

#[test]
fn aa_circle_pixels_carry_blend_in_alpha() {
    let col = Color::rgb(200, 100, 30);
    let c = Circle2D::new(3, Point2D::new_color(0, 0, col));
    let ws = c.outline_aa_pixels();
    assert!(ws.len() >= 12);
    for w in ws.iter() {
        assert_eq!((w.color.r, w.color.g, w.color.b), (200, 100, 30));
    }
    // The walk starts on the circle itself: the first pixel is exact, so
    // its blend value is zero.
    assert_eq!(ws[0].color.a, 0);
}
