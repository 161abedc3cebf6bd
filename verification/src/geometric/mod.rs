//! The geometric primitives and the shared rasterization helpers.

pub mod circle2d;
pub mod geometric;
pub mod line2d;
pub mod point2d;
pub mod triangle2d;

pub use geometric::interpolate;
pub use geometric::interpolate_barycentric;
pub use geometric::MAX_COORD;
pub use circle2d::Circle2D;
pub use line2d::Line2D;
pub use geometric::draw_circle_aa;
pub use point2d::Point2D;
pub use triangle2d::Triangle2D;
