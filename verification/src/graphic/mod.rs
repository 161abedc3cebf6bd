//! The renderer: an ordered collection of primitives and one output buffer.

pub mod renderer;

pub use renderer::Renderer;
pub use renderer::Shape;
