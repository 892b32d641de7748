//! A software 2D rasterizer: draws points, lines, circles, arcs, pies,
//! rectangles and rounded rectangles (aliased and antialiased) into an
//! in-memory RGB pixel buffer, with alpha compositing, nested clip
//! subregions, solid and gradient color sources, and a premultiplied-alpha
//! overlay for layered rendering.

pub mod canvas;
pub mod color;
pub mod draw;
pub mod geom;
pub mod gradient;
pub mod math;
pub mod overlay;

pub use canvas::Buffer;
pub use draw::Drawable;
pub use overlay::Overlay;
pub use color::{Color, Rgba};
pub use gradient::{DirectionalGradient, GradientBase};
pub use geom::{Offset, Rect, Size};
