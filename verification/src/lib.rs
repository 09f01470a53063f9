//! A small software rasterizer. A [`PaintCanvas`] owns an opaque RGBA pixel
//! buffer and draws points, filled circles and lines on it; what each
//! operation does to the buffer is stated over the model in [`raster`] and
//! proved.

pub mod canvas;
pub mod color;
pub mod line;
pub mod raster;
pub mod shape;
pub mod stroke;

pub use canvas::{CapacityError, PaintCanvas};
pub use color::Rgb;
