//! A software 2D graphics library: a pixel-addressable framebuffer with
//! scan-conversion routines for lines, rectangles, circles, triangles,
//! rounded rectangles and gradients, plus decoders for a bitmap glyph font
//! format, an uncompressed bitmap image format, and a scanline rasterizer
//! for outline-font glyphs with a per-size glyph cache.

pub mod color;
pub mod bdf;
pub mod bmp;
pub mod geom;
pub mod sight;
pub mod ttf;

pub use color::Color;
pub use geom::Point;
pub use geom::Rect;
pub use sight::Sight;
