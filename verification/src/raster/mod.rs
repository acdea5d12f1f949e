//! Glyph rasterisation results and hinted glyph bounds.
pub mod freetype_bounds;
pub mod java_shape;
