//! Glyph page packing.
pub mod hiero_rows;
pub mod geometry;
