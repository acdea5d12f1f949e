//! Glyph effects.
pub mod distance_field;
