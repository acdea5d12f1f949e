//! The import and merge workflows.
pub mod import;
pub mod merge;
pub mod glyph_plan;
