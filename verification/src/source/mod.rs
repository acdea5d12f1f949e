//! Input sources: text BMFont files and outline fonts.
pub mod bmfont_text;
pub mod outline;
