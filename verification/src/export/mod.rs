//! Output writers: text BMFont and PNG atlas pages.
pub mod bmfont_text;
pub mod roundtrip;
