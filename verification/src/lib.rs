//! fontbake: `.hiero` configurations and text BMFonts in, packed atlas
//! pages and BMFont text out, with the integer logic verified.

pub mod text;
pub mod num;
pub mod model;
pub mod source;
pub mod export;
pub mod png_codec;
pub mod pack;
pub mod pipeline;
pub mod config;
pub mod effect;
pub mod raster;
