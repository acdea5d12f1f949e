//! The calls into the `png` crate: encoding an RGBA page and decoding a PNG
//! file. What the library does around them is verified where they are used.
use vstd::prelude::*;

verus! {

/// The colour types of a decoded PNG image.
#[derive(Debug, Clone, Copy, PartialEq, Eq, Structural)]
pub enum PngColor {
    Grayscale,
    Rgb,
    Indexed,
    GrayscaleAlpha,
    Rgba,
}

/// The PNG file that the `png` encoder writes for an 8-bit RGBA image.
pub uninterp spec fn png_rgba8_file(width: u32, height: u32, rgba: Seq<u8>) -> Seq<u8>;

/// What the `png` decoder reads from a file with palette expansion and an
/// added alpha channel: width, height, colour type and the sample bytes.
pub uninterp spec fn png_expanded_image(file: Seq<u8>) -> Option<(u32, u32, PngColor, Seq<u8>)>;

/// Encodes with `png::Encoder` (8-bit RGBA); on failure, the error's message.
///
/// Trusted: the bytes are the encoder's output for these arguments; the
/// encoder refuses a zero width or height (`Writer::init`) and image data
/// whose length is not `width * height * 4` (`Writer::write_image_data`),
/// and nothing else, as RGBA at depth 8 is a valid pair and writing into a
/// `Vec` cannot fail. The image's byte count `width * height * 4` must fit
/// in `usize`: `write_image_data` computes it unchecked (a debug build
/// panics there, a release build wraps).
#[verifier::external_body]
pub(crate) fn png_encode_rgba8(width: u32, height: u32, rgba: &[u8]) -> (r: Result<Vec<u8>, String>)
    requires
        width * height * 4 <= usize::MAX,
    ensures
        r matches Ok(b) ==> b@ == png_rgba8_file(width, height, rgba@),
        (width == 0 || height == 0 || rgba@.len() != width * height * 4) <==> r is Err,
{
    let mut buf = Vec::new();
    {
        let mut encoder = png::Encoder::new(&mut buf, width, height);
        encoder.set_color(png::ColorType::Rgba);
        encoder.set_depth(png::BitDepth::Eight);
        let mut writer = encoder.write_header().map_err(|e| e.to_string())?;
        writer.write_image_data(rgba).map_err(|e| e.to_string())?;
    }
    Ok(buf)
}

/// Decodes with `png::Decoder` (transformations `EXPAND | ALPHA`) and returns
/// the first frame's width, height, colour type and sample bytes; on
/// failure, the error's message.
///
/// Trusted: the result is the decoder's reading of these bytes; the
/// error's message is not stated.
#[verifier::external_body]
pub(crate) fn png_decode_expanded(file: &[u8]) -> (r: Result<(u32, u32, PngColor, Vec<u8>), String>)
    ensures
        match r {
            Ok(x) => png_expanded_image(file@) == Some((x.0, x.1, x.2, x.3@)),
            Err(_) => png_expanded_image(file@) == None::<(u32, u32, PngColor, Seq<u8>)>,
        },
{
    let mut decoder = png::Decoder::new(file);
    decoder.set_transformations(png::Transformations::EXPAND | png::Transformations::ALPHA);
    let mut reader = decoder.read_info().map_err(|e| e.to_string())?;
    let mut buf = vec![0u8; reader.output_buffer_size()];
    let info = reader.next_frame(&mut buf).map_err(|e| e.to_string())?;
    let color = match info.color_type {
        png::ColorType::Grayscale => PngColor::Grayscale,
        png::ColorType::Rgb => PngColor::Rgb,
        png::ColorType::Indexed => PngColor::Indexed,
        png::ColorType::GrayscaleAlpha => PngColor::GrayscaleAlpha,
        png::ColorType::Rgba => PngColor::Rgba,
    };
    Ok((info.width, info.height, color, buf[..info.buffer_size()].to_vec()))
}

} // verus!
