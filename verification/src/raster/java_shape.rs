//! The integer side of rasterising a glyph outline into an alpha mask: the
//! size of the mask from the glyph's pixel bounds, with the limit on its
//! sides, and the alpha channel taken from the filled RGBA pixels.
use vstd::prelude::*;
use crate::model::{ErrorView, FontbakeError};
use crate::num::{dec, push_dec};
use crate::text::push_str;

verus! {

/// Result of rasterising a single glyph.
pub struct RasterResult {
    /// 8-bit alpha mask (width x height bytes, row-major, top to bottom).
    pub mask: Vec<u8>,
    pub width: u32,
    pub height: u32,
    /// Offset from the glyph origin to the top-left of the mask, in pixels.
    pub bearing_x: i32,
    pub bearing_y: i32,
}

/// The longest side of a glyph mask; larger glyphs are refused rather than
/// allocated.
pub const MAX_RASTER_SIDE: u32 = 8192;

/// A side of the mask: the extent of the bounds, at least one pixel.
pub open spec fn raster_side(lo: i32, hi: i32) -> int {
    if hi - lo > 1 {
        hi - lo
    } else {
        1
    }
}

/// The mask size for pixel bounds `[x_min, x_max) x [y_min, y_max)`, or the
/// message of the error for a side over [`MAX_RASTER_SIDE`].
pub open spec fn raster_size_spec(x_min: i32, y_min: i32, x_max: i32, y_max: i32) -> Result<
    (u32, u32),
    ErrorView,
> {
    let w = raster_side(x_min, x_max);
    let h = raster_side(y_min, y_max);
    if w > MAX_RASTER_SIDE || h > MAX_RASTER_SIDE {
        Err(ErrorView::FontLoad("glyph raster too large: "@ + dec(w as nat) + "x"@ + dec(h as nat)))
    } else {
        Ok((w as u32, h as u32))
    }
}

/// The size of a glyph's mask from its pixel bounds.
pub fn raster_size(x_min: i32, y_min: i32, x_max: i32, y_max: i32) -> (r: Result<(u32, u32), FontbakeError>)
    requires
        i32::MIN <= x_max - x_min <= i32::MAX,
        i32::MIN <= y_max - y_min <= i32::MAX,
    ensures
        match r {
            Ok(s) => raster_size_spec(x_min, y_min, x_max, y_max) == Ok::<(u32, u32), ErrorView>(s),
            Err(e) => raster_size_spec(x_min, y_min, x_max, y_max) == Err::<(u32, u32), ErrorView>(e@),
        },
{
    let dw = x_max - x_min;
    let dh = y_max - y_min;
    let width: u32 = if dw > 1 {
        dw as u32
    } else {
        1
    };
    let height: u32 = if dh > 1 {
        dh as u32
    } else {
        1
    };
    if width > MAX_RASTER_SIDE || height > MAX_RASTER_SIDE {
        let mut m = String::new();
        push_str(&mut m, "glyph raster too large: ");
        push_dec(&mut m, width as u64);
        push_str(&mut m, "x");
        push_dec(&mut m, height as u64);
        return Err(FontbakeError::FontLoad(m));
    }
    Ok((width, height))
}

/// The alpha channel of `count` RGBA pixels: byte `4 * i + 3` for each `i`.
pub fn alpha_mask(pixels: &[u8], count: usize) -> (mask: Vec<u8>)
    requires
        count * 4 <= pixels@.len(),
    ensures
        mask@.len() == count,
        forall|i: int| 0 <= i < count ==> #[trigger] mask@[i] == pixels@[4 * i + 3],
{
    let mut mask: Vec<u8> = Vec::with_capacity(count);
    let n = pixels.len();
    let mut i: usize = 0;
    while i < count
        invariant
            n == pixels@.len(),
            i <= count,
            count * 4 <= pixels@.len(),
            mask@.len() == i,
            forall|j: int| 0 <= j < i ==> #[trigger] mask@[j] == pixels@[4 * j + 3],
        decreases count - i,
    {
        assert(i * 4 + 3 < pixels@.len()) by (nonlinear_arith)
            requires
                i < count,
                count * 4 <= pixels@.len(),
        ;
        mask.push(pixels[i * 4 + 3]);
        i = i + 1;
    }
    mask
}

} // verus!
