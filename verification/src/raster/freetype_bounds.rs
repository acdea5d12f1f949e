//! FreeType-based hinted glyph bounds.
//!
//! FreeType's TrueType bytecode interpreter gives pixel-snapped glyph
//! metrics; only the vertical bounds (top and height) are used, as they
//! match Java AWT closely.
use vstd::prelude::*;
use crate::model::FontbakeError;
use crate::num::{hex4, push_hex4};
use crate::text::push_str;

verus! {

/// Hinted vertical bounds of a glyph.
#[derive(Debug, Clone, Copy)]
pub struct HintedVerticalBounds {
    /// Top edge of the hinted glyph, relative to the baseline (negative = above).
    pub y: i32,
    /// Pixel height of the hinted glyph.
    pub height: u32,
}

/// `v >> 6`, the floor of a 26.6 fixed-point value, as it is cut to `i32`.
pub open spec fn floor_26_6_spec(v: int) -> i32 {
    (v / 64) as i32
}

/// The ceiling of a 26.6 fixed-point value, as it is cut to `i32`.
pub open spec fn ceil_26_6_spec(v: int) -> i32 {
    ((v + 63) / 64) as i32
}

/// Floor a 26.6 fixed-point value to an integer.
pub fn floor_26_6(v: i64) -> (r: i32)
    ensures
        r == floor_26_6_spec(v as int),
{
    let q: i64 = if v >= 0 {
        v / 64
    } else {
        -((-(v + 1)) / 64) - 1
    };
    assert(q == v / 64);
    #[verifier::truncate]
    (q as i32)
}

/// Ceil a 26.6 fixed-point value to an integer.
pub fn ceil_26_6(v: i64) -> (r: i32)
    requires
        v + 63 <= i64::MAX,
    ensures
        r == ceil_26_6_spec(v as int),
{
    let w = v + 63;
    let q: i64 = if w >= 0 {
        w / 64
    } else {
        -((-(w + 1)) / 64) - 1
    };
    assert(q == w / 64);
    #[verifier::truncate]
    (q as i32)
}

/// Where turning the metrics into pixel bounds overflows a machine integer.
pub open spec fn bounds_overflow(bearing_y: int, height: int) -> bool {
    height != 0 && {
        ||| bearing_y - height < i64::MIN
        ||| bearing_y - height > i64::MAX
        ||| bearing_y + 63 > i64::MAX
        ||| ceil_26_6_spec(bearing_y) - floor_26_6_spec(bearing_y - height) < i32::MIN
        ||| ceil_26_6_spec(bearing_y) - floor_26_6_spec(bearing_y - height) > i32::MAX
        ||| (ceil_26_6_spec(bearing_y) - floor_26_6_spec(bearing_y - height)) as u32 != 0
            && ceil_26_6_spec(bearing_y) == i32::MIN
    }
}

/// The pixel bounds of 26.6 metrics (bearing above the baseline and height,
/// Y up): none for an empty glyph, else the top in Y-down pixels and the
/// height between the floored bottom and the ceiled top.
pub open spec fn vertical_bounds_spec(bearing_y: int, height: int) -> Option<(i32, u32)> {
    if height == 0 {
        None
    } else {
        let top_up = floor_26_6_spec(bearing_y - height);
        let bottom_up = ceil_26_6_spec(bearing_y);
        let h = (bottom_up - top_up) as u32;
        if h == 0 {
            None
        } else {
            Some(((-bottom_up) as i32, h))
        }
    }
}

/// The hinted vertical bounds of a glyph from FreeType's 26.6 metrics.
pub fn vertical_bounds_26_6(bearing_y: i64, height: i64) -> (r: Option<HintedVerticalBounds>)
    requires
        !bounds_overflow(bearing_y as int, height as int),
    ensures
        match r {
            None => vertical_bounds_spec(bearing_y as int, height as int) is None,
            Some(b) => vertical_bounds_spec(bearing_y as int, height as int) == Some((b.y, b.height)),
        },
{
    if height == 0 {
        return None;
    }
    let y_top_up = floor_26_6(bearing_y - height);
    let y_bottom_up = ceil_26_6(bearing_y);
    snapped_vertical_bounds(y_top_up, y_bottom_up)
}

/// The bounds of a glyph snapped to whole pixels in Y-up coordinates, its
/// bottom at `y_top_up` and its top at `y_bottom_up`: none when it is empty,
/// else the top in Y-down pixels and the height (cut to `u32`).
pub open spec fn snapped_bounds_spec(y_top_up: i32, y_bottom_up: i32) -> Option<(i32, u32)> {
    let h = (y_bottom_up - y_top_up) as u32;
    if h == 0 {
        None
    } else {
        Some(((-y_bottom_up) as i32, h))
    }
}

/// Hinted vertical bounds from pixel-snapped Y-up extents.
pub fn snapped_vertical_bounds(y_top_up: i32, y_bottom_up: i32) -> (r: Option<HintedVerticalBounds>)
    requires
        i32::MIN <= y_bottom_up - y_top_up <= i32::MAX,
        (y_bottom_up - y_top_up) as u32 != 0 ==> y_bottom_up > i32::MIN,
    ensures
        match r {
            None => snapped_bounds_spec(y_top_up, y_bottom_up) is None,
            Some(b) => snapped_bounds_spec(y_top_up, y_bottom_up) == Some((b.y, b.height)),
        },
{
    let h = #[verifier::truncate] ((y_bottom_up - y_top_up) as u32);
    if h == 0 {
        return None;
    }
    Some(HintedVerticalBounds { y: -y_bottom_up, height: h })
}

// ---------------------------------------------------------------------------
// FreeType
// ---------------------------------------------------------------------------

#[verifier::external_type_specification]
#[verifier::external_body]
pub struct ExFtLibrary(freetype::Library);

#[verifier::external_type_specification]
#[verifier::external_body]
#[verifier::reject_recursive_types(BYTES)]
pub struct ExFtFace<BYTES>(freetype::Face<BYTES>);

/// `freetype::Library::init`; on failure, the error's text. Nothing is
/// stated of the library.
#[verifier::external_body]
fn ft_init() -> (r: Result<freetype::Library, String>) {
    freetype::Library::init().map_err(|e| e.to_string())
}

/// `Library::new_memory_face` with face index 0; on failure, the error's
/// text. Nothing is stated of the face.
#[verifier::external_body]
fn ft_new_memory_face(lib: &freetype::Library, data: Vec<u8>) -> (r: Result<freetype::Face, String>) {
    lib.new_memory_face(data, 0).map_err(|e| e.to_string())
}

/// `Face::set_pixel_sizes(0, size_px)`; on failure, the error's text.
#[verifier::external_body]
fn ft_set_pixel_sizes(face: &freetype::Face, size_px: u32) -> (r: Result<(), String>) {
    face.set_pixel_sizes(0, size_px).map_err(|e| e.to_string())
}

/// A loaded FreeType face for hinted metrics queries.
pub struct FreetypeFont {
    library: freetype::Library,
    face: freetype::Face,
    loaded: Ghost<(Seq<u8>, u32)>,
}

/// A FreeType font is seen as the bytes it was loaded from and the pixel
/// size it was set to.
impl View for FreetypeFont {
    type V = (Seq<u8>, u32);

    closed spec fn view(&self) -> (Seq<u8>, u32) {
        self.loaded@
    }
}

fn copy_bytes(data: &[u8]) -> (v: Vec<u8>)
    ensures
        v@ == data@,
{
    let mut v: Vec<u8> = Vec::new();
    let mut i: usize = 0;
    while i < data.len()
        invariant
            i <= data@.len(),
            v@ == data@.take(i as int),
        decreases data@.len() - i,
    {
        v.push(data[i]);
        assert(data@.take(i + 1) =~= data@.take(i as int).push(data@[i as int]));
        i = i + 1;
    }
    assert(data@.take(i as int) =~= data@);
    v
}

fn prefixed(prefix: &str, e: String) -> (m: String)
    ensures
        m@ == prefix@ + e@,
        prefix@.is_prefix_of(m@),
{
    let mut m = String::new();
    push_str(&mut m, prefix);
    push_str(&mut m, e.as_str());
    assert(m@.subrange(0, prefix@.len() as int) =~= prefix@);
    m
}

/// `Face::load_char` with the default load flags, then the `horiBearingY`
/// and `height` of the loaded glyph slot's metrics (`GlyphSlot::metrics`);
/// on failure, the error's text. Nothing is stated of the values: they
/// come from the FreeType library installed on the machine, whose hinting
/// may differ from version to version.
#[verifier::external_body]
fn ft_char_metrics(font: &FreetypeFont, codepoint: u32) -> (r: Result<(i64, i64), String>) {
    font.face.load_char(codepoint as usize, freetype::face::LoadFlag::DEFAULT).map_err(|e| e.to_string())?;
    let m = font.face.glyph().metrics();
    Ok((m.horiBearingY as i64, m.height as i64))
}

impl FreetypeFont {
    /// Load a font from raw bytes at the given pixel size. Whether FreeType
    /// accepts them is FreeType's to decide; a loaded font is the face of
    /// these bytes at this size.
    pub fn load(data: &[u8], size_px: u32) -> (r: Result<Self, FontbakeError>)
        ensures
            match r {
                Ok(f) => f@ == (data@, size_px),
                Err(FontbakeError::FontLoad(m)) => {
                    ||| "FreeType init failed: "@.is_prefix_of(m@)
                    ||| "FreeType load failed: "@.is_prefix_of(m@)
                    ||| "FreeType set_pixel_sizes: "@.is_prefix_of(m@)
                },
                Err(_) => false,
            },
    {
        let library = match ft_init() {
            Ok(l) => l,
            Err(e) => {
                return Err(FontbakeError::FontLoad(prefixed("FreeType init failed: ", e)));
            },
        };
        let face = match ft_new_memory_face(&library, copy_bytes(data)) {
            Ok(f) => f,
            Err(e) => {
                return Err(FontbakeError::FontLoad(prefixed("FreeType load failed: ", e)));
            },
        };
        match ft_set_pixel_sizes(&face, size_px) {
            Ok(()) => {},
            Err(e) => {
                return Err(FontbakeError::FontLoad(prefixed("FreeType set_pixel_sizes: ", e)));
            },
        }
        Ok(FreetypeFont { library, face, loaded: Ghost((data@, size_px)) })
    }

    /// Hinted vertical bounds of the glyph of a codepoint; `None` for an
    /// empty glyph (such as a space): those of [`vertical_bounds_26_6`] on
    /// the metrics FreeType reports for the codepoint, whatever they are.
    /// Metrics so large that the conversion to pixels overflows give an
    /// error. The metrics themselves are not stated: they come from the
    /// FreeType installed on the machine.
    pub fn hinted_vertical_bounds(&self, codepoint: u32) -> (r: Result<
        Option<HintedVerticalBounds>,
        FontbakeError,
    >)
        ensures
            match r {
                Ok(o) => exists|bearing_y: i64, height: i64|
                    {
                        &&& !bounds_overflow(bearing_y as int, height as int)
                        &&& #[trigger] vertical_bounds_spec(bearing_y as int, height as int) == match o {
                            None => None,
                            Some(b) => Some((b.y, b.height)),
                        }
                    },
                Err(FontbakeError::FontLoad(msg)) => {
                    ||| msg@ == "FreeType metrics out of range for U+"@ + hex4(codepoint as nat)
                    ||| ("FreeType load_char U+"@ + hex4(codepoint as nat)).is_prefix_of(msg@)
                },
                Err(_) => false,
            },
    {
        let (bearing_y, height) = match ft_char_metrics(self, codepoint) {
            Ok(m) => m,
            Err(e) => {
                let mut m = String::new();
                push_str(&mut m, "FreeType load_char U+");
                push_hex4(&mut m, codepoint);
                let ghost head = m@;
                push_str(&mut m, ": ");
                push_str(&mut m, e.as_str());
                assert(head.is_prefix_of(m@)) by {
                    assert(m@.subrange(0, head.len() as int) =~= head);
                }
                return Err(FontbakeError::FontLoad(m));
            },
        };
        if bounds_exceed(bearing_y, height) {
            let mut m = String::new();
            push_str(&mut m, "FreeType metrics out of range for U+");
            push_hex4(&mut m, codepoint);
            return Err(FontbakeError::FontLoad(m));
        }
        let b = vertical_bounds_26_6(bearing_y, height);
        assert(vertical_bounds_spec(bearing_y as int, height as int) == match b {
            None => None,
            Some(x) => Some((x.y, x.height)),
        });
        Ok(b)
    }
}

/// Whether the metrics make the conversion overflow.
fn bounds_exceed(bearing_y: i64, height: i64) -> (b: bool)
    ensures
        b == bounds_overflow(bearing_y as int, height as int),
{
    if height == 0 {
        return false;
    }
    let d = (bearing_y as i128) - (height as i128);
    if d < i64::MIN as i128 || d > i64::MAX as i128 || (bearing_y as i128) + 63 > i64::MAX as i128 {
        return true;
    }
    let top = floor_26_6(d as i64);
    let bottom = ceil_26_6(bearing_y);
    let diff = (bottom as i64) - (top as i64);
    if diff < i32::MIN as i64 || diff > i32::MAX as i64 {
        return true;
    }
    let h = #[verifier::truncate] ((diff as i32) as u32);
    h != 0 && bottom == i32::MIN
}

} // verus!
