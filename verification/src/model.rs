//! Core data model: build configuration, glyph records, atlas pages and the
//! BMFont structures.
use vstd::prelude::*;

verus! {

// ---------------------------------------------------------------------------
// Error
// ---------------------------------------------------------------------------

/// Errors of the library; each carries a human-readable message.
#[derive(Debug)]
pub enum FontbakeError {
    Config(String),
    Unsupported(String),
    FontLoad(String),
    BmfontParse(String),
    Png(String),
    Pack(String),
    Io(String),
}

/// The kind and message of a [`FontbakeError`].
pub enum ErrorView {
    Config(Seq<char>),
    Unsupported(Seq<char>),
    FontLoad(Seq<char>),
    BmfontParse(Seq<char>),
    Png(Seq<char>),
    Pack(Seq<char>),
    Io(Seq<char>),
}

/// The text of an error, as it is displayed.
pub open spec fn error_text(e: ErrorView) -> Seq<char> {
    match e {
        ErrorView::Config(m) => "config parse error: "@ + m,
        ErrorView::Unsupported(m) => "unsupported feature: "@ + m,
        ErrorView::FontLoad(m) => "font loading error: "@ + m,
        ErrorView::BmfontParse(m) => "bmfont parse error: "@ + m,
        ErrorView::Png(m) => "png error: "@ + m,
        ErrorView::Pack(m) => "pack error: "@ + m,
        ErrorView::Io(m) => "io error: "@ + m,
    }
}

impl FontbakeError {
    /// The error's text: its kind, then its message.
    pub fn to_string(&self) -> (s: String)
        ensures
            s@ == error_text(self@),
    {
        let (prefix, m) = match self {
            FontbakeError::Config(m) => ("config parse error: ", m),
            FontbakeError::Unsupported(m) => ("unsupported feature: ", m),
            FontbakeError::FontLoad(m) => ("font loading error: ", m),
            FontbakeError::BmfontParse(m) => ("bmfont parse error: ", m),
            FontbakeError::Png(m) => ("png error: ", m),
            FontbakeError::Pack(m) => ("pack error: ", m),
            FontbakeError::Io(m) => ("io error: ", m),
        };
        let mut s = String::new();
        crate::text::push_str(&mut s, prefix);
        crate::text::push_str(&mut s, m.as_str());
        s
    }
}

impl View for FontbakeError {
    type V = ErrorView;

    open spec fn view(&self) -> ErrorView {
        match self {
            FontbakeError::Config(m) => ErrorView::Config(m@),
            FontbakeError::Unsupported(m) => ErrorView::Unsupported(m@),
            FontbakeError::FontLoad(m) => ErrorView::FontLoad(m@),
            FontbakeError::BmfontParse(m) => ErrorView::BmfontParse(m@),
            FontbakeError::Png(m) => ErrorView::Png(m@),
            FontbakeError::Pack(m) => ErrorView::Pack(m@),
            FontbakeError::Io(m) => ErrorView::Io(m@),
        }
    }
}

// ---------------------------------------------------------------------------
// BuildSpec: normalised build configuration
// ---------------------------------------------------------------------------

/// The normalised build configuration read from a `.hiero` file.
///
/// Real-valued settings (`gamma`, the distance-field spread) are kept as the
/// text of the configuration file; the parser only accepts text that is a
/// valid `f32` literal.
#[derive(Debug)]
pub struct BuildSpec {
    /// Display name for the font (used in .fnt `face`)
    pub font_name: String,
    /// Primary font source path
    pub primary_font_path: String,
    /// Fallback font sources, in priority order
    pub fallback_font_paths: Vec<String>,
    /// Nominal font size in points
    pub font_size: u32,
    pub bold: bool,
    pub italic: bool,
    /// Gamma value, as the text of an `f32` literal
    pub gamma: String,
    /// Monospaced flag
    pub mono: bool,
    pub padding: Padding,
    pub advance_adjust: AdvanceAdjust,
    pub page_width: u32,
    pub page_height: u32,
    /// Characters to include in the font
    pub glyph_text: String,
    pub render_mode: RenderMode,
    pub effects: Vec<EffectSpec>,
}

#[derive(Debug, Clone, Copy, PartialEq, Eq, Structural)]
pub struct Padding {
    pub top: i32,
    pub right: i32,
    pub bottom: i32,
    pub left: i32,
}

#[derive(Debug, Clone, Copy, PartialEq, Eq, Structural)]
pub struct AdvanceAdjust {
    pub x: i32,
    pub y: i32,
}

#[derive(Debug, Clone, Copy, PartialEq, Eq, Structural)]
pub enum RenderMode {
    /// Java2D path (render_type=0), the only supported mode
    Java,
}

#[derive(Debug)]
pub enum EffectSpec {
    DistanceField {
        /// Hex colour, e.g. "ffffff"
        color: String,
        /// Upscale factor for the intermediate mask
        scale: u32,
        /// Spread in pixels, as the text of an `f32` literal
        spread: String,
    },
}

/// The mathematical value of an [`EffectSpec`].
pub enum EffectView {
    DistanceField { color: Seq<char>, scale: u32, spread: Seq<char> },
}

impl View for EffectSpec {
    type V = EffectView;

    open spec fn view(&self) -> EffectView {
        match self {
            EffectSpec::DistanceField { color, scale, spread } => EffectView::DistanceField {
                color: color@,
                scale: *scale,
                spread: spread@,
            },
        }
    }
}

/// The mathematical value of a [`BuildSpec`].
pub struct BuildSpecView {
    pub font_name: Seq<char>,
    pub primary_font_path: Seq<char>,
    pub fallback_font_paths: Seq<Seq<char>>,
    pub font_size: u32,
    pub bold: bool,
    pub italic: bool,
    pub gamma: Seq<char>,
    pub mono: bool,
    pub padding: Padding,
    pub advance_adjust: AdvanceAdjust,
    pub page_width: u32,
    pub page_height: u32,
    pub glyph_text: Seq<char>,
    pub render_mode: RenderMode,
    pub effects: Seq<EffectView>,
}

impl View for BuildSpec {
    type V = BuildSpecView;

    open spec fn view(&self) -> BuildSpecView {
        BuildSpecView {
            font_name: self.font_name@,
            primary_font_path: self.primary_font_path@,
            fallback_font_paths: self.fallback_font_paths@.map_values(|p: String| p@),
            font_size: self.font_size,
            bold: self.bold,
            italic: self.italic,
            gamma: self.gamma@,
            mono: self.mono,
            padding: self.padding,
            advance_adjust: self.advance_adjust,
            page_width: self.page_width,
            page_height: self.page_height,
            glyph_text: self.glyph_text@,
            render_mode: self.render_mode,
            effects: self.effects@.map_values(|e: EffectSpec| e@),
        }
    }
}

// ---------------------------------------------------------------------------
// GlyphRecord: per-glyph internal representation
// ---------------------------------------------------------------------------

#[derive(Debug, Clone, Copy, PartialEq, Eq, Structural)]
pub enum SourceKind {
    /// Glyph was rasterised from an outline font
    Outline,
    /// Glyph was imported as a bitmap (PNG/FNT)
    BitmapImport,
}

#[derive(Debug, Clone)]
pub struct GlyphRecord {
    /// Unicode codepoint
    pub codepoint: u32,
    pub source_kind: SourceKind,
    /// Human-readable source identifier (font filename or bmfont name)
    pub source_id: String,
    /// RGBA pixel data for the rendered / imported glyph
    pub bitmap_rgba: Vec<u8>,
    /// Bitmap dimensions
    pub width: u32,
    pub height: u32,
    /// Placement offsets
    pub xoffset: i32,
    pub yoffset: i32,
    pub xadvance: i32,
    /// Atlas page index (assigned during packing)
    pub page: u32,
    /// Position on atlas (assigned during packing)
    pub x: u32,
    pub y: u32,
    /// Kerning pairs: (second_codepoint, amount)
    pub kernings: Vec<(u32, i16)>,
}

/// The mathematical value of a [`GlyphRecord`].
pub struct GlyphView {
    pub codepoint: u32,
    pub source_kind: SourceKind,
    pub source_id: Seq<char>,
    pub bitmap_rgba: Seq<u8>,
    pub width: u32,
    pub height: u32,
    pub xoffset: i32,
    pub yoffset: i32,
    pub xadvance: i32,
    pub page: u32,
    pub x: u32,
    pub y: u32,
    pub kernings: Seq<(u32, i16)>,
}

impl View for GlyphRecord {
    type V = GlyphView;

    open spec fn view(&self) -> GlyphView {
        GlyphView {
            codepoint: self.codepoint,
            source_kind: self.source_kind,
            source_id: self.source_id@,
            bitmap_rgba: self.bitmap_rgba@,
            width: self.width,
            height: self.height,
            xoffset: self.xoffset,
            yoffset: self.yoffset,
            xadvance: self.xadvance,
            page: self.page,
            x: self.x,
            y: self.y,
            kernings: self.kernings@,
        }
    }
}

impl GlyphRecord {
    pub fn new(codepoint: u32, source_kind: SourceKind, source_id: String) -> (g: Self)
        ensures
            g@ == (GlyphView {
                codepoint,
                source_kind,
                source_id: source_id@,
                bitmap_rgba: Seq::empty(),
                width: 0,
                height: 0,
                xoffset: 0,
                yoffset: 0,
                xadvance: 0,
                page: 0,
                x: 0,
                y: 0,
                kernings: Seq::empty(),
            }),
    {
        Self {
            codepoint,
            source_kind,
            source_id,
            bitmap_rgba: Vec::new(),
            width: 0,
            height: 0,
            xoffset: 0,
            yoffset: 0,
            xadvance: 0,
            page: 0,
            x: 0,
            y: 0,
            kernings: Vec::new(),
        }
    }
}

/// Same glyph data, with the packing fields (`page`, `x`, `y`) ignored.
pub open spec fn same_glyph_content(a: GlyphView, b: GlyphView) -> bool {
    &&& a.codepoint == b.codepoint
    &&& a.source_kind == b.source_kind
    &&& a.source_id == b.source_id
    &&& a.bitmap_rgba == b.bitmap_rgba
    &&& a.width == b.width
    &&& a.height == b.height
    &&& a.xoffset == b.xoffset
    &&& a.yoffset == b.yoffset
    &&& a.xadvance == b.xadvance
    &&& a.kernings == b.kernings
}

/// The values of a sequence of glyph records.
pub open spec fn glyph_views(gs: Seq<GlyphRecord>) -> Seq<GlyphView> {
    gs.map_values(|g: GlyphRecord| g@)
}
// ---------------------------------------------------------------------------
// AtlasPage: one page of the packed atlas
// ---------------------------------------------------------------------------

#[derive(Debug, Clone)]
pub struct AtlasPage {
    pub width: u32,
    pub height: u32,
    /// RGBA pixel data
    pub rgba: Vec<u8>,
}

/// `n` zero bytes.
pub open spec fn zeros(n: nat) -> Seq<u8> {
    Seq::new(n, |i: int| 0u8)
}

impl AtlasPage {
    /// A blank (all zero) page. The byte size `width * height * 4` must fit
    /// in a `u32`.
    pub fn new(width: u32, height: u32) -> (p: Self)
        requires
            width * height * 4 <= u32::MAX,
        ensures
            p.width == width,
            p.height == height,
            p.rgba@ == zeros((width * height * 4) as nat),
    {
        proof {
            vstd::arithmetic::mul::lemma_mul_nonnegative(width as int, height as int);
        }
        let size = (width * height * 4) as usize;
        let mut rgba: Vec<u8> = Vec::with_capacity(size);
        let mut i: usize = 0;
        while i < size
            invariant
                i <= size,
                rgba@ == zeros(i as nat),
            decreases size - i,
        {
            rgba.push(0u8);
            assert(rgba@ =~= zeros((i + 1) as nat));
            i = i + 1;
        }
        Self { width, height, rgba }
    }
}

// ---------------------------------------------------------------------------
// BmFont model: parsed from text .fnt
// ---------------------------------------------------------------------------

#[derive(Debug, Clone)]
pub struct BmFontInfo {
    pub face: String,
    pub size: i32,
    pub bold: bool,
    pub italic: bool,
    pub charset: String,
    pub unicode: bool,
    pub stretch_h: u32,
    pub smooth: bool,
    pub aa: u32,
    pub padding: [i32; 4],
    pub spacing: [i32; 2],
}

#[derive(Debug, Clone, Copy, PartialEq, Eq, Structural)]
pub struct BmFontCommon {
    pub line_height: u32,
    pub base: u32,
    pub scale_w: u32,
    pub scale_h: u32,
    pub pages: u32,
    pub packed: bool,
}

#[derive(Debug, Clone)]
pub struct BmFontPage {
    pub id: u32,
    pub file: String,
}

#[derive(Debug, Clone, Copy, PartialEq, Eq, Structural)]
pub struct BmFontChar {
    pub id: u32,
    pub x: u32,
    pub y: u32,
    pub width: u32,
    pub height: u32,
    pub xoffset: i32,
    pub yoffset: i32,
    pub xadvance: i32,
    pub page: u32,
    pub chnl: u32,
}

#[derive(Debug, Clone, Copy, PartialEq, Eq, Structural)]
pub struct BmFontKerning {
    pub first: u32,
    pub second: u32,
    pub amount: i16,
}

#[derive(Debug, Clone)]
pub struct BmFont {
    pub info: BmFontInfo,
    pub common: BmFontCommon,
    pub pages: Vec<BmFontPage>,
    pub chars: Vec<BmFontChar>,
    pub kernings: Vec<BmFontKerning>,
}

/// The mathematical value of a [`BmFontInfo`].
pub struct InfoView {
    pub face: Seq<char>,
    pub size: i32,
    pub bold: bool,
    pub italic: bool,
    pub charset: Seq<char>,
    pub unicode: bool,
    pub stretch_h: u32,
    pub smooth: bool,
    pub aa: u32,
    pub padding: Seq<i32>,
    pub spacing: Seq<i32>,
}

/// The mathematical value of a [`BmFontPage`].
pub struct PageView {
    pub id: u32,
    pub file: Seq<char>,
}

/// The mathematical value of a [`BmFont`].
pub struct BmFontView {
    pub info: InfoView,
    pub common: BmFontCommon,
    pub pages: Seq<PageView>,
    pub chars: Seq<BmFontChar>,
    pub kernings: Seq<BmFontKerning>,
}

impl View for BmFontInfo {
    type V = InfoView;

    open spec fn view(&self) -> InfoView {
        InfoView {
            face: self.face@,
            size: self.size,
            bold: self.bold,
            italic: self.italic,
            charset: self.charset@,
            unicode: self.unicode,
            stretch_h: self.stretch_h,
            smooth: self.smooth,
            aa: self.aa,
            padding: self.padding@,
            spacing: self.spacing@,
        }
    }
}

impl View for BmFontPage {
    type V = PageView;

    open spec fn view(&self) -> PageView {
        PageView { id: self.id, file: self.file@ }
    }
}

impl View for BmFont {
    type V = BmFontView;

    open spec fn view(&self) -> BmFontView {
        BmFontView {
            info: self.info@,
            common: self.common,
            pages: self.pages@.map_values(|p: BmFontPage| p@),
            chars: self.chars@,
            kernings: self.kernings@,
        }
    }
}

// ---------------------------------------------------------------------------
// BuildResult: output of a full pipeline run
// ---------------------------------------------------------------------------

#[derive(Debug, Clone)]
pub struct BuildResult {
    /// The generated .fnt content (text BMFont format)
    pub fnt_text: String,
    /// Atlas page PNGs (index = page id)
    pub page_pngs: Vec<Vec<u8>>,
    /// All glyph records (for inspection / debugging)
    pub glyphs: Vec<GlyphRecord>,
}

} // verus!
