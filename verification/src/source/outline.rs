//! Outline font source: TTF/OTF faces read with `ttf-parser`.
//!
//! Provides cmap lookup, horizontal metrics, bounding boxes and kerning.
//! All inputs are byte slices.
use vstd::prelude::*;
use crate::model::FontbakeError;
use crate::text::push_str;

verus! {

#[verifier::external_type_specification]
#[verifier::external_body]
pub struct ExTtfFace<'a>(ttf_parser::Face<'a>);

#[verifier::external_type_specification]
#[verifier::external_body]
pub struct ExTtfKernSubtable<'a>(ttf_parser::kern::Subtable<'a>);

/// A glyph's bounding box in font units.
#[derive(Debug, Clone, Copy, PartialEq, Eq, Structural)]
pub struct GlyphBox {
    pub x_min: i16,
    pub y_min: i16,
    pub x_max: i16,
    pub y_max: i16,
}

// ---------------------------------------------------------------------------
// Calls into ttf-parser.
//
// What ttf-parser reads from a font is a function of the font's bytes, so
// each result below is named as such a function of the bytes (face 0 of
// them). A loaded `OutlineFont` keeps its bytes as its view; its face and
// kerning subtables are the ones parsed from those bytes, which `load`, its
// only constructor, ensures. What the names are on given bytes is not
// stated: it is what ttf-parser reads there.
// ---------------------------------------------------------------------------

/// `Face::glyph_index`: the glyph id that the font's `cmap` gives a codepoint.
pub uninterp spec fn ttf_glyph_index_of(font: Seq<u8>, codepoint: char) -> Option<u16>;

/// `Face::glyph_hor_advance`: a glyph's advance width from `hmtx`.
pub uninterp spec fn ttf_hor_advance_of(font: Seq<u8>, glyph_id: u16) -> Option<u16>;

/// `Face::glyph_hor_side_bearing`: a glyph's left side bearing from `hmtx`.
pub uninterp spec fn ttf_hor_side_bearing_of(font: Seq<u8>, glyph_id: u16) -> Option<i16>;

/// `Face::glyph_bounding_box`: a glyph's bounding box.
pub uninterp spec fn ttf_bounding_box_of(font: Seq<u8>, glyph_id: u16) -> Option<GlyphBox>;

/// `Face::ascender`.
pub uninterp spec fn ttf_ascender_of(font: Seq<u8>) -> i16;

/// `Face::descender`.
pub uninterp spec fn ttf_descender_of(font: Seq<u8>) -> i16;

/// `Face::line_gap`.
pub uninterp spec fn ttf_line_gap_of(font: Seq<u8>) -> i16;

/// `os2::Table::windows_ascender` of the font's `OS/2` table, `None`
/// without one.
pub uninterp spec fn ttf_os2_windows_ascender_of(font: Seq<u8>) -> Option<i16>;

/// The `horizontal` and `variable` flags of the subtables of the font's
/// `kern` table, in order; none without one.
pub uninterp spec fn ttf_kern_subtables_of(font: Seq<u8>) -> Seq<(bool, bool)>;

/// `kern::Subtable::glyphs_kerning` of subtable `subtable` of the font's
/// `kern` table for a pair of glyphs.
pub uninterp spec fn ttf_glyphs_kerning_of(font: Seq<u8>, subtable: nat, left: u16, right: u16) -> Option<i16>;

/// `Face::parse` with face index 0: whether it accepts the bytes.
pub uninterp spec fn ttf_parses(font: Seq<u8>) -> bool;

/// `Face::units_per_em`: the font's units per em.
pub uninterp spec fn ttf_units_per_em_of(font: Seq<u8>) -> u16;

/// `Face::parse` with face index 0; on failure, the error's text. Trusted:
/// it succeeds exactly where [`ttf_parses`] holds of the bytes; the error's
/// text is not stated.
#[verifier::external_body]
fn ttf_parse<'a>(data: &'a [u8]) -> (r: Result<ttf_parser::Face<'a>, String>)
    ensures
        r is Ok <==> ttf_parses(data@),
{
    ttf_parser::Face::parse(data, 0).map_err(|e| e.to_string())
}

/// `Face::units_per_em` of the font's face. Trusted: it is
/// [`ttf_units_per_em_of`] of the font's bytes, and within 16..=16384, which
/// ttf-parser documents and checks when it parses the `head` table.
#[verifier::external_body]
fn ttf_units_per_em(font: &OutlineFont) -> (r: u16)
    ensures
        r == ttf_units_per_em_of(font@),
        16 <= r <= 16384,
{
    font.face.units_per_em()
}

/// The subtables of the face's `kern` table in order, none without one
/// (`Face::tables().kern`, its `subtables` collected).
#[verifier::external_body]
fn ttf_kern_subtables<'a>(face: &ttf_parser::Face<'a>) -> (r: Vec<ttf_parser::kern::Subtable<'a>>) {
    match face.tables().kern {
        Some(k) => k.subtables.into_iter().collect(),
        None => Vec::new(),
    }
}

/// `Face::glyph_index` on the font's face, the glyph id as its number.
/// Trusted: it is [`ttf_glyph_index_of`] of the font's bytes.
#[verifier::external_body]
fn ttf_glyph_index(font: &OutlineFont, codepoint: char) -> (r: Option<u16>)
    ensures
        r == ttf_glyph_index_of(font@, codepoint),
{
    font.face.glyph_index(codepoint).map(|g| g.0)
}

/// `Face::glyph_hor_advance` on the font's face. Trusted: it is
/// [`ttf_hor_advance_of`] of the font's bytes.
#[verifier::external_body]
fn ttf_hor_advance(font: &OutlineFont, glyph_id: u16) -> (r: Option<u16>)
    ensures
        r == ttf_hor_advance_of(font@, glyph_id),
{
    font.face.glyph_hor_advance(ttf_parser::GlyphId(glyph_id))
}

/// `Face::glyph_hor_side_bearing` on the font's face. Trusted: it is
/// [`ttf_hor_side_bearing_of`] of the font's bytes.
#[verifier::external_body]
fn ttf_hor_side_bearing(font: &OutlineFont, glyph_id: u16) -> (r: Option<i16>)
    ensures
        r == ttf_hor_side_bearing_of(font@, glyph_id),
{
    font.face.glyph_hor_side_bearing(ttf_parser::GlyphId(glyph_id))
}

/// `Face::glyph_bounding_box` on the font's face, its corners copied into
/// a [`GlyphBox`]. Trusted: it is [`ttf_bounding_box_of`] of the font's bytes.
#[verifier::external_body]
fn ttf_bounding_box(font: &OutlineFont, glyph_id: u16) -> (r: Option<GlyphBox>)
    ensures
        r == ttf_bounding_box_of(font@, glyph_id),
{
    font.face.glyph_bounding_box(ttf_parser::GlyphId(glyph_id)).map(
        |b| GlyphBox { x_min: b.x_min, y_min: b.y_min, x_max: b.x_max, y_max: b.y_max },
    )
}

/// `Face::ascender` of the font's face. Trusted: it is [`ttf_ascender_of`]
/// of the font's bytes.
#[verifier::external_body]
fn ttf_ascender(font: &OutlineFont) -> (r: i16)
    ensures
        r == ttf_ascender_of(font@),
{
    font.face.ascender()
}

/// `Face::descender` of the font's face. Trusted: it is
/// [`ttf_descender_of`] of the font's bytes.
#[verifier::external_body]
fn ttf_descender(font: &OutlineFont) -> (r: i16)
    ensures
        r == ttf_descender_of(font@),
{
    font.face.descender()
}

/// `Face::line_gap` of the font's face. Trusted: it is [`ttf_line_gap_of`]
/// of the font's bytes.
#[verifier::external_body]
fn ttf_line_gap(font: &OutlineFont) -> (r: i16)
    ensures
        r == ttf_line_gap_of(font@),
{
    font.face.line_gap()
}

/// `os2::Table::windows_ascender` of the face's `OS/2` table
/// (`Face::tables().os2`), `None` without one. Trusted: it is
/// [`ttf_os2_windows_ascender_of`] of the font's bytes.
#[verifier::external_body]
fn ttf_os2_windows_ascender(font: &OutlineFont) -> (r: Option<i16>)
    ensures
        r == ttf_os2_windows_ascender_of(font@),
{
    match font.face.tables().os2 {
        Some(t) => Some(t.windows_ascender()),
        None => None,
    }
}

/// The number of subtables of the font's `kern` table, as collected at
/// load. Trusted: it is the length of [`ttf_kern_subtables_of`] of the
/// font's bytes.
#[verifier::external_body]
fn ttf_kern_count(font: &OutlineFont) -> (r: usize)
    ensures
        r == ttf_kern_subtables_of(font@).len(),
{
    font.kern_subtables.len()
}

/// The `horizontal` and `variable` flags of a subtable of the font's `kern`
/// table. Trusted: they are entry `i` of [`ttf_kern_subtables_of`] of the
/// font's bytes.
#[verifier::external_body]
fn ttf_subtable_flags(font: &OutlineFont, i: usize) -> (r: (bool, bool))
    requires
        i < ttf_kern_subtables_of(font@).len(),
    ensures
        r == ttf_kern_subtables_of(font@)[i as int],
{
    (font.kern_subtables[i].horizontal, font.kern_subtables[i].variable)
}

/// `kern::Subtable::glyphs_kerning` of a subtable of the font's `kern`
/// table. Trusted: it is [`ttf_glyphs_kerning_of`] of the font's bytes.
#[verifier::external_body]
fn ttf_glyphs_kerning(font: &OutlineFont, i: usize, left: u16, right: u16) -> (r: Option<i16>)
    requires
        i < ttf_kern_subtables_of(font@).len(),
    ensures
        r == ttf_glyphs_kerning_of(font@, i as nat, left, right),
{
    font.kern_subtables[i].glyphs_kerning(ttf_parser::GlyphId(left), ttf_parser::GlyphId(right))
}

// ---------------------------------------------------------------------------
// Metrics from table values
// ---------------------------------------------------------------------------

/// The Windows ascent that Java AWT uses for the baseline: the `OS/2`
/// `usWinAscent` read as unsigned, else the magnitude of the `hhea` ascender.
pub open spec fn win_ascent_spec(os2_win_ascent: Option<i16>, ascender: i16) -> u16 {
    match os2_win_ascent {
        Some(a) => a as u16,
        None => (if ascender < 0 {
            -(ascender as int)
        } else {
            ascender as int
        }) as u16,
    }
}

pub fn win_ascent(os2_win_ascent: Option<i16>, ascender: i16) -> (r: u16)
    ensures
        r == win_ascent_spec(os2_win_ascent, ascender),
{
    match os2_win_ascent {
        Some(a) => a as u16,
        None => if ascender < 0 {
            (-(ascender as i32)) as u16
        } else {
            ascender as u16
        },
    }
}

/// The kerning of a pair from the subtables, each given by its horizontal
/// and variable flags and its value for the pair: the value of the first
/// horizontal, non-variable subtable that has one, else 0.
pub open spec fn pair_kerning_spec(subtables: Seq<(bool, bool, Option<i16>)>) -> i16
    decreases subtables.len(),
{
    if subtables.len() == 0 {
        0
    } else {
        let s = subtables[0];
        if s.0 && !s.1 && s.2 is Some {
            s.2.unwrap()
        } else {
            pair_kerning_spec(subtables.drop_first())
        }
    }
}

// ---------------------------------------------------------------------------
// The font
// ---------------------------------------------------------------------------

/// A loaded outline font. The lifetime is that of the font's bytes.
pub struct OutlineFont<'a> {
    face: ttf_parser::Face<'a>,
    kern_subtables: Vec<ttf_parser::kern::Subtable<'a>>,
    bytes: Ghost<Seq<u8>>,
    /// Human-readable identifier for provenance tracking
    pub source_id: String,
    /// Units per em of the font
    pub units_per_em: u16,
}

/// A font is seen as the bytes it was loaded from.
impl<'a> View for OutlineFont<'a> {
    type V = Seq<u8>;

    closed spec fn view(&self) -> Seq<u8> {
        self.bytes@
    }
}

/// The kerning entries of a pair of glyphs, one per subtable of the font's
/// `kern` table: its horizontal and variable flags, and its value for the
/// pair where it is horizontal and not variable.
pub open spec fn kern_entries(font: Seq<u8>, left: u16, right: u16) -> Seq<(bool, bool, Option<i16>)> {
    let flags = ttf_kern_subtables_of(font);
    Seq::new(
        flags.len(),
        |i: int|
            (flags[i].0, flags[i].1, if flags[i].0 && !flags[i].1 {
                ttf_glyphs_kerning_of(font, i as nat, left, right)
            } else {
                None
            }),
    )
}

impl<'a> OutlineFont<'a> {
    /// The font's source id.
    pub closed spec fn source_text(&self) -> Seq<char> {
        self.source_id@
    }

    /// The glyph id the font's `cmap` gives a codepoint.
    pub open spec fn glyph_id_of(&self, codepoint: char) -> Option<u16> {
        ttf_glyph_index_of(self@, codepoint)
    }

    /// The font's `units_per_em` field.
    pub closed spec fn units(&self) -> u16 {
        self.units_per_em
    }

    /// The face parsed from the font's bytes.
    pub closed spec fn parsed_face(&self) -> ttf_parser::Face<'a> {
        self.face
    }

    /// Load a font from raw TTF/OTF bytes: it succeeds exactly where
    /// ttf-parser accepts them. A failure's message starts with the source id.
    pub fn load(data: &'a [u8], source_id: String) -> (r: Result<Self, FontbakeError>)
        ensures
            match r {
                Ok(f) => {
                    &&& ttf_parses(data@)
                    &&& f.source_text() == source_id@
                    &&& f@ == data@
                    &&& f.units() == ttf_units_per_em_of(data@)
                    &&& 16 <= f.units() <= 16384
                },
                Err(FontbakeError::FontLoad(m)) => m@.take(source_id@.len() + 2int) == source_id@
                    + ": "@ && m@.len() >= source_id@.len() + 2 && !ttf_parses(data@),
                Err(_) => false,
            },
    {
        match ttf_parse(data) {
            Ok(face) => {
                let kern_subtables = ttf_kern_subtables(&face);
                let mut font = OutlineFont { face, kern_subtables, bytes: Ghost(data@), source_id, units_per_em: 0 };
                font.units_per_em = ttf_units_per_em(&font);
                Ok(font)
            },
            Err(e) => {
                let mut m = String::new();
                push_str(&mut m, source_id.as_str());
                push_str(&mut m, ": ");
                push_str(&mut m, e.as_str());
                proof {
                    reveal_strlit(": ");
                }
                assert(m@.take(source_id@.len() + 2int) =~= source_id@ + ": "@);
                Err(FontbakeError::FontLoad(m))
            },
        }
    }

    /// The face parsed from the font's bytes.
    pub fn face(&self) -> (r: &ttf_parser::Face<'a>)
        ensures
            *r == self.parsed_face(),
    {
        &self.face
    }

    /// Whether the font's `cmap` has a glyph for the codepoint.
    pub fn has_glyph(&self, codepoint: char) -> (b: bool)
        ensures
            b == ttf_glyph_index_of(self@, codepoint) is Some,
    {
        ttf_glyph_index(self, codepoint).is_some()
    }

    /// The glyph id of a codepoint, if the font has one.
    pub fn glyph_id(&self, codepoint: char) -> (r: Option<u16>)
        ensures
            r == ttf_glyph_index_of(self@, codepoint),
    {
        ttf_glyph_index(self, codepoint)
    }

    /// Horizontal advance width of a glyph in font units.
    pub fn advance_width(&self, glyph_id: u16) -> (r: Option<u16>)
        ensures
            r == ttf_hor_advance_of(self@, glyph_id),
    {
        ttf_hor_advance(self, glyph_id)
    }

    /// Horizontal left side bearing of a glyph in font units.
    pub fn left_side_bearing(&self, glyph_id: u16) -> (r: Option<i16>)
        ensures
            r == ttf_hor_side_bearing_of(self@, glyph_id),
    {
        ttf_hor_side_bearing(self, glyph_id)
    }

    /// Bounding box of a glyph in font units; `None` for an empty glyph.
    pub fn glyph_bbox(&self, glyph_id: u16) -> (r: Option<GlyphBox>)
        ensures
            r == ttf_bounding_box_of(self@, glyph_id),
    {
        ttf_bounding_box(self, glyph_id)
    }

    /// Ascender in font units.
    pub fn ascender(&self) -> (r: i16)
        ensures
            r == ttf_ascender_of(self@),
    {
        ttf_ascender(self)
    }

    /// `OS/2` usWinAscent in font units (what Java AWT uses for the
    /// baseline), else the magnitude of the `hhea` ascender.
    pub fn win_ascender(&self) -> (r: u16)
        ensures
            r == win_ascent_spec(ttf_os2_windows_ascender_of(self@), ttf_ascender_of(self@)),
    {
        win_ascent(ttf_os2_windows_ascender(self), ttf_ascender(self))
    }

    /// Descender in font units (typically negative).
    pub fn descender(&self) -> (r: i16)
        ensures
            r == ttf_descender_of(self@),
    {
        ttf_descender(self)
    }

    /// Line gap in font units.
    pub fn line_gap(&self) -> (r: i16)
        ensures
            r == ttf_line_gap_of(self@),
    {
        ttf_line_gap(self)
    }

    /// Kerning between two glyphs in font units: that of the first
    /// horizontal, non-variable `kern` subtable with an entry for the pair,
    /// else 0.
    pub fn kern(&self, left: u16, right: u16) -> (k: i16)
        ensures
            k == pair_kerning_spec(kern_entries(self@, left, right)),
    {
        let ghost es = kern_entries(self@, left, right);
        let n = ttf_kern_count(self);
        let mut entries: Vec<(bool, bool, Option<i16>)> = Vec::new();
        let mut i: usize = 0;
        while i < n
            invariant
                n == ttf_kern_subtables_of(self@).len(),
                es == kern_entries(self@, left, right),
                i <= n,
                entries@ == es.take(i as int),
            decreases n - i,
        {
            let (h, v) = ttf_subtable_flags(self, i);
            let value = if h && !v {
                ttf_glyphs_kerning(self, i, left, right)
            } else {
                None
            };
            entries.push((h, v, value));
            assert(entries@ =~= es.take(i + 1));
            i = i + 1;
        }
        assert(entries@ =~= es);
        pair_kerning(&entries)
    }
}

pub fn pair_kerning(subtables: &Vec<(bool, bool, Option<i16>)>) -> (k: i16)
    ensures
        k == pair_kerning_spec(subtables@),
{
    let mut i: usize = 0;
    assert(subtables@.skip(0) =~= subtables@);
    while i < subtables.len()
        invariant
            i <= subtables@.len(),
            pair_kerning_spec(subtables@) == pair_kerning_spec(subtables@.skip(i as int)),
        decreases subtables@.len() - i,
    {
        let (h, v, value) = subtables[i];
        assert(subtables@.skip(i as int)[0] == subtables@[i as int]);
        assert(subtables@.skip(i as int).drop_first() =~= subtables@.skip(i + 1));
        if h && !v {
            if let Some(x) = value {
                return x;
            }
        }
        i = i + 1;
    }
    assert(subtables@.skip(i as int) =~= Seq::<(bool, bool, Option<i16>)>::empty());
    0
}

// ---------------------------------------------------------------------------
// Fallback resolver
// ---------------------------------------------------------------------------

/// The fonts of a chain, each seen as its bytes.
pub open spec fn font_views<'a>(fonts: Seq<&OutlineFont<'a>>) -> Seq<Seq<u8>> {
    fonts.map_values(|f: &OutlineFont<'a>| f@)
}

/// The first font of `fonts` from index `i` on whose `cmap` has the
/// codepoint, with the glyph id it gives.
pub open spec fn first_font_with(fonts: Seq<Seq<u8>>, codepoint: char, i: int) -> Option<(usize, u16)>
    decreases fonts.len() - i,
{
    if i < 0 || i >= fonts.len() {
        None
    } else {
        match ttf_glyph_index_of(fonts[i], codepoint) {
            Some(g) => Some((i as usize, g)),
            None => first_font_with(fonts, codepoint, i + 1),
        }
    }
}

proof fn lemma_first_font_with_bounds(fonts: Seq<Seq<u8>>, codepoint: char, i: int)
    requires
        0 <= i,
        fonts.len() <= usize::MAX,
    ensures
        first_font_with(fonts, codepoint, i) matches Some(p) ==> i <= p.0 < fonts.len(),
    decreases fonts.len() - i,
{
    if 0 <= i < fonts.len() && ttf_glyph_index_of(fonts[i], codepoint) is None {
        lemma_first_font_with_bounds(fonts, codepoint, i + 1);
    }
}

proof fn lemma_first_font_from(fonts: Seq<Seq<u8>>, codepoint: char, i: int)
    requires
        0 <= i,
        fonts.len() <= usize::MAX,
    ensures
        match first_font_with(fonts, codepoint, i) {
            Some(p) => {
                &&& i <= p.0 < fonts.len()
                &&& ttf_glyph_index_of(fonts[p.0 as int], codepoint) == Some(p.1)
                &&& forall|j: int| i <= j < p.0 ==> ttf_glyph_index_of(#[trigger] fonts[j], codepoint) is None
            },
            None => forall|j: int| i <= j < fonts.len() ==> ttf_glyph_index_of(#[trigger] fonts[j], codepoint) is None,
        },
    decreases fonts.len() - i,
{
    if 0 <= i < fonts.len() && ttf_glyph_index_of(fonts[i], codepoint) is None {
        lemma_first_font_from(fonts, codepoint, i + 1);
    }
}

/// The font chosen for a codepoint is the first of the chain whose `cmap`
/// has it: that font maps it to the glyph id given, and no font before it
/// has it. No font is chosen only when none of the chain has it.
pub proof fn lemma_first_font_wins(fonts: Seq<Seq<u8>>, codepoint: char)
    requires
        fonts.len() <= usize::MAX,
    ensures
        match first_font_with(fonts, codepoint, 0) {
            Some(p) => {
                &&& p.0 < fonts.len()
                &&& ttf_glyph_index_of(fonts[p.0 as int], codepoint) == Some(p.1)
                &&& forall|j: int| 0 <= j < p.0 ==> ttf_glyph_index_of(#[trigger] fonts[j], codepoint) is None
            },
            None => forall|j: int| 0 <= j < fonts.len() ==> ttf_glyph_index_of(#[trigger] fonts[j], codepoint) is None,
        },
{
    lemma_first_font_from(fonts, codepoint, 0);
}

/// Which font of a chain renders a codepoint: the index of the first font
/// (0 = primary) that has a glyph for it, and the glyph id.
pub fn resolve_codepoint<'a>(fonts: &[&OutlineFont<'a>], codepoint: char) -> (r: Option<
    (usize, u16),
>)
    ensures
        r == first_font_with(font_views(fonts@), codepoint, 0),
        r matches Some(p) ==> p.0 < fonts@.len(),
        r matches Some(p) ==> fonts@[p.0 as int].glyph_id_of(codepoint) == Some(p.1) && forall|j: int|
            0 <= j < p.0 ==> (#[trigger] fonts@[j]).glyph_id_of(codepoint) is None,
        r is None ==> forall|j: int| 0 <= j < fonts@.len() ==> (#[trigger] fonts@[j]).glyph_id_of(codepoint) is None,
        fonts@.len() == 0 ==> r is None,
{
    let ghost fv = font_views(fonts@);
    let n = fonts.len();
    proof {
        lemma_first_font_with_bounds(fv, codepoint, 0);
        lemma_first_font_wins(fv, codepoint);
        assert forall|j: int| 0 <= j < fonts@.len() implies (#[trigger] fonts@[j]).glyph_id_of(codepoint)
            == ttf_glyph_index_of(fv[j], codepoint) by {}
    }
    let mut i: usize = 0;
    while i < fonts.len()
        invariant
            i <= fonts@.len(),
            fv == font_views(fonts@),
            fv.len() == fonts@.len(),
            first_font_with(fv, codepoint, 0) == first_font_with(fv, codepoint, i as int),
            forall|j: int| 0 <= j < fonts@.len() ==> (#[trigger] fonts@[j]).glyph_id_of(codepoint)
                == ttf_glyph_index_of(fv[j], codepoint),
            match first_font_with(fv, codepoint, 0) {
                Some(p) => {
                    &&& p.0 < fv.len()
                    &&& ttf_glyph_index_of(fv[p.0 as int], codepoint) == Some(p.1)
                    &&& forall|j: int| 0 <= j < p.0 ==> ttf_glyph_index_of(#[trigger] fv[j], codepoint) is None
                },
                None => forall|j: int| 0 <= j < fv.len() ==> ttf_glyph_index_of(#[trigger] fv[j], codepoint) is None,
            },
        decreases fonts@.len() - i,
    {
        assert(fv[i as int] == fonts@[i as int]@);
        if let Some(gid) = fonts[i].glyph_id(codepoint) {
            return Some((i, gid));
        }
        i = i + 1;
    }
    None
}

} // verus!
