//! Text BMFont (.fnt) exporter.
//!
//! Produces the AngelCode BMFont text format from the model types. Field
//! order and formatting match Hiero's output.
use vstd::prelude::*;
use crate::model::{
    glyph_views, AtlasPage, FontbakeError, GlyphRecord, GlyphView, BmFont, BmFontChar, BmFontCommon, BmFontInfo, BmFontKerning, BmFontPage, BmFontView,
    InfoView, PageView,
};
use crate::num::{dec, dec_int, push_dec, push_int};
use crate::text::{push_str, string_push};
use crate::png_codec::{png_encode_rgba8, png_rgba8_file};

verus! {

// ---------------------------------------------------------------------------
// The text format
// ---------------------------------------------------------------------------

pub open spec fn sp() -> Seq<char> {
    seq![' ']
}

pub open spec fn nl() -> Seq<char> {
    seq!['\n']
}

/// `key=value`
pub open spec fn attr(key: Seq<char>, val: Seq<char>) -> Seq<char> {
    key + seq!['='] + val
}

/// `"s"`
pub open spec fn quoted(s: Seq<char>) -> Seq<char> {
    seq!['"'] + s + seq!['"']
}

/// `{:<w}`: the text followed by spaces up to width `w`.
pub open spec fn pad(s: Seq<char>, w: nat) -> Seq<char> {
    s + Seq::new(
        if s.len() < w {
            (w - s.len()) as nat
        } else {
            0
        },
        |i: int| ' ',
    )
}

pub open spec fn flag(b: bool) -> Seq<char> {
    dec(
        if b {
            1
        } else {
            0
        },
    )
}

/// Comma-separated decimal integers.
pub open spec fn csv_text(v: Seq<i32>) -> Seq<char>
    decreases v.len(),
{
    if v.len() == 0 {
        seq![]
    } else if v.len() == 1 {
        dec_int(v[0] as int)
    } else {
        csv_text(v.drop_last()) + seq![','] + dec_int(v.last() as int)
    }
}

#[verifier::opaque]
pub open spec fn info_line(i: InfoView) -> Seq<char> {
    "info"@ + sp() + attr("face"@, quoted(i.face)) + sp() + attr("size"@, dec_int(i.size as int))
        + sp() + attr("bold"@, flag(i.bold)) + sp() + attr("italic"@, flag(i.italic)) + sp() + attr(
        "charset"@,
        quoted(i.charset),
    ) + sp() + attr("unicode"@, flag(i.unicode)) + sp() + attr("stretchH"@, dec(i.stretch_h as nat))
        + sp() + attr("smooth"@, flag(i.smooth)) + sp() + attr("aa"@, dec(i.aa as nat)) + sp()
        + attr("padding"@, csv_text(i.padding)) + sp() + attr("spacing"@, csv_text(i.spacing))
        + nl()
}

#[verifier::opaque]
pub open spec fn common_line(c: BmFontCommon) -> Seq<char> {
    "common"@ + sp() + attr("lineHeight"@, dec(c.line_height as nat)) + sp() + attr(
        "base"@,
        dec(c.base as nat),
    ) + sp() + attr("scaleW"@, dec(c.scale_w as nat)) + sp() + attr("scaleH"@, dec(c.scale_h as nat))
        + sp() + attr("pages"@, dec(c.pages as nat)) + sp() + attr("packed"@, flag(c.packed)) + nl()
}

#[verifier::opaque]
pub open spec fn page_line(p: PageView) -> Seq<char> {
    "page"@ + sp() + attr("id"@, dec(p.id as nat)) + sp() + attr("file"@, quoted(p.file)) + nl()
}

#[verifier::opaque]
pub open spec fn char_line(c: BmFontChar) -> Seq<char> {
    "char"@ + sp() + attr("id"@, pad(dec(c.id as nat), 7)) + sp() + attr("x"@, pad(dec(c.x as nat), 5))
        + sp() + attr("y"@, pad(dec(c.y as nat), 5)) + sp() + attr("width"@, pad(dec(c.width as nat), 5))
        + sp() + attr("height"@, pad(dec(c.height as nat), 5)) + sp() + attr(
        "xoffset"@,
        pad(dec_int(c.xoffset as int), 4),
    ) + sp() + attr("yoffset"@, pad(dec_int(c.yoffset as int), 4)) + sp() + attr(
        "xadvance"@,
        pad(dec_int(c.xadvance as int), 4),
    ) + sp() + attr("page"@, pad(dec(c.page as nat), 4)) + sp() + attr("chnl"@, dec(c.chnl as nat))
        + nl()
}

#[verifier::opaque]
pub open spec fn kerning_line(k: BmFontKerning) -> Seq<char> {
    "kerning"@ + sp() + attr("first"@, dec(k.first as nat)) + sp() + attr("second"@, dec(k.second as nat))
        + sp() + attr("amount"@, dec_int(k.amount as int)) + nl()
}

pub open spec fn count_line(tag: Seq<char>, n: nat) -> Seq<char> {
    tag + sp() + attr("count"@, dec(n)) + nl()
}

pub open spec fn pages_text(ps: Seq<PageView>) -> Seq<char>
    decreases ps.len(),
{
    if ps.len() == 0 {
        seq![]
    } else {
        pages_text(ps.drop_last()) + page_line(ps.last())
    }
}

pub open spec fn chars_text(cs: Seq<BmFontChar>) -> Seq<char>
    decreases cs.len(),
{
    if cs.len() == 0 {
        seq![]
    } else {
        chars_text(cs.drop_last()) + char_line(cs.last())
    }
}

pub open spec fn kernings_text(ks: Seq<BmFontKerning>) -> Seq<char>
    decreases ks.len(),
{
    if ks.len() == 0 {
        seq![]
    } else {
        kernings_text(ks.drop_last()) + kerning_line(ks.last())
    }
}

/// The text `.fnt` file of a BMFont.
pub open spec fn spec_export_fnt(b: BmFontView) -> Seq<char> {
    info_line(b.info) + common_line(b.common) + pages_text(b.pages) + count_line(
        "chars"@,
        b.chars.len(),
    ) + chars_text(b.chars) + count_line("kernings"@, b.kernings.len()) + kernings_text(b.kernings)
}

// ---------------------------------------------------------------------------
// Writing
// ---------------------------------------------------------------------------

fn push_key(out: &mut String, key: &str)
    ensures
        final(out)@ == old(out)@ + key@ + seq!['='],
{
    push_str(out, key);
    string_push(out, '=');
    assert(out@ =~= old(out)@ + key@ + seq!['=']);
}

fn push_spaces(out: &mut String, k: usize)
    ensures
        final(out)@ == old(out)@ + Seq::new(k as nat, |i: int| ' '),
{
    let mut i: usize = 0;
    while i < k
        invariant
            i <= k,
            out@ == old(out)@ + Seq::new(i as nat, |j: int| ' '),
        decreases k - i,
    {
        string_push(out, ' ');
        assert(out@ =~= old(out)@ + Seq::new((i + 1) as nat, |j: int| ' '));
        i = i + 1;
    }
}

/// The number of characters of `dec(n)`.
fn dec_len(n: u64) -> (r: u64)
    ensures
        r == dec(n as nat).len(),
        r <= n / 10 + 1,
    decreases n,
{
    if n < 10 {
        1
    } else {
        dec_len(n / 10) + 1
    }
}

/// Appends `s` padded with spaces to width `w`, where `s` has `len` characters.
fn push_padded_tail(out: &mut String, len: u64, w: usize)
    ensures
        final(out)@ == old(out)@ + Seq::new(
            if len < w {
                (w - len) as nat
            } else {
                0
            },
            |i: int| ' ',
        ),
{
    if len < w as u64 {
        push_spaces(out, w - len as usize);
    } else {
        push_spaces(out, 0);
    }
}

/// Appends `key=` and `n`, padded to width `w`.
fn push_kv_dec(out: &mut String, key: &str, n: u64, w: usize)
    ensures
        final(out)@ == old(out)@ + attr(key@, pad(dec(n as nat), w as nat)),
{
    push_key(out, key);
    push_dec(out, n);
    let len = dec_len(n);
    push_padded_tail(out, len, w);
    assert(out@ =~= old(out)@ + attr(key@, pad(dec(n as nat), w as nat)));
}

/// Appends `key=` and `v`, padded to width `w`.
fn push_kv_int(out: &mut String, key: &str, v: i32, w: usize)
    ensures
        final(out)@ == old(out)@ + attr(key@, pad(dec_int(v as int), w as nat)),
{
    push_key(out, key);
    push_int(out, v as i64);
    let len = if v < 0 {
        dec_len((-(v as i64)) as u64) + 1
    } else {
        dec_len(v as u64)
    };
    push_padded_tail(out, len, w);
    assert(out@ =~= old(out)@ + attr(key@, pad(dec_int(v as int), w as nat)));
}

/// Appends `key="s"`.
fn push_kv_quoted(out: &mut String, key: &str, s: &String)
    ensures
        final(out)@ == old(out)@ + attr(key@, quoted(s@)),
{
    push_key(out, key);
    string_push(out, '"');
    push_str(out, s.as_str());
    string_push(out, '"');
    assert(out@ =~= old(out)@ + attr(key@, quoted(s@)));
}

fn push_sp(out: &mut String)
    ensures
        final(out)@ == old(out)@ + sp(),
{
    string_push(out, ' ');
}

fn push_nl(out: &mut String)
    ensures
        final(out)@ == old(out)@ + nl(),
{
    string_push(out, '\n');
}

proof fn lemma_pad0(s: Seq<char>)
    ensures
        pad(s, 0) == s,
{
    assert(pad(s, 0) =~= s);
}

fn push_csv(out: &mut String, v: &[i32])
    ensures
        final(out)@ == old(out)@ + csv_text(v@),
{
    let mut i: usize = 0;
    while i < v.len()
        invariant
            i <= v@.len(),
            out@ == old(out)@ + csv_text(v@.take(i as int)),
        decreases v@.len() - i,
    {
        let ghost o = out@;
        if i > 0 {
            string_push(out, ',');
        }
        push_int(out, v[i] as i64);
        assert(v@.take(i + 1).drop_last() =~= v@.take(i as int));
        if i == 0 {
            assert(out@ =~= old(out)@ + csv_text(v@.take(i + 1)));
        } else {
            assert(out@ =~= old(out)@ + csv_text(v@.take(i + 1)));
        }
        i = i + 1;
    }
    assert(v@.take(i as int) =~= v@);
}

#[verifier::rlimit(100)]
fn write_info(out: &mut String, info: &BmFontInfo)
    ensures
        final(out)@ == old(out)@ + info_line(info@),
{
    push_str(out, "info");
    push_sp(out);
    push_kv_quoted(out, "face", &info.face);
    push_sp(out);
    push_kv_int(out, "size", info.size, 0);
    push_sp(out);
    push_kv_dec(out, "bold", if info.bold { 1 } else { 0 }, 0);
    push_sp(out);
    push_kv_dec(out, "italic", if info.italic { 1 } else { 0 }, 0);
    push_sp(out);
    push_kv_quoted(out, "charset", &info.charset);
    push_sp(out);
    push_kv_dec(out, "unicode", if info.unicode { 1 } else { 0 }, 0);
    push_sp(out);
    push_kv_dec(out, "stretchH", info.stretch_h as u64, 0);
    push_sp(out);
    push_kv_dec(out, "smooth", if info.smooth { 1 } else { 0 }, 0);
    push_sp(out);
    push_kv_dec(out, "aa", info.aa as u64, 0);
    push_sp(out);
    push_key(out, "padding");
    push_csv(out, &info.padding);
    push_sp(out);
    push_key(out, "spacing");
    push_csv(out, &info.spacing);
    push_nl(out);
    proof {
        lemma_pad0(dec_int(info.size as int));
        lemma_pad0(flag(info.bold));
        lemma_pad0(flag(info.italic));
        lemma_pad0(flag(info.unicode));
        lemma_pad0(dec(info.stretch_h as nat));
        lemma_pad0(flag(info.smooth));
        lemma_pad0(dec(info.aa as nat));
    }
    proof {
        reveal(info_line);
    }
    assert(out@ =~= old(out)@ + info_line(info@));
}

fn write_common(out: &mut String, c: &BmFontCommon)
    ensures
        final(out)@ == old(out)@ + common_line(*c),
{
    push_str(out, "common");
    push_sp(out);
    push_kv_dec(out, "lineHeight", c.line_height as u64, 0);
    push_sp(out);
    push_kv_dec(out, "base", c.base as u64, 0);
    push_sp(out);
    push_kv_dec(out, "scaleW", c.scale_w as u64, 0);
    push_sp(out);
    push_kv_dec(out, "scaleH", c.scale_h as u64, 0);
    push_sp(out);
    push_kv_dec(out, "pages", c.pages as u64, 0);
    push_sp(out);
    push_kv_dec(out, "packed", if c.packed { 1 } else { 0 }, 0);
    push_nl(out);
    proof {
        lemma_pad0(dec(c.line_height as nat));
        lemma_pad0(dec(c.base as nat));
        lemma_pad0(dec(c.scale_w as nat));
        lemma_pad0(dec(c.scale_h as nat));
        lemma_pad0(dec(c.pages as nat));
        lemma_pad0(flag(c.packed));
    }
    proof {
        reveal(common_line);
    }
    assert(out@ =~= old(out)@ + common_line(*c));
}

fn write_page(out: &mut String, p: &BmFontPage)
    ensures
        final(out)@ == old(out)@ + page_line(p@),
{
    push_str(out, "page");
    push_sp(out);
    push_kv_dec(out, "id", p.id as u64, 0);
    push_sp(out);
    push_kv_quoted(out, "file", &p.file);
    push_nl(out);
    proof {
        lemma_pad0(dec(p.id as nat));
    }
    proof {
        reveal(page_line);
    }
    assert(out@ =~= old(out)@ + page_line(p@));
}

fn write_char(out: &mut String, ch: &BmFontChar)
    ensures
        final(out)@ == old(out)@ + char_line(*ch),
{
    push_str(out, "char");
    push_sp(out);
    push_kv_dec(out, "id", ch.id as u64, 7);
    push_sp(out);
    push_kv_dec(out, "x", ch.x as u64, 5);
    push_sp(out);
    push_kv_dec(out, "y", ch.y as u64, 5);
    push_sp(out);
    push_kv_dec(out, "width", ch.width as u64, 5);
    push_sp(out);
    push_kv_dec(out, "height", ch.height as u64, 5);
    push_sp(out);
    push_kv_int(out, "xoffset", ch.xoffset, 4);
    push_sp(out);
    push_kv_int(out, "yoffset", ch.yoffset, 4);
    push_sp(out);
    push_kv_int(out, "xadvance", ch.xadvance, 4);
    push_sp(out);
    push_kv_dec(out, "page", ch.page as u64, 4);
    push_sp(out);
    push_kv_dec(out, "chnl", ch.chnl as u64, 0);
    push_nl(out);
    proof {
        lemma_pad0(dec(ch.chnl as nat));
    }
    proof {
        reveal(char_line);
    }
    assert(out@ =~= old(out)@ + char_line(*ch));
}

fn write_kerning(out: &mut String, k: &BmFontKerning)
    ensures
        final(out)@ == old(out)@ + kerning_line(*k),
{
    push_str(out, "kerning");
    push_sp(out);
    push_kv_dec(out, "first", k.first as u64, 0);
    push_sp(out);
    push_kv_dec(out, "second", k.second as u64, 0);
    push_sp(out);
    push_kv_int(out, "amount", k.amount as i32, 0);
    push_nl(out);
    proof {
        lemma_pad0(dec(k.first as nat));
        lemma_pad0(dec(k.second as nat));
        lemma_pad0(dec_int(k.amount as int));
    }
    proof {
        reveal(kerning_line);
    }
    assert(out@ =~= old(out)@ + kerning_line(*k));
}

fn write_count(out: &mut String, tag: &str, n: usize)
    ensures
        final(out)@ == old(out)@ + count_line(tag@, n as nat),
{
    push_str(out, tag);
    push_sp(out);
    push_kv_dec(out, "count", n as u64, 0);
    push_nl(out);
    proof {
        lemma_pad0(dec(n as nat));
    }
    assert(out@ =~= old(out)@ + count_line(tag@, n as nat));
}

/// Export a [`BmFont`] structure to text `.fnt` format.
pub fn export_fnt(bmfont: &BmFont) -> (s: String)
    ensures
        s@ == spec_export_fnt(bmfont@),
{
    let mut out = String::new();
    write_info(&mut out, &bmfont.info);
    write_common(&mut out, &bmfont.common);
    let ghost head = out@;
    let mut i: usize = 0;
    while i < bmfont.pages.len()
        invariant
            i <= bmfont.pages@.len(),
            out@ == head + pages_text(bmfont.pages@.map_values(|p: BmFontPage| p@).take(i as int)),
        decreases bmfont.pages@.len() - i,
    {
        write_page(&mut out, &bmfont.pages[i]);
        assert(bmfont.pages@.map_values(|p: BmFontPage| p@).take(i + 1).drop_last()
            =~= bmfont.pages@.map_values(|p: BmFontPage| p@).take(i as int));
        i = i + 1;
    }
    assert(bmfont.pages@.map_values(|p: BmFontPage| p@).take(i as int) =~= bmfont@.pages);
    write_count(&mut out, "chars", bmfont.chars.len());
    let ghost head2 = out@;
    let mut i: usize = 0;
    while i < bmfont.chars.len()
        invariant
            i <= bmfont.chars@.len(),
            out@ == head2 + chars_text(bmfont.chars@.take(i as int)),
        decreases bmfont.chars@.len() - i,
    {
        write_char(&mut out, &bmfont.chars[i]);
        assert(bmfont.chars@.take(i + 1).drop_last() =~= bmfont.chars@.take(i as int));
        i = i + 1;
    }
    assert(bmfont.chars@.take(i as int) =~= bmfont.chars@);
    write_count(&mut out, "kernings", bmfont.kernings.len());
    let ghost head3 = out@;
    let mut i: usize = 0;
    while i < bmfont.kernings.len()
        invariant
            i <= bmfont.kernings@.len(),
            out@ == head3 + kernings_text(bmfont.kernings@.take(i as int)),
        decreases bmfont.kernings@.len() - i,
    {
        write_kerning(&mut out, &bmfont.kernings[i]);
        assert(bmfont.kernings@.take(i + 1).drop_last() =~= bmfont.kernings@.take(i as int));
        i = i + 1;
    }
    assert(bmfont.kernings@.take(i as int) =~= bmfont.kernings@);
    assert(out@ =~= spec_export_fnt(bmfont@));
    out
}

} // verus!

verus! {

// ---------------------------------------------------------------------------
// Glyph records to BMFont
// ---------------------------------------------------------------------------

pub open spec fn glyph_char(g: GlyphView) -> BmFontChar {
    BmFontChar {
        id: g.codepoint,
        x: g.x,
        y: g.y,
        width: g.width,
        height: g.height,
        xoffset: g.xoffset,
        yoffset: g.yoffset,
        xadvance: g.xadvance,
        page: g.page,
        chnl: 0,
    }
}

/// The kerning pairs of a glyph, with the glyph as first character.
pub open spec fn glyph_kernings(g: GlyphView) -> Seq<BmFontKerning> {
    g.kernings.map_values(
        |p: (u32, i16)| BmFontKerning { first: g.codepoint, second: p.0, amount: p.1 },
    )
}

/// The kerning pairs of all glyphs, glyph by glyph.
pub open spec fn all_kernings(gs: Seq<GlyphView>) -> Seq<BmFontKerning>
    decreases gs.len(),
{
    if gs.len() == 0 {
        seq![]
    } else {
        all_kernings(gs.drop_last()) + glyph_kernings(gs.last())
    }
}

/// The BMFont that describes packed glyphs on pages named `files`.
pub open spec fn glyphs_font(
    gs: Seq<GlyphView>,
    face: Seq<char>,
    font_size: i32,
    line_height: u32,
    base: u32,
    page_width: u32,
    page_height: u32,
    files: Seq<Seq<char>>,
    padding: Seq<i32>,
    spacing: Seq<i32>,
) -> BmFontView {
    BmFontView {
        info: InfoView {
            face,
            size: font_size,
            bold: false,
            italic: false,
            charset: seq![],
            unicode: false,
            stretch_h: 100,
            smooth: true,
            aa: 1,
            padding,
            spacing,
        },
        common: BmFontCommon {
            line_height,
            base,
            scale_w: page_width,
            scale_h: page_height,
            pages: files.len() as u32,
            packed: false,
        },
        pages: Seq::new(files.len(), |i: int| PageView { id: i as u32, file: files[i] }),
        chars: gs.map_values(|g: GlyphView| glyph_char(g)),
        kernings: all_kernings(gs),
    }
}

/// Build a [`BmFont`] from a set of packed [`GlyphRecord`]s and metadata,
/// then export to text `.fnt` format. `page_filenames[i]` names page `i`.
pub fn glyphs_to_fnt(
    glyphs: &[GlyphRecord],
    face: &str,
    font_size: i32,
    line_height: u32,
    base: u32,
    page_width: u32,
    page_height: u32,
    page_filenames: &[String],
    padding: [i32; 4],
    spacing: [i32; 2],
) -> (s: String)
    ensures
        s@ == spec_export_fnt(
            glyphs_font(
                glyph_views(glyphs@),
                face@,
                font_size,
                line_height,
                base,
                page_width,
                page_height,
                page_filenames@.map_values(|f: String| f@),
                padding@,
                spacing@,
            ),
        ),
{
    let ghost files = page_filenames@.map_values(|f: String| f@);
    let mut pages: Vec<BmFontPage> = Vec::new();
    let mut i: usize = 0;
    while i < page_filenames.len()
        invariant
            i <= page_filenames@.len(),
            files == page_filenames@.map_values(|f: String| f@),
            pages@.map_values(|p: BmFontPage| p@) == Seq::new(
                i as nat,
                |j: int| PageView { id: j as u32, file: files[j] },
            ),
        decreases page_filenames@.len() - i,
    {
        let file = page_filenames[i].clone();
        assert(file@ == files[i as int]);
        let ghost p0 = pages@;
        let pg = BmFontPage { id: i as u32, file };
        assert(pg@ == PageView { id: (i as int) as u32, file: files[i as int] });
        pages.push(pg);
        assert(pages@.map_values(|p: BmFontPage| p@) =~= p0.map_values(|p: BmFontPage| p@).push(pg@));
        assert(pages@.map_values(|p: BmFontPage| p@) =~= Seq::new(
            (i + 1) as nat,
            |j: int| PageView { id: j as u32, file: files[j] },
        ));
        i = i + 1;
    }
    let ghost gv = glyph_views(glyphs@);
    let mut chars: Vec<BmFontChar> = Vec::new();
    let mut kernings: Vec<BmFontKerning> = Vec::new();
    let mut i: usize = 0;
    while i < glyphs.len()
        invariant
            i <= glyphs@.len(),
            gv == glyph_views(glyphs@),
            chars@ == gv.take(i as int).map_values(|g: GlyphView| glyph_char(g)),
            kernings@ == all_kernings(gv.take(i as int)),
        decreases glyphs@.len() - i,
    {
        let g = &glyphs[i];
        assert(gv[i as int] == g@);
        chars.push(
            BmFontChar {
                id: g.codepoint,
                x: g.x,
                y: g.y,
                width: g.width,
                height: g.height,
                xoffset: g.xoffset,
                yoffset: g.yoffset,
                xadvance: g.xadvance,
                page: g.page,
                chnl: 0,
            },
        );
        let ghost k0 = kernings@;
        let mut j: usize = 0;
        while j < g.kernings.len()
            invariant
                j <= g.kernings@.len(),
                kernings@ == k0 + glyph_kernings(g@).take(j as int),
            decreases g.kernings@.len() - j,
        {
            let (second, amount) = g.kernings[j];
            kernings.push(BmFontKerning { first: g.codepoint, second, amount });
            assert(glyph_kernings(g@).take(j + 1) =~= glyph_kernings(g@).take(j as int).push(
                BmFontKerning { first: g.codepoint, second, amount },
            ));
            j = j + 1;
        }
        assert(glyph_kernings(g@).take(j as int) =~= glyph_kernings(g@));
        assert(gv.take(i + 1).drop_last() =~= gv.take(i as int));
        assert(chars@ =~= gv.take(i + 1).map_values(|g: GlyphView| glyph_char(g)));
        i = i + 1;
    }
    assert(gv.take(i as int) =~= gv);
    let bmfont = BmFont {
        info: BmFontInfo {
            face: crate::source::bmfont_text::str_to_string(face),
            size: font_size,
            bold: false,
            italic: false,
            charset: String::new(),
            unicode: false,
            stretch_h: 100,
            smooth: true,
            aa: 1,
            padding,
            spacing,
        },
        common: BmFontCommon {
            line_height,
            base,
            scale_w: page_width,
            scale_h: page_height,
            pages: page_filenames.len() as u32,
            packed: false,
        },
        pages,
        chars,
        kernings,
    };
    assert(bmfont@.info == glyphs_font(gv, face@, font_size, line_height, base, page_width, page_height, files, padding@, spacing@).info);
    assert(bmfont@ == glyphs_font(gv, face@, font_size, line_height, base, page_width, page_height, files, padding@, spacing@));
    export_fnt(&bmfont)
}

/// Encode an [`AtlasPage`] as a PNG byte buffer. The page's byte count
/// `width * height * 4` must fit in `usize`.
pub fn encode_atlas_png(page: &AtlasPage) -> (r: Result<Vec<u8>, FontbakeError>)
    requires
        page.width * page.height * 4 <= usize::MAX,
    ensures
        match r {
            Ok(b) => b@ == png_rgba8_file(page.width, page.height, page.rgba@),
            Err(e) => e is Png,
        },
        (page.width == 0 || page.height == 0 || page.rgba@.len() != page.width * page.height * 4)
            <==> r is Err,
{
    match png_encode_rgba8(page.width, page.height, page.rgba.as_slice()) {
        Ok(b) => Ok(b),
        Err(m) => Err(FontbakeError::Png(m)),
    }
}

} // verus!
