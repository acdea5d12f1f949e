//! `import_bmfont` pipeline: an existing text BMFont (.fnt and PNG pages)
//! becomes [`GlyphRecord`]s. Imported glyphs pass their pixels through.
use vstd::prelude::*;
use crate::model::{BmFont, BmFontChar, FontbakeError, GlyphRecord, GlyphView};
use crate::png_codec::{png_decode_expanded, png_expanded_image, PngColor};
use crate::export::bmfont_text::glyph_char;
use crate::model::SourceKind;
use crate::source::bmfont_text::{
    bmfont_to_glyphs, crop, crop_rows, import_glyphs, kernings_of, page_data, parse_fnt, row_end,
    spec_parse_fnt, Crop,
};

verus! {

/// Importing keeps every character as it was: each imported glyph, written
/// back as a BMFont character, is the character it came from (the channel
/// aside, which is written as 0), marked as a bitmap import of the source,
/// with the kerning pairs that start at it.
pub proof fn lemma_import_keeps_metrics(
    cs: Seq<BmFontChar>,
    ks: Seq<crate::model::BmFontKerning>,
    pages: Seq<(u32, Seq<u8>)>,
    sid: Seq<char>,
)
    requires
        import_glyphs(cs, ks, pages, sid) matches Some(Ok(_)),
    ensures
        import_glyphs(cs, ks, pages, sid) matches Some(Ok(gs)) && {
            &&& gs.len() == cs.len()
            &&& forall|i: int|
                0 <= i < cs.len() ==> {
                    &&& #[trigger] glyph_char(gs[i]) == BmFontChar { chnl: 0, ..cs[i] }
                    &&& gs[i].source_kind == SourceKind::BitmapImport
                    &&& gs[i].source_id == sid
                    &&& gs[i].kernings == kernings_of(ks, cs[i].id)
                }
        },
    decreases cs.len(),
{
    if cs.len() > 0 {
        let rest = cs.drop_first();
        lemma_import_keeps_metrics(rest, ks, pages, sid);
        let gs = import_glyphs(cs, ks, pages, sid)->Some_0->Ok_0;
        let rs = import_glyphs(rest, ks, pages, sid)->Some_0->Ok_0;
        assert forall|i: int| 0 <= i < cs.len() implies {
            &&& #[trigger] glyph_char(gs[i]) == BmFontChar { chnl: 0, ..cs[i] }
            &&& gs[i].source_kind == SourceKind::BitmapImport
            &&& gs[i].source_id == sid
            &&& gs[i].kernings == kernings_of(ks, cs[i].id)
        } by {
            if i > 0 {
                assert(gs[i] == rs[i - 1]);
                assert(cs[i] == rest[i - 1]);
                assert(glyph_char(rs[i - 1]) == BmFontChar { chnl: 0, ..rest[i - 1] });
            }
        }
    }
}

/// A decoded PNG page.
pub struct PngPage {
    pub width: u32,
    pub height: u32,
    pub rgba: Vec<u8>,
}

/// The width and bytes of each page.
pub open spec fn png_pages(pages: Seq<PngPage>) -> Seq<(u32, Seq<u8>)> {
    pages.map_values(|p: PngPage| (p.width, p.rgba@))
}

/// `0` for a bitmap, `1` for an overflow, `2` for a missing page, `3` for a
/// rectangle out of bounds.
pub open spec fn crop_kind(c: Crop) -> u8 {
    match c {
        Crop::Pixels(_) => 0,
        Crop::Overflow => 1,
        Crop::MissingPage => 2,
        Crop::OutOfBounds => 3,
    }
}

proof fn lemma_crop_rows_step(ch: BmFontChar, pw: u32, px: Seq<u8>, r: nat)
    requires
        r < ch.height,
        ch.y + r <= u32::MAX,
        row_end(ch, pw, r as int) <= usize::MAX,
        row_end(ch, pw, r as int) <= px.len(),
    ensures
        crop_kind(crop_rows(ch, pw, px, r)) == crop_kind(crop_rows(ch, pw, px, r + 1)),
{
}

/// How cropping a glyph's rectangle turns out, from the page widths and
/// byte counts alone.
fn crop_outcome(ch: &BmFontChar, pages: &[PngPage]) -> (k: u8)
    ensures
        k == crop_kind(crop(*ch, png_pages(pages@))),
{
    let ghost pv = png_pages(pages@);
    if ch.width == 0 || ch.height == 0 {
        return 0;
    }
    if ch.page as usize >= pages.len() {
        return 2;
    }
    let page = &pages[ch.page as usize];
    assert(pv[ch.page as int] == (page.width, page.rgba@));
    let pw = page.width;
    if (pw as u128) * 4 > usize::MAX as u128 {
        return 1;
    }
    assert((ch.width as int) * (ch.height as int) <= 0xFFFF_FFFFint * 0xFFFF_FFFFint) by (nonlinear_arith)
        requires
            ch.width <= 0xFFFF_FFFFint,
            ch.height <= 0xFFFF_FFFFint,
    ;
    if (ch.width as u128) * (ch.height as u128) * 4 > u32::MAX as u128 {
        return 1;
    }
    let len = page.rgba.len();
    let mut row: u32 = 0;
    while row < ch.height
        invariant
            row <= ch.height,
            len == page.rgba@.len(),
            pv == png_pages(pages@),
            crop_kind(crop(*ch, pv)) == crop_kind(crop_rows(*ch, pw, page.rgba@, row as nat)),
        decreases ch.height - row,
    {
        if (ch.y as u64) + (row as u64) > u32::MAX as u64 {
            assert(crop_rows(*ch, pw, page.rgba@, row as nat) == Crop::Overflow);
            return 1;
        }
        let src_y = (ch.y + row) as u128;
        assert(src_y * ((pw as int) * 4) <= 0xFFFF_FFFFint * (0xFFFF_FFFFint * 4)) by (nonlinear_arith)
            requires
                src_y <= 0xFFFF_FFFFint,
                pw <= 0xFFFF_FFFFint,
        ;
        let end = src_y * ((pw as u128) * 4) + (ch.x as u128) * 4 + (ch.width as u128) * 4;
        assert(end == row_end(*ch, pw, row as int));
        if end > usize::MAX as u128 {
            assert(crop_rows(*ch, pw, page.rgba@, row as nat) == Crop::Overflow);
            return 1;
        }
        if end > len as u128 {
            assert(crop_rows(*ch, pw, page.rgba@, row as nat) == Crop::OutOfBounds);
            return 3;
        }
        proof {
            lemma_crop_rows_step(*ch, pw, page.rgba@, row as nat);
        }
        row = row + 1;
    }
    0
}

/// Whether importing a BMFont's glyphs from these pages would overflow an
/// index computation before it finishes or fails.
pub fn import_overflows(bmfont: &BmFont, pages: &[PngPage], source_id: &str) -> (o: bool)
    ensures
        o == (import_glyphs(bmfont.chars@, bmfont.kernings@, png_pages(pages@), source_id@) is None),
{
    let ghost cs = bmfont.chars@;
    let ghost ks = bmfont.kernings@;
    let ghost pv = png_pages(pages@);
    let ghost sid = source_id@;
    let mut i: usize = 0;
    assert(cs.skip(0) =~= cs);
    while i < bmfont.chars.len()
        invariant
            i <= cs.len(),
            cs == bmfont.chars@,
            ks == bmfont.kernings@,
            pv == png_pages(pages@),
            sid == source_id@,
            (import_glyphs(cs, ks, pv, sid) is None) == (import_glyphs(cs.skip(i as int), ks, pv, sid) is None),
        decreases cs.len() - i,
    {
        let ghost rest = cs.skip(i as int);
        assert(rest[0] == cs[i as int]);
        assert(rest.drop_first() =~= cs.skip(i + 1));
        let k = crop_outcome(&bmfont.chars[i], pages);
        if k == 1 {
            return true;
        }
        if k != 0 {
            return false;
        }
        i = i + 1;
    }
    assert(cs.skip(i as int) =~= Seq::<BmFontChar>::empty());
    false
}

/// Import a text BMFont from its `.fnt` content and decoded PNG pages,
/// ordered by page id. Returns the parsed BMFont and its glyphs.
pub fn import_bmfont(fnt_text: &str, pages: &[PngPage], source_id: &str) -> (r: Result<
    (BmFont, Vec<GlyphRecord>),
    FontbakeError,
>)
    requires
        spec_parse_fnt(fnt_text@) matches Ok(b) ==> import_glyphs(
            b.chars,
            b.kernings,
            png_pages(pages@),
            source_id@,
        ) is Some,
    ensures
        match r {
            Ok((b, gs)) => {
                &&& spec_parse_fnt(fnt_text@) == Ok::<_, Seq<char>>(b@)
                &&& import_glyphs(b@.chars, b@.kernings, png_pages(pages@), source_id@) == Some(
                    Ok::<Seq<GlyphView>, Seq<char>>(gs@.map_values(|g: GlyphRecord| g@)),
                )
            },
            Err(FontbakeError::BmfontParse(m)) => match spec_parse_fnt(fnt_text@) {
                Err(e) => e == m@,
                Ok(b) => import_glyphs(b.chars, b.kernings, png_pages(pages@), source_id@) == Some(
                    Err::<Seq<GlyphView>, Seq<char>>(m@),
                ),
            },
            Err(_) => false,
        },
{
    let bmfont = parse_fnt(fnt_text)?;
    let mut data: Vec<(u32, u32, &[u8])> = Vec::new();
    let mut i: usize = 0;
    while i < pages.len()
        invariant
            i <= pages@.len(),
            data@.len() == i,
            page_data(data@) == png_pages(pages@.take(i as int)),
        decreases pages@.len() - i,
    {
        let p = &pages[i];
        let sl = p.rgba.as_slice();
        assert(sl@ == p.rgba@);
        let ghost d0 = data@;
        data.push((p.width, p.height, sl));
        assert(page_data(data@) =~= page_data(d0).push((p.width, p.rgba@)));
        assert(pages@.take(i + 1) =~= pages@.take(i as int).push(*p));
        assert(png_pages(pages@.take(i + 1)) =~= png_pages(pages@.take(i as int)).push(
            (p.width, p.rgba@),
        ));
        assert(page_data(data@) =~= png_pages(pages@.take(i + 1)));
        i = i + 1;
    }
    assert(pages@.take(i as int) =~= pages@);
    let glyphs = bmfont_to_glyphs(&bmfont, data.as_slice(), source_id)?;
    Ok((bmfont, glyphs))
}

// ---------------------------------------------------------------------------
// Decoding PNG pages
// ---------------------------------------------------------------------------

/// RGB samples, three bytes a pixel, with an opaque alpha added; a short
/// final chunk is kept as it is.
pub open spec fn rgb_to_rgba(s: Seq<u8>) -> Seq<u8>
    decreases s.len(),
{
    if s.len() == 0 {
        seq![]
    } else if s.len() <= 3 {
        s + seq![255u8]
    } else {
        s.take(3) + seq![255u8] + rgb_to_rgba(s.skip(3))
    }
}

/// One gray byte a pixel, repeated into RGB, with an opaque alpha.
pub open spec fn gray_to_rgba(s: Seq<u8>) -> Seq<u8>
    decreases s.len(),
{
    if s.len() == 0 {
        seq![]
    } else {
        seq![s[0], s[0], s[0], 255u8] + gray_to_rgba(s.drop_first())
    }
}

/// Gray and alpha bytes a pixel; a missing final alpha is opaque.
pub open spec fn gray_alpha_to_rgba(s: Seq<u8>) -> Seq<u8>
    decreases s.len(),
{
    if s.len() == 0 {
        seq![]
    } else if s.len() == 1 {
        seq![s[0], s[0], s[0], 255u8]
    } else {
        seq![s[0], s[0], s[0], s[1]] + gray_alpha_to_rgba(s.skip(2))
    }
}

/// The RGBA bytes of decoded samples of a colour type. Palette indices that
/// were not expanded are read as gray.
pub open spec fn expand_rgba(color: PngColor, s: Seq<u8>) -> Seq<u8> {
    match color {
        PngColor::Rgba => s,
        PngColor::Rgb => rgb_to_rgba(s),
        PngColor::Grayscale => gray_to_rgba(s),
        PngColor::Indexed => gray_to_rgba(s),
        PngColor::GrayscaleAlpha => gray_alpha_to_rgba(s),
    }
}

fn rgb_samples(s: &Vec<u8>) -> (out: Vec<u8>)
    ensures
        out@ == rgb_to_rgba(s@),
{
    let mut out: Vec<u8> = Vec::new();
    let n = s.len();
    let mut i: usize = 0;
    assert(s@.skip(0) =~= s@);
    while i < n
        invariant
            i <= n == s@.len(),
            rgb_to_rgba(s@) == out@ + rgb_to_rgba(s@.skip(i as int)),
        decreases n - i,
    {
        let ghost t = s@.skip(i as int);
        let ghost o = out@;
        if n - i <= 3 {
            let mut j = i;
            while j < n
                invariant
                    i <= j <= n == s@.len(),
                    out@ == o + s@.subrange(i as int, j as int),
                decreases n - j,
            {
                out.push(s[j]);
                assert(s@.subrange(i as int, j + 1) =~= s@.subrange(i as int, j as int).push(s@[j as int]));
                j = j + 1;
            }
            out.push(255);
            assert(t =~= s@.subrange(i as int, n as int));
            assert(s@.skip(n as int) =~= Seq::<u8>::empty());
            assert(rgb_to_rgba(s@) == out@ + rgb_to_rgba(s@.skip(n as int)));
            i = n;
        } else {
            out.push(s[i]);
            out.push(s[i + 1]);
            out.push(s[i + 2]);
            out.push(255);
            assert(t.take(3) =~= seq![s@[i as int], s@[i + 1], s@[i + 2]]);
            assert(t.skip(3) =~= s@.skip(i + 3));
            assert(out@ =~= o + (t.take(3) + seq![255u8]));
            i = i + 3;
        }
    }
    assert(out@ + seq![] =~= out@);
    out
}

fn gray_samples(s: &Vec<u8>) -> (out: Vec<u8>)
    ensures
        out@ == gray_to_rgba(s@),
{
    let mut out: Vec<u8> = Vec::new();
    let n = s.len();
    let mut i: usize = 0;
    assert(s@.skip(0) =~= s@);
    while i < n
        invariant
            i <= n == s@.len(),
            gray_to_rgba(s@) == out@ + gray_to_rgba(s@.skip(i as int)),
        decreases n - i,
    {
        let ghost t = s@.skip(i as int);
        let ghost o = out@;
        let g = s[i];
        out.push(g);
        out.push(g);
        out.push(g);
        out.push(255);
        assert(t.drop_first() =~= s@.skip(i + 1));
        assert(out@ =~= o + seq![g, g, g, 255u8]);
        i = i + 1;
    }
    assert(out@ + seq![] =~= out@);
    out
}

fn gray_alpha_samples(s: &Vec<u8>) -> (out: Vec<u8>)
    ensures
        out@ == gray_alpha_to_rgba(s@),
{
    let mut out: Vec<u8> = Vec::new();
    let n = s.len();
    let mut i: usize = 0;
    assert(s@.skip(0) =~= s@);
    while i < n
        invariant
            i <= n == s@.len(),
            gray_alpha_to_rgba(s@) == out@ + gray_alpha_to_rgba(s@.skip(i as int)),
        decreases n - i,
    {
        let ghost t = s@.skip(i as int);
        let ghost o = out@;
        let g = s[i];
        let a = if i + 1 < n {
            s[i + 1]
        } else {
            255
        };
        out.push(g);
        out.push(g);
        out.push(g);
        out.push(a);
        assert(out@ =~= o + seq![g, g, g, a]);
        if i + 1 < n {
            assert(t.skip(2) =~= s@.skip(i + 2));
            i = i + 2;
        } else {
            assert(s@.skip(n as int) =~= Seq::<u8>::empty());
            i = n;
        }
    }
    assert(out@ + seq![] =~= out@);
    out
}

/// Whether widening the samples of a decoded image of this colour type
/// computes its byte count `width * height * 4` in `u32` without overflow.
pub open spec fn expansion_fits(width: u32, height: u32, color: PngColor) -> bool {
    color != PngColor::Rgba ==> width * height * 4 <= u32::MAX
}

/// Decode a PNG byte buffer into a [`PngPage`] with RGBA pixels.
pub fn decode_png_page(png_bytes: &[u8]) -> (r: Result<PngPage, FontbakeError>)
    requires
        png_expanded_image(png_bytes@) matches Some(x) ==> expansion_fits(x.0, x.1, x.2),
    ensures
        match r {
            Ok(p) => png_expanded_image(png_bytes@) matches Some(x) && p.width == x.0 && p.height
                == x.1 && p.rgba@ == expand_rgba(x.2, x.3),
            Err(e) => e is Png && png_expanded_image(png_bytes@) is None,
        },
{
    let (width, height, color, samples) = match png_decode_expanded(png_bytes) {
        Ok(x) => x,
        Err(m) => {
            return Err(FontbakeError::Png(m));
        },
    };
    let rgba = match color {
        PngColor::Rgba => samples,
        PngColor::Rgb => rgb_samples(&samples),
        PngColor::Grayscale => gray_samples(&samples),
        PngColor::GrayscaleAlpha => gray_alpha_samples(&samples),
        PngColor::Indexed => gray_samples(&samples),
    };
    Ok(PngPage { width, height, rgba })
}

/// [`decode_png_page`] where it is defined: `None` where widening the
/// decoded samples would overflow the `u32` byte count.
pub fn decode_png_page_checked(png_bytes: &[u8]) -> (r: Option<Result<PngPage, FontbakeError>>)
    ensures
        match r {
            None => png_expanded_image(png_bytes@) matches Some(x) && !expansion_fits(x.0, x.1, x.2),
            Some(Ok(p)) => png_expanded_image(png_bytes@) matches Some(x) && expansion_fits(
                x.0,
                x.1,
                x.2,
            ) && p.width == x.0 && p.height == x.1 && p.rgba@ == expand_rgba(x.2, x.3),
            Some(Err(e)) => e is Png && png_expanded_image(png_bytes@) is None,
        },
{
    match png_decode_expanded(png_bytes) {
        Ok((w, h, c, _)) => {
            assert((w as int) * (h as int) <= 0xFFFF_FFFFint * 0xFFFF_FFFFint) by (nonlinear_arith)
                requires
                    w <= 0xFFFF_FFFFint,
                    h <= 0xFFFF_FFFFint,
            ;
            if c != PngColor::Rgba && (w as u128) * (h as u128) * 4 > u32::MAX as u128 {
                return None;
            }
        },
        Err(_) => {},
    }
    Some(decode_png_page(png_bytes))
}

} // verus!
