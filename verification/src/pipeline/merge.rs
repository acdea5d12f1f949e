//! `merge_fonts` pipeline: several sets of glyphs merged into one atlas.
//!
//! Glyphs are merged by codepoint. When a codepoint comes up in more than one
//! set, the first one met wins (the caller orders the sets by priority).
//! Imported bitmaps pass through untouched; all glyphs are packed anew.
use vstd::prelude::*;
use crate::export::bmfont_text::{encode_atlas_png, glyphs_font, glyphs_to_fnt, spec_export_fnt};
use crate::model::{glyph_views, zeros, AtlasPage, BuildResult, FontbakeError, GlyphRecord, GlyphView};
use crate::num::{dec, push_dec};
use crate::pack::hiero_rows::{
    first_too_large, moved, msg_too_large, pack_glyphs, pack_queue,
    pack_size_overflows, packed, page_pixels, pages_of, lemma_page_pixels_len,
};
use crate::png_codec::png_rgba8_file;
use crate::text::push_str;

verus! {

// ---------------------------------------------------------------------------
// Merging glyph sets
// ---------------------------------------------------------------------------

/// All glyphs of the sets, set after set.
pub open spec fn set_views(sets: Seq<&[GlyphRecord]>) -> Seq<GlyphView>
    decreases sets.len(),
{
    if sets.len() == 0 {
        seq![]
    } else {
        set_views(sets.drop_last()) + glyph_views(sets.last()@)
    }
}

/// The glyph with its packing position cleared.
pub open spec fn unplaced(g: GlyphView) -> GlyphView {
    moved(g, 0, 0, 0)
}

pub open spec fn has_codepoint(s: Seq<GlyphView>, cp: u32) -> bool {
    exists|k: int| 0 <= k < s.len() && (#[trigger] s[k]).codepoint == cp
}

/// Strictly increasing codepoints.
pub open spec fn by_codepoint(s: Seq<GlyphView>) -> bool {
    forall|i: int, j: int| 0 <= i < j < s.len() ==> (#[trigger] s[i]).codepoint < (#[trigger] s[j]).codepoint
}

/// `g` put before the first glyph whose codepoint is not below its own.
pub open spec fn insert_by_codepoint(s: Seq<GlyphView>, g: GlyphView) -> Seq<GlyphView>
    decreases s.len(),
{
    if s.len() == 0 {
        seq![g]
    } else if g.codepoint <= s[0].codepoint {
        seq![g] + s
    } else {
        seq![s[0]] + insert_by_codepoint(s.drop_first(), g)
    }
}

/// The glyphs in input order, each one whose codepoint is new put into
/// codepoint order with its position cleared; later ones with a codepoint
/// already there are left out.
pub open spec fn merge_unique(flat: Seq<GlyphView>) -> Seq<GlyphView>
    decreases flat.len(),
{
    if flat.len() == 0 {
        seq![]
    } else {
        let m = merge_unique(flat.drop_last());
        if has_codepoint(m, flat.last().codepoint) {
            m
        } else {
            insert_by_codepoint(m, unplaced(flat.last()))
        }
    }
}

proof fn lemma_insert_by_codepoint(s: Seq<GlyphView>, g: GlyphView, pos: int)
    requires
        by_codepoint(s),
        0 <= pos <= s.len(),
        forall|k: int| 0 <= k < pos ==> (#[trigger] s[k]).codepoint < g.codepoint,
        forall|k: int| pos <= k < s.len() ==> (#[trigger] s[k]).codepoint > g.codepoint,
    ensures
        insert_by_codepoint(s, g) == s.insert(pos, g),
        by_codepoint(s.insert(pos, g)),
    decreases s.len(),
{
    if s.len() == 0 {
        assert(s.insert(pos, g) =~= seq![g]);
    } else if pos == 0 {
        assert(s.insert(pos, g) =~= seq![g] + s);
    } else {
        let t = s.drop_first();
        assert forall|i: int, j: int| 0 <= i < j < t.len() implies (#[trigger] t[i]).codepoint
            < (#[trigger] t[j]).codepoint by {
            assert(t[i] == s[i + 1] && t[j] == s[j + 1]);
        }
        assert forall|k: int| 0 <= k < pos - 1 implies (#[trigger] t[k]).codepoint < g.codepoint by {
            assert(t[k] == s[k + 1]);
        }
        assert forall|k: int| pos - 1 <= k < t.len() implies (#[trigger] t[k]).codepoint
            > g.codepoint by {
            assert(t[k] == s[k + 1]);
        }
        lemma_insert_by_codepoint(t, g, pos - 1);
        assert(s.insert(pos, g) =~= seq![s[0]] + t.insert(pos - 1, g));
    }
    let r = s.insert(pos, g);
    assert forall|i: int, j: int| 0 <= i < j < r.len() implies (#[trigger] r[i]).codepoint
        < (#[trigger] r[j]).codepoint by {
        if j < pos {
        } else if j == pos {
            assert(r[i] == s[i]);
        } else if i < pos {
            assert(r[j] == s[j - 1]);
        } else if i == pos {
            assert(r[j] == s[j - 1]);
        } else {
            assert(r[i] == s[i - 1] && r[j] == s[j - 1]);
        }
    }
}

/// The merged glyphs are in strictly increasing codepoint order.
pub proof fn lemma_merge_sorted(flat: Seq<GlyphView>)
    ensures
        by_codepoint(merge_unique(flat)),
    decreases flat.len(),
{
    if flat.len() > 0 {
        let m = merge_unique(flat.drop_last());
        lemma_merge_sorted(flat.drop_last());
        if !has_codepoint(m, flat.last().codepoint) {
            let g = unplaced(flat.last());
            let pos = count_below(m, g.codepoint);
            lemma_count_below(m, g.codepoint);
            lemma_insert_by_codepoint(m, g, pos);
        }
    }
}

/// How many glyphs of a codepoint-ordered sequence lie below `cp`.
pub open spec fn count_below(s: Seq<GlyphView>, cp: u32) -> int
    decreases s.len(),
{
    if s.len() == 0 {
        0
    } else if s.last().codepoint < cp {
        s.len() as int
    } else {
        count_below(s.drop_last(), cp)
    }
}

proof fn lemma_count_below(s: Seq<GlyphView>, cp: u32)
    requires
        by_codepoint(s),
        !has_codepoint(s, cp),
    ensures
        0 <= count_below(s, cp) <= s.len(),
        forall|k: int| 0 <= k < count_below(s, cp) ==> (#[trigger] s[k]).codepoint < cp,
        forall|k: int| count_below(s, cp) <= k < s.len() ==> (#[trigger] s[k]).codepoint > cp,
    decreases s.len(),
{
    if s.len() > 0 {
        let t = s.drop_last();
        if s.last().codepoint < cp {
            assert forall|k: int| 0 <= k < s.len() implies (#[trigger] s[k]).codepoint < cp by {
                if k < s.len() - 1 {
                    assert(s[k].codepoint < s[s.len() - 1].codepoint);
                }
            }
        } else {
            assert(s[s.len() - 1].codepoint != cp);
            assert forall|i: int, j: int| 0 <= i < j < t.len() implies (#[trigger] t[i]).codepoint
                < (#[trigger] t[j]).codepoint by {
                assert(t[i] == s[i] && t[j] == s[j]);
            }
            assert(!has_codepoint(t, cp)) by {
                assert forall|k: int| 0 <= k < t.len() implies (#[trigger] t[k]).codepoint != cp by {
                    assert(t[k] == s[k]);
                }
            }
            lemma_count_below(t, cp);
            assert forall|k: int| 0 <= k < count_below(s, cp) implies (#[trigger] s[k]).codepoint
                < cp by {
                assert(t[k] == s[k]);
            }
            assert forall|k: int| count_below(s, cp) <= k < s.len() implies (#[trigger] s[k]).codepoint
                > cp by {
                if k < s.len() - 1 {
                    assert(t[k] == s[k]);
                }
            }
        }
    }
}

// ---------------------------------------------------------------------------
// Collecting the merged glyphs
// ---------------------------------------------------------------------------

/// A copy of a glyph record.
pub fn copy_glyph(g: &GlyphRecord) -> (c: GlyphRecord)
    ensures
        c@ == g@,
{
    let mut bitmap: Vec<u8> = Vec::new();
    let mut i: usize = 0;
    while i < g.bitmap_rgba.len()
        invariant
            i <= g.bitmap_rgba@.len(),
            bitmap@ == g.bitmap_rgba@.take(i as int),
        decreases g.bitmap_rgba@.len() - i,
    {
        bitmap.push(g.bitmap_rgba[i]);
        assert(g.bitmap_rgba@.take(i + 1) =~= g.bitmap_rgba@.take(i as int).push(g.bitmap_rgba@[i as int]));
        i = i + 1;
    }
    assert(g.bitmap_rgba@.take(i as int) =~= g.bitmap_rgba@);
    let mut kernings: Vec<(u32, i16)> = Vec::new();
    let mut j: usize = 0;
    while j < g.kernings.len()
        invariant
            j <= g.kernings@.len(),
            kernings@ == g.kernings@.take(j as int),
        decreases g.kernings@.len() - j,
    {
        kernings.push(g.kernings[j]);
        assert(g.kernings@.take(j + 1) =~= g.kernings@.take(j as int).push(g.kernings@[j as int]));
        j = j + 1;
    }
    assert(g.kernings@.take(j as int) =~= g.kernings@);
    GlyphRecord {
        codepoint: g.codepoint,
        source_kind: g.source_kind,
        source_id: g.source_id.clone(),
        bitmap_rgba: bitmap,
        width: g.width,
        height: g.height,
        xoffset: g.xoffset,
        yoffset: g.yoffset,
        xadvance: g.xadvance,
        page: g.page,
        x: g.x,
        y: g.y,
        kernings,
    }
}

/// Where a codepoint goes in codepoint-ordered glyphs, and whether it is there.
fn find_slot(v: &Vec<GlyphRecord>, cp: u32) -> (r: (usize, bool))
    requires
        by_codepoint(glyph_views(v@)),
    ensures
        r.0 <= v@.len(),
        forall|k: int| 0 <= k < r.0 ==> (#[trigger] v@[k]).codepoint < cp,
        forall|k: int| r.0 <= k < v@.len() ==> (#[trigger] v@[k]).codepoint >= cp,
        r.1 == has_codepoint(glyph_views(v@), cp),
{
    let ghost gv = glyph_views(v@);
    let mut lo: usize = 0;
    let mut hi: usize = v.len();
    while lo < hi
        invariant
            lo <= hi <= v@.len(),
            gv == glyph_views(v@),
            by_codepoint(gv),
            forall|k: int| 0 <= k < lo ==> (#[trigger] v@[k]).codepoint < cp,
            forall|k: int| hi <= k < v@.len() ==> (#[trigger] v@[k]).codepoint >= cp,
        decreases hi - lo,
    {
        let mid = lo + (hi - lo) / 2;
        if v[mid].codepoint < cp {
            assert forall|k: int| 0 <= k < mid + 1 implies (#[trigger] v@[k]).codepoint < cp by {
                if k < mid {
                    assert(gv[k].codepoint < gv[mid as int].codepoint);
                }
            }
            lo = mid + 1;
        } else {
            assert forall|k: int| mid <= k < v@.len() implies (#[trigger] v@[k]).codepoint >= cp by {
                if k > mid {
                    assert(gv[mid as int].codepoint < gv[k].codepoint);
                }
            }
            hi = mid;
        }
    }
    let found = lo < v.len() && v[lo].codepoint == cp;
    if found {
        assert(gv[lo as int].codepoint == cp);
    } else {
        assert forall|k: int| 0 <= k < gv.len() implies (#[trigger] gv[k]).codepoint != cp by {
            assert(gv[k] == v@[k]@);
            if k > lo {
                assert(gv[lo as int].codepoint < gv[k].codepoint);
            }
        }
    }
    (lo, found)
}

/// The glyphs of the sets merged by codepoint, the first of each codepoint
/// winning, in codepoint order, their positions cleared.
pub fn collect_unique(glyph_sets: &[&[GlyphRecord]]) -> (out: Vec<GlyphRecord>)
    ensures
        glyph_views(out@) == merge_unique(set_views(glyph_sets@)),
{
    let mut out: Vec<GlyphRecord> = Vec::new();
    let mut si: usize = 0;
    assert(glyph_sets@.take(0) =~= Seq::<&[GlyphRecord]>::empty());
    assert(glyph_views(out@) =~= Seq::<GlyphView>::empty());
    while si < glyph_sets.len()
        invariant
            si <= glyph_sets@.len(),
            glyph_views(out@) == merge_unique(set_views(glyph_sets@.take(si as int))),
        decreases glyph_sets@.len() - si,
    {
        let set = glyph_sets[si];
        let ghost pre = set_views(glyph_sets@.take(si as int));
        let mut gi: usize = 0;
        assert(pre + glyph_views(set@.take(0)) =~= pre);
        while gi < set.len()
            invariant
                gi <= set@.len(),
                glyph_views(out@) == merge_unique(pre + glyph_views(set@.take(gi as int))),
            decreases set@.len() - gi,
        {
            let g = &set[gi];
            let ghost flat = pre + glyph_views(set@.take(gi as int));
            let ghost m = glyph_views(out@);
            assert(flat.push(g@) =~= pre + glyph_views(set@.take(gi + 1)));
            assert(flat.push(g@).drop_last() =~= flat);
            proof {
                lemma_merge_sorted(flat);
            }
            let (pos, found) = find_slot(&out, g.codepoint);
            if !found {
                let mut c = copy_glyph(g);
                c.page = 0;
                c.x = 0;
                c.y = 0;
                assert(c@ == unplaced(g@));
                proof {
                    assert forall|k: int| 0 <= k < pos implies (#[trigger] m[k]).codepoint
                        < g.codepoint by {
                        assert(m[k] == out@[k]@);
                    }
                    assert forall|k: int| pos <= k < m.len() implies (#[trigger] m[k]).codepoint
                        > g.codepoint by {
                        assert(m[k] == out@[k]@);
                        assert(m[k].codepoint != g.codepoint);
                    }
                    lemma_insert_by_codepoint(m, unplaced(g@), pos as int);
                }
                out.insert(pos, c);
                assert(glyph_views(out@) =~= m.insert(pos as int, unplaced(g@)));
            }
            gi = gi + 1;
        }
        assert(set@.take(gi as int) =~= set@);
        assert(glyph_sets@.take(si + 1).drop_last() =~= glyph_sets@.take(si as int));
        assert(glyph_sets@.take(si + 1).last() == set);
        si = si + 1;
    }
    assert(glyph_sets@.take(si as int) =~= glyph_sets@);
    out
}

// ---------------------------------------------------------------------------
// The merged font
// ---------------------------------------------------------------------------

/// `face.png` for page 0, `face_i.png` for page `i` after it.
pub open spec fn page_file(face: Seq<char>, i: nat) -> Seq<char> {
    face + (if i == 0 {
        seq![]
    } else {
        seq!['_'] + dec(i)
    }) + ".png"@
}

pub open spec fn page_files(face: Seq<char>, n: nat) -> Seq<Seq<char>> {
    Seq::new(n, |i: int| page_file(face, i as nat))
}

pub fn page_file_name(face: &str, i: usize) -> (s: String)
    ensures
        s@ == page_file(face@, i as nat),
{
    let mut s = String::new();
    push_str(&mut s, face);
    if i > 0 {
        crate::text::string_push(&mut s, '_');
        push_dec(&mut s, i as u64);
    }
    push_str(&mut s, ".png");
    assert(s@ =~= page_file(face@, i as nat));
    s
}

/// The glyphs after packing.
pub open spec fn packed_all(ms: Seq<GlyphView>, pss: Seq<Seq<(usize, u32, u32)>>) -> Seq<GlyphView> {
    Seq::new(ms.len(), |k: int| packed(ms[k], k, pss))
}

/// The packer makes one page for each page of placements, or one blank page.
pub open spec fn page_count(pss: Seq<Seq<(usize, u32, u32)>>) -> nat {
    if pss.len() == 0 {
        1
    } else {
        pss.len()
    }
}

pub open spec fn page_rgba(
    pss: Seq<Seq<(usize, u32, u32)>>,
    ms: Seq<GlyphView>,
    k: int,
    pw: u32,
    ph: u32,
) -> Seq<u8> {
    if pss.len() == 0 {
        zeros((pw * ph * 4) as nat)
    } else {
        page_pixels(pss[k], ms, k as u32, pw, ph)
    }
}

/// Merge several glyph sets into one [`BuildResult`]. `glyph_sets` is in
/// order of priority: the first glyph of a codepoint wins.
pub fn merge_fonts(
    glyph_sets: &[&[GlyphRecord]],
    face: &str,
    font_size: i32,
    line_height: u32,
    base: u32,
    page_width: u32,
    page_height: u32,
    padding: [i32; 4],
    spacing: [i32; 2],
) -> (r: Result<BuildResult, FontbakeError>)
    requires
        !pack_size_overflows(merge_unique(set_views(glyph_sets@)), page_width, page_height),
    ensures
        ({
            let ms = merge_unique(set_views(glyph_sets@));
            let q = pack_queue(ms);
            let pss = pages_of(q, ms, page_width, page_height);
            if page_width == 0 || page_height == 0 {
                r matches Err(FontbakeError::Pack(m)) && m@ == "page dimensions must be > 0"@
            } else if first_too_large(q, ms, page_width, page_height) is Some {
                r matches Err(FontbakeError::Pack(m)) && m@ == msg_too_large(
                    ms[first_too_large(q, ms, page_width, page_height).unwrap() as int],
                    page_width,
                    page_height,
                )
            } else {
                r matches Ok(res) && {
                        &&& glyph_views(res.glyphs@) == packed_all(ms, pss)
                        &&& res.page_pngs@.len() == page_count(pss)
                        &&& forall|k: int|
                            0 <= k < page_count(pss) ==> (#[trigger] res.page_pngs@[k])@
                                == png_rgba8_file(
                                page_width,
                                page_height,
                                page_rgba(pss, ms, k, page_width, page_height),
                            )
                        &&& res.fnt_text@ == spec_export_fnt(
                            glyphs_font(
                                packed_all(ms, pss),
                                face@,
                                font_size,
                                line_height,
                                base,
                                page_width,
                                page_height,
                                page_files(face@, page_count(pss)),
                                padding@,
                                spacing@,
                            ),
                        )
                }
            }
        }),
{
    let ghost ms = merge_unique(set_views(glyph_sets@));
    let mut merged = collect_unique(glyph_sets);
    let pages = match pack_glyphs(merged.as_mut_slice(), page_width, page_height) {
        Ok(p) => p,
        Err(e) => {
            return Err(e);
        },
    };
    let ghost pss = pages_of(pack_queue(ms), ms, page_width, page_height);
    assert(glyph_views(merged@) =~= packed_all(ms, pss));
    let mut files: Vec<String> = Vec::new();
    let mut i: usize = 0;
    while i < pages.len()
        invariant
            i <= pages@.len(),
            files@.len() == i,
            files@.map_values(|f: String| f@) == page_files(face@, i as nat),
        decreases pages@.len() - i,
    {
        let f = page_file_name(face, i);
        let ghost f0 = files@;
        files.push(f);
        assert(files@[i as int]@ == page_file(face@, i as nat));
        let ghost fv = files@.map_values(|f: String| f@);
        assert forall|j: int| 0 <= j < i + 1 implies #[trigger] fv[j] == page_files(
            face@,
            (i + 1) as nat,
        )[j] by {
            if j < i {
                assert(files@[j] == f0[j]);
                assert(f0.map_values(|f: String| f@)[j] == page_files(face@, i as nat)[j]);
            }
        }
        assert(files@.map_values(|f: String| f@) =~= page_files(face@, (i + 1) as nat));
        i = i + 1;
    }
    let fnt_text = glyphs_to_fnt(
        merged.as_slice(),
        face,
        font_size,
        line_height,
        base,
        page_width,
        page_height,
        files.as_slice(),
        padding,
        spacing,
    );
    proof {
        assert forall|j: int| 0 <= j < pages@.len() implies (#[trigger] pages@[j]).rgba@.len() == page_width
            * page_height * 4 by {
            if pss.len() > 0 {
                lemma_page_pixels_len(pss[j], ms, j as u32, page_width, page_height);
            }
        }
    }
    assert(page_width * page_height * 4 <= u32::MAX);
    let mut page_pngs: Vec<Vec<u8>> = Vec::new();
    let mut k: usize = 0;
    while k < pages.len()
        invariant
            k <= pages@.len(),
            page_width * page_height * 4 <= u32::MAX,
            forall|j: int|
                0 <= j < pages@.len() ==> (#[trigger] pages@[j]).rgba@.len() == page_width * page_height * 4
                    && pages@[j].width == page_width && pages@[j].height == page_height,
            page_pngs@.len() == k,
            ms == merge_unique(set_views(glyph_sets@)),
            page_width > 0 && page_height > 0,
            first_too_large(pack_queue(ms), ms, page_width, page_height) is None,
            forall|j: int|
                0 <= j < k ==> (#[trigger] page_pngs@[j])@ == png_rgba8_file(
                    pages@[j].width,
                    pages@[j].height,
                    pages@[j].rgba@,
                ),
        decreases pages@.len() - k,
    {
        let png = match encode_atlas_png(&pages[k]) {
            Ok(b) => b,
            Err(e) => {
                return Err(e);
            },
        };
        page_pngs.push(png);
        k = k + 1;
    }
    Ok(BuildResult { fnt_text, page_pngs, glyphs: merged })
}

// ---------------------------------------------------------------------------
// What merging keeps
// ---------------------------------------------------------------------------

/// No glyph before position `j` has the codepoint of glyph `j`.
pub open spec fn first_of(flat: Seq<GlyphView>, j: int) -> bool {
    forall|k: int| 0 <= k < j ==> (#[trigger] flat[k]).codepoint != flat[j].codepoint
}

proof fn lemma_insert_contents(s: Seq<GlyphView>, g: GlyphView, pos: int)
    requires
        0 <= pos <= s.len(),
    ensures
        s.insert(pos, g).contains(g),
        forall|k: int| 0 <= k < s.len() ==> s.insert(pos, g).contains(#[trigger] s[k]),
        forall|i: int|
            0 <= i < s.len() + 1 ==> (#[trigger] s.insert(pos, g)[i]) == g || s.contains(
                s.insert(pos, g)[i],
            ),
{
    let r = s.insert(pos, g);
    assert(r[pos] == g);
    assert forall|k: int| 0 <= k < s.len() implies r.contains(#[trigger] s[k]) by {
        if k < pos {
            assert(r[k] == s[k]);
        } else {
            assert(r[k + 1] == s[k]);
        }
    }
    assert forall|i: int| 0 <= i < s.len() + 1 implies (#[trigger] r[i]) == g || s.contains(r[i]) by {
        if i < pos {
            assert(r[i] == s[i]);
        } else if i > pos {
            assert(r[i] == s[i - 1]);
        }
    }
}

proof fn lemma_first_of_prefix(flat: Seq<GlyphView>, j: int)
    requires
        0 <= j < flat.len() - 1,
    ensures
        first_of(flat, j) == first_of(flat.drop_last(), j),
{
    let init = flat.drop_last();
    assert(flat[j] == init[j]);
    assert forall|k: int| 0 <= k < j implies #[trigger] flat[k] == init[k] by {}
}

/// Every merged glyph is the first glyph of its codepoint, unplaced.
proof fn lemma_merge_from_first(flat: Seq<GlyphView>)
    ensures
        forall|i: int|
            0 <= i < merge_unique(flat).len() ==> exists|j: int|
                0 <= j < flat.len() && first_of(flat, j) && #[trigger] merge_unique(flat)[i]
                    == unplaced(flat[j]),
    decreases flat.len(),
{
    if flat.len() > 0 {
        let init = flat.drop_last();
        let n = flat.len() - 1;
        let g = flat.last();
        let m0 = merge_unique(init);
        let m = merge_unique(flat);
        lemma_merge_from_first(init);
        lemma_merge_sorted(init);
        if !has_codepoint(m0, g.codepoint) {
            lemma_merge_has_all(init);
            let ug = unplaced(g);
            let pos = count_below(m0, ug.codepoint);
            lemma_count_below(m0, ug.codepoint);
            lemma_insert_by_codepoint(m0, ug, pos);
            lemma_insert_contents(m0, ug, pos);
            assert(first_of(flat, n)) by {
                assert forall|k: int| 0 <= k < n implies (#[trigger] flat[k]).codepoint
                    != flat[n].codepoint by {
                    assert(flat[k] == init[k]);
                    assert(has_codepoint(m0, init[k].codepoint));
                }
            }
        }
        assert forall|i: int| 0 <= i < m.len() implies exists|j: int|
            0 <= j < flat.len() && first_of(flat, j) && #[trigger] m[i] == unplaced(flat[j]) by {
            if !has_codepoint(m0, g.codepoint) && m[i] == unplaced(g) {
                assert(m[i] == unplaced(flat[n]));
            } else {
                assert(m0.contains(m[i]));
                let w = choose|k: int| 0 <= k < m0.len() && m0[k] == m[i];
                let j1 = choose|j: int|
                    0 <= j < init.len() && first_of(init, j) && #[trigger] m0[w] == unplaced(init[j]);
                lemma_first_of_prefix(flat, j1);
                assert(flat[j1] == init[j1]);
            }
        }
    }
}

/// Every codepoint of the input is among the merged glyphs.
proof fn lemma_merge_has_all(flat: Seq<GlyphView>)
    ensures
        forall|j: int|
            0 <= j < flat.len() ==> has_codepoint(merge_unique(flat), (#[trigger] flat[j]).codepoint),
    decreases flat.len(),
{
    if flat.len() > 0 {
        let init = flat.drop_last();
        let n = flat.len() - 1;
        let g = flat.last();
        let m0 = merge_unique(init);
        let m = merge_unique(flat);
        lemma_merge_has_all(init);
        if !has_codepoint(m0, g.codepoint) {
            lemma_merge_sorted(init);
            let ug = unplaced(g);
            let pos = count_below(m0, ug.codepoint);
            lemma_count_below(m0, ug.codepoint);
            lemma_insert_by_codepoint(m0, ug, pos);
            lemma_insert_contents(m0, ug, pos);
        }
        assert forall|j: int| 0 <= j < flat.len() implies has_codepoint(
            m,
            (#[trigger] flat[j]).codepoint,
        ) by {
            if j < n {
                assert(flat[j] == init[j]);
                let w = choose|k: int|
                    0 <= k < m0.len() && (#[trigger] m0[k]).codepoint == init[j].codepoint;
                if !has_codepoint(m0, g.codepoint) {
                    assert(m.contains(m0[w]));
                    let v = choose|k: int| 0 <= k < m.len() && m[k] == m0[w];
                    assert(m[v].codepoint == flat[j].codepoint);
                }
            } else if !has_codepoint(m0, g.codepoint) {
                assert(m.contains(unplaced(g)));
                let v = choose|k: int| 0 <= k < m.len() && m[k] == unplaced(g);
                assert(m[v].codepoint == flat[j].codepoint);
            }
        }
    }
}

/// The first glyph of every codepoint is among the merged glyphs, unplaced.
proof fn lemma_merge_keeps_first(flat: Seq<GlyphView>)
    ensures
        forall|j: int|
            0 <= j < flat.len() && first_of(flat, j) ==> merge_unique(flat).contains(
                unplaced(#[trigger] flat[j]),
            ),
    decreases flat.len(),
{
    if flat.len() > 0 {
        let init = flat.drop_last();
        let n = flat.len() - 1;
        let g = flat.last();
        let m0 = merge_unique(init);
        let m = merge_unique(flat);
        lemma_merge_keeps_first(init);
        if has_codepoint(m0, g.codepoint) {
            lemma_merge_from_first(init);
            let w = choose|k: int| 0 <= k < m0.len() && (#[trigger] m0[k]).codepoint == g.codepoint;
            let j0 = choose|j: int|
                0 <= j < init.len() && first_of(init, j) && #[trigger] m0[w] == unplaced(init[j]);
            assert(flat[j0] == init[j0]);
            assert(!first_of(flat, n));
        } else {
            lemma_merge_sorted(init);
            let ug = unplaced(g);
            let pos = count_below(m0, ug.codepoint);
            lemma_count_below(m0, ug.codepoint);
            lemma_insert_by_codepoint(m0, ug, pos);
            lemma_insert_contents(m0, ug, pos);
        }
        assert forall|j: int| 0 <= j < flat.len() && first_of(flat, j) implies m.contains(
            unplaced(#[trigger] flat[j]),
        ) by {
            if j < n {
                lemma_first_of_prefix(flat, j);
                assert(flat[j] == init[j]);
                assert(m0.contains(unplaced(init[j])));
                if !has_codepoint(m0, g.codepoint) {
                    let w = choose|k: int| 0 <= k < m0.len() && m0[k] == unplaced(init[j]);
                    assert(m.contains(m0[w]));
                }
            }
        }
    }
}

/// Merging keeps, in codepoint order, exactly the first glyph of each
/// codepoint with its packing position cleared: every codepoint of the
/// input is there, every first glyph is there, and every merged glyph is a
/// first glyph.
pub proof fn lemma_merge_first_wins(flat: Seq<GlyphView>)
    ensures
        by_codepoint(merge_unique(flat)),
        forall|j: int|
            0 <= j < flat.len() ==> has_codepoint(merge_unique(flat), (#[trigger] flat[j]).codepoint),
        forall|j: int|
            0 <= j < flat.len() && first_of(flat, j) ==> merge_unique(flat).contains(
                unplaced(#[trigger] flat[j]),
            ),
        forall|i: int|
            0 <= i < merge_unique(flat).len() ==> exists|j: int|
                0 <= j < flat.len() && first_of(flat, j) && #[trigger] merge_unique(flat)[i]
                    == unplaced(flat[j]),
{
    lemma_merge_sorted(flat);
    lemma_merge_has_all(flat);
    lemma_merge_keeps_first(flat);
    lemma_merge_from_first(flat);
}

} // verus!
