//! Hiero glyph-page packer.
//!
//! Follows the libGDX Hiero packing flow:
//! 1. Stable-sort queued glyphs by height descending.
//! 2. Fill one page by scanning the remaining glyph queue in order.
//! 3. For each glyph, try the best existing non-last row, then the last row,
//!    then a new row, using Hiero's strict `<` / `>=` fit checks.
//! 4. Glyphs that don't fit stay in the queue for the next page.
//!
//! After packing, each `GlyphRecord` has its `page`, `x`, `y` fields set.
use vstd::prelude::*;
use crate::model::{glyph_views, AtlasPage, FontbakeError, GlyphRecord, GlyphView, zeros};

verus! {

/// A row of a page: glyphs are appended at `x`; the row starts at `y` and
/// is `height` tall.
#[derive(Debug, Clone, Copy, PartialEq, Eq, Structural)]
pub struct Row {
    pub x: u32,
    pub y: u32,
    pub height: u32,
}

// ---------------------------------------------------------------------------
// The packing order
// ---------------------------------------------------------------------------

/// Where a glyph of height `h` goes in a queue sorted by height descending:
/// after every entry at least as tall (stable).
pub open spec fn insert_pos(q: Seq<usize>, hs: Seq<u32>, h: u32) -> int
    decreases q.len(),
{
    if q.len() == 0 {
        0
    } else if hs[q[0] as int] < h {
        0
    } else {
        1 + insert_pos(q.drop_first(), hs, h)
    }
}

/// Indices `0..n` stably sorted by height, tallest first.
pub open spec fn height_order(hs: Seq<u32>, n: nat) -> Seq<usize>
    decreases n,
{
    if n == 0 {
        seq![]
    } else {
        let q = height_order(hs, (n - 1) as nat);
        q.insert(insert_pos(q, hs, hs[n - 1]), (n - 1) as usize)
    }
}

pub open spec fn is_blank(g: GlyphView) -> bool {
    g.width == 0 || g.height == 0
}

/// The queue entries whose glyph is not blank, in queue order.
pub open spec fn drop_blank(q: Seq<usize>, gs: Seq<GlyphView>) -> Seq<usize>
    decreases q.len(),
{
    if q.len() == 0 {
        seq![]
    } else if is_blank(gs[q.last() as int]) {
        drop_blank(q.drop_last(), gs)
    } else {
        drop_blank(q.drop_last(), gs).push(q.last())
    }
}

pub open spec fn heights(gs: Seq<GlyphView>) -> Seq<u32> {
    gs.map_values(|g: GlyphView| g.height)
}

/// The glyphs to pack, in packing order.
pub open spec fn pack_queue(gs: Seq<GlyphView>) -> Seq<usize> {
    drop_blank(height_order(heights(gs), gs.len()), gs)
}

// ---------------------------------------------------------------------------
// Rows
// ---------------------------------------------------------------------------

/// A non-last row that can take a `w` x `h` glyph.
pub open spec fn fits_row(r: Row, pw: u32, ph: u32, w: u32, h: u32) -> bool {
    &&& r.x + w < pw
    &&& r.y + h < ph
    &&& h <= r.height
}

/// Row `k` is the lowest non-last row that fits; the first among equals.
pub open spec fn is_best_row(rows: Seq<Row>, k: int, pw: u32, ph: u32, w: u32, h: u32) -> bool {
    &&& 0 <= k < rows.len() - 1
    &&& fits_row(rows[k], pw, ph, w, h)
    &&& forall|j: int|
        0 <= j < k && fits_row(#[trigger] rows[j], pw, ph, w, h) ==> rows[j].height > rows[k].height
    &&& forall|j: int|
        k < j < rows.len() - 1 && fits_row(#[trigger] rows[j], pw, ph, w, h) ==> rows[j].height
            >= rows[k].height
}

/// Places a `w` x `h` glyph: in the best fitting non-last row, else at the
/// end of the last row, else in a new row below it. Gives the new rows and
/// the glyph's position, or `None` when it does not fit on this page.
pub open spec fn place(rows: Seq<Row>, pw: u32, ph: u32, w: u32, h: u32) -> Option<
    (Seq<Row>, u32, u32),
> {
    if exists|k: int| is_best_row(rows, k, pw, ph, w, h) {
        let k = choose|k: int| is_best_row(rows, k, pw, ph, w, h);
        let r = rows[k];
        Some((rows.update(k, Row { x: (r.x + w) as u32, y: r.y, height: r.height }), r.x, r.y))
    } else {
        let last = rows.last();
        if last.y + h >= ph {
            None
        } else if last.x + w < pw {
            Some(
                (
                    rows.update(
                        rows.len() - 1,
                        Row {
                            x: (last.x + w) as u32,
                            y: last.y,
                            height: if last.height >= h {
                                last.height
                            } else {
                                h
                            },
                        },
                    ),
                    last.x,
                    last.y,
                ),
            )
        } else if last.y + last.height + h < ph {
            Some(
                (
                    rows.push(Row { x: w, y: (last.y + last.height) as u32, height: h }),
                    0,
                    (last.y + last.height) as u32,
                ),
            )
        } else {
            None
        }
    }
}

/// The rows of a fresh page.
pub open spec fn fresh_rows() -> Seq<Row> {
    seq![Row { x: 0, y: 0, height: 0 }]
}

/// One page: scans the queue in order; gives the placements `(glyph, x, y)`
/// and the glyphs left for later pages.
pub open spec fn fill(rows: Seq<Row>, q: Seq<usize>, gs: Seq<GlyphView>, pw: u32, ph: u32) -> (
    Seq<(usize, u32, u32)>,
    Seq<usize>,
)
    decreases q.len(),
{
    if q.len() == 0 {
        (seq![], seq![])
    } else {
        let g = gs[q[0] as int];
        match place(rows, pw, ph, g.width, g.height) {
            Some((rows2, x, y)) => {
                let r = fill(rows2, q.drop_first(), gs, pw, ph);
                (seq![(q[0], x, y)] + r.0, r.1)
            },
            None => {
                let r = fill(rows, q.drop_first(), gs, pw, ph);
                (r.0, seq![q[0]] + r.1)
            },
        }
    }
}

/// The placements of every page, page by page.
pub open spec fn pages_of(q: Seq<usize>, gs: Seq<GlyphView>, pw: u32, ph: u32) -> Seq<
    Seq<(usize, u32, u32)>,
>
    decreases q.len(),
{
    if q.len() == 0 {
        seq![]
    } else {
        let r = fill(fresh_rows(), q, gs, pw, ph);
        if r.1.len() < q.len() {
            seq![r.0] + pages_of(r.1, gs, pw, ph)
        } else {
            seq![r.0]
        }
    }
}

/// The glyph moved to `page` at `(x, y)`.
pub open spec fn moved(g: GlyphView, page: u32, x: u32, y: u32) -> GlyphView {
    GlyphView { page, x, y, ..g }
}

// ---------------------------------------------------------------------------
// Pixels
// ---------------------------------------------------------------------------

/// Copies row `r` of the glyph's bitmap onto the page, where Hiero's bounds
/// checks let it.
pub open spec fn blit_row(dst: Seq<u8>, pw: nat, g: GlyphView, r: nat) -> Seq<u8> {
    let gw = g.width as nat;
    let src = r * gw * 4;
    let d = ((g.y + r) * pw + g.x) * 4;
    if src + gw * 4 <= g.bitmap_rgba.len() && d + gw * 4 <= dst.len() {
        dst.take(d as int) + g.bitmap_rgba.subrange(src as int, (src + gw * 4) as int) + dst.skip(
            (d + gw * 4) as int,
        )
    } else {
        dst
    }
}

/// Copies the first `n` rows of the glyph's bitmap onto the page.
pub open spec fn blit_rows(dst: Seq<u8>, pw: nat, g: GlyphView, n: nat) -> Seq<u8>
    decreases n,
{
    if n == 0 {
        dst
    } else {
        blit_row(blit_rows(dst, pw, g, (n - 1) as nat), pw, g, (n - 1) as nat)
    }
}

/// A glyph's bitmap drawn onto a page at its assigned position.
pub open spec fn blit(dst: Seq<u8>, pw: nat, g: GlyphView) -> Seq<u8> {
    if g.width == 0 || g.height == 0 || g.bitmap_rgba.len() == 0 {
        dst
    } else {
        blit_rows(dst, pw, g, g.height as nat)
    }
}

/// A page's pixels: the placed glyphs drawn in placement order on a blank page.
pub open spec fn page_pixels(
    ps: Seq<(usize, u32, u32)>,
    gs: Seq<GlyphView>,
    page: u32,
    pw: u32,
    ph: u32,
) -> Seq<u8>
    decreases ps.len(),
{
    if ps.len() == 0 {
        zeros((pw * ph * 4) as nat)
    } else {
        let p = ps.last();
        blit(page_pixels(ps.drop_last(), gs, page, pw, ph), pw as nat, moved(gs[p.0 as int], page, p.1, p.2))
    }
}

} // verus!

verus! {

/// Drawing rows of a glyph keeps the page's byte count.
pub proof fn lemma_blit_rows_len(dst: Seq<u8>, pw: nat, g: GlyphView, n: nat)
    ensures
        blit_rows(dst, pw, g, n).len() == dst.len(),
    decreases n,
{
    if n > 0 {
        lemma_blit_rows_len(dst, pw, g, (n - 1) as nat);
    }
}

/// A page holds `pw * ph * 4` bytes, whatever is drawn on it.
pub proof fn lemma_page_pixels_len(ps: Seq<(usize, u32, u32)>, gs: Seq<GlyphView>, page: u32, pw: u32, ph: u32)
    ensures
        page_pixels(ps, gs, page, pw, ph).len() == pw * ph * 4,
    decreases ps.len(),
{
    if ps.len() > 0 {
        let p = ps.last();
        let pre = page_pixels(ps.drop_last(), gs, page, pw, ph);
        lemma_page_pixels_len(ps.drop_last(), gs, page, pw, ph);
        let g = moved(gs[p.0 as int], page, p.1, p.2);
        if !(g.width == 0 || g.height == 0 || g.bitmap_rgba.len() == 0) {
            lemma_blit_rows_len(pre, pw as nat, g, g.height as nat);
        }
    }
}

pub proof fn lemma_insert_pos_bounds(q: Seq<usize>, hs: Seq<u32>, h: u32)
    ensures
        0 <= insert_pos(q, hs, h) <= q.len(),
    decreases q.len(),
{
    if q.len() > 0 && hs[q[0] as int] >= h {
        lemma_insert_pos_bounds(q.drop_first(), hs, h);
    }
}

pub proof fn lemma_height_order(hs: Seq<u32>, n: nat)
    requires
        n <= hs.len(),
        n <= usize::MAX,
    ensures
        height_order(hs, n).len() == n,
        forall|k: int| 0 <= k < n ==> (#[trigger] height_order(hs, n)[k]) < n,
        height_order(hs, n).no_duplicates(),
    decreases n,
{
    if n > 0 {
        let q = height_order(hs, (n - 1) as nat);
        lemma_height_order(hs, (n - 1) as nat);
        let p = insert_pos(q, hs, hs[n - 1]);
        lemma_insert_pos_bounds(q, hs, hs[n - 1]);
        let q2 = q.insert(p, (n - 1) as usize);
        assert forall|k: int| 0 <= k < n implies (#[trigger] q2[k]) < n by {
            if k < p {
                assert(q2[k] == q[k]);
            } else if k > p {
                assert(q2[k] == q[k - 1]);
            }
        }
        assert forall|a: int, b: int| 0 <= a < q2.len() && 0 <= b < q2.len() && a != b implies q2[a]
            != q2[b] by {
            if a != p && b != p {
                let a1 = if a < p {
                    a
                } else {
                    a - 1
                };
                let b1 = if b < p {
                    b
                } else {
                    b - 1
                };
                assert(q2[a] == q[a1]);
                assert(q2[b] == q[b1]);
            } else if a == p {
                let b1 = if b < p {
                    b
                } else {
                    b - 1
                };
                assert(q2[b] == q[b1]);
                assert(q[b1] < n - 1);
                assert(q2[a] == n - 1);
            } else {
                let a1 = if a < p {
                    a
                } else {
                    a - 1
                };
                assert(q2[a] == q[a1]);
                assert(q[a1] < n - 1);
                assert(q2[b] == n - 1);
            }
        }
    }
}

pub proof fn lemma_drop_blank(q: Seq<usize>, gs: Seq<GlyphView>)
    requires
        q.no_duplicates(),
        forall|k: int| 0 <= k < q.len() ==> (#[trigger] q[k]) < gs.len(),
    ensures
        drop_blank(q, gs).no_duplicates(),
        drop_blank(q, gs).len() <= q.len(),
        forall|k: int|
            0 <= k < drop_blank(q, gs).len() ==> {
                &&& (#[trigger] drop_blank(q, gs)[k]) < gs.len()
                &&& q.contains(drop_blank(q, gs)[k])
                &&& !is_blank(gs[drop_blank(q, gs)[k] as int])
            },
        forall|k: int|
            0 <= k < q.len() && !is_blank(gs[q[k] as int]) ==> drop_blank(q, gs).contains(
                #[trigger] q[k],
            ),
    decreases q.len(),
{
    if q.len() > 0 {
        let q1 = q.drop_last();
        assert forall|a: int, b: int| 0 <= a < q1.len() && 0 <= b < q1.len() && a != b implies q1[a]
            != q1[b] by {
            assert(q1[a] == q[a]);
            assert(q1[b] == q[b]);
        }
        lemma_drop_blank(q1, gs);
        let d1 = drop_blank(q1, gs);
        if !is_blank(gs[q.last() as int]) {
            let d = d1.push(q.last());
            assert forall|a: int, b: int| 0 <= a < d.len() && 0 <= b < d.len() && a != b implies d[a]
                != d[b] by {
                if a < d1.len() && b < d1.len() {
                } else if a == d1.len() {
                    if d1.contains(q.last()) {
                        let t = choose|t: int| 0 <= t < q1.len() && q1[t] == d1[b];
                        assert(q[t] == q[q.len() - 1]);
                    }
                    assert(d[b] == d1[b]);
                    assert(q1.contains(d1[b]));
                    let t = choose|t: int| 0 <= t < q1.len() && q1[t] == d1[b];
                    assert(q[t] == q1[t]);
                    assert(t != q.len() - 1);
                } else {
                    assert(d[a] == d1[a]);
                    assert(q1.contains(d1[a]));
                    let t = choose|t: int| 0 <= t < q1.len() && q1[t] == d1[a];
                    assert(q[t] == q1[t]);
                    assert(t != q.len() - 1);
                }
            }
            assert forall|k: int| 0 <= k < d.len() implies q.contains(#[trigger] d[k]) by {
                if k < d1.len() {
                    let t = choose|t: int| 0 <= t < q1.len() && q1[t] == d1[k];
                    assert(q[t] == q1[t]);
                } else {
                    assert(q[q.len() - 1] == d[k]);
                }
            }
            assert forall|k: int| 0 <= k < q.len() && !is_blank(gs[q[k] as int]) implies d.contains(
                #[trigger] q[k],
            ) by {
                if k < q.len() - 1 {
                    assert(q1[k] == q[k]);
                    assert(d1.contains(q1[k]));
                    let t = choose|t: int| 0 <= t < d1.len() && d1[t] == q1[k];
                    assert(d[t] == d1[t]);
                } else {
                    assert(d[d.len() - 1] == q[k]);
                }
            }
        } else {
            assert forall|k: int| 0 <= k < d1.len() implies q.contains(#[trigger] d1[k]) by {
                let t = choose|t: int| 0 <= t < q1.len() && q1[t] == d1[k];
                assert(q[t] == q1[t]);
            }
            assert forall|k: int| 0 <= k < q.len() && !is_blank(gs[q[k] as int]) implies d1.contains(
                #[trigger] q[k],
            ) by {
                assert(k < q.len() - 1);
                assert(q1[k] == q[k]);
            }
        }
    }
}

/// The glyphs to pack, in packing order.
fn pack_order(glyphs: &[GlyphRecord]) -> (q: Vec<usize>)
    ensures
        q@ == pack_queue(glyphs@.map_values(|g: GlyphRecord| g@)),
{
    let ghost gs = glyphs@.map_values(|g: GlyphRecord| g@);
    let ghost hs = heights(gs);
    let n = glyphs.len();
    let mut q: Vec<usize> = Vec::new();
    let mut i: usize = 0;
    while i < n
        invariant
            n == glyphs@.len(),
            gs == glyphs@.map_values(|g: GlyphRecord| g@),
            hs == heights(gs),
            i <= n,
            q@ == height_order(hs, i as nat),
        decreases n - i,
    {
        proof {
            lemma_height_order(hs, i as nat);
        }
        let h = glyphs[i].height;
        assert(hs[i as int] == h);
        let mut p: usize = 0;
        assert(q@.skip(0) =~= q@);
        while p < q.len() && glyphs[q[p]].height >= h
            invariant
                n == glyphs@.len(),
                gs == glyphs@.map_values(|g: GlyphRecord| g@),
                hs == heights(gs),
                i < n,
                q@ == height_order(hs, i as nat),
                forall|k: int| 0 <= k < q@.len() ==> (#[trigger] q@[k]) < i,
                p <= q@.len(),
                insert_pos(q@, hs, h) == p + insert_pos(q@.skip(p as int), hs, h),
            decreases q@.len() - p,
        {
            assert(q@.skip(p as int)[0] == q@[p as int]);
            assert(q@.skip(p as int).drop_first() =~= q@.skip(p + 1));
            p = p + 1;
        }
        proof {
            if p < q@.len() {
                assert(q@.skip(p as int)[0] == q@[p as int]);
            } else {
                assert(q@.skip(p as int).len() == 0);
            }
        }
        q.insert(p, i);
        i = i + 1;
    }
    proof {
        lemma_height_order(hs, n as nat);
    }
    let ghost sorted = q@;
    let mut out: Vec<usize> = Vec::new();
    let mut k: usize = 0;
    while k < q.len()
        invariant
            n == glyphs@.len(),
            gs == glyphs@.map_values(|g: GlyphRecord| g@),
            sorted == q@,
            forall|t: int| 0 <= t < q@.len() ==> (#[trigger] q@[t]) < n,
            k <= q@.len(),
            out@ == drop_blank(q@.take(k as int), gs),
        decreases q@.len() - k,
    {
        let idx = q[k];
        assert(q@.take(k + 1).drop_last() =~= q@.take(k as int));
        if glyphs[idx].width > 0 && glyphs[idx].height > 0 {
            out.push(idx);
        }
        k = k + 1;
    }
    assert(q@.take(k as int) =~= q@);
    out
}

// ---------------------------------------------------------------------------
// Placing one glyph
// ---------------------------------------------------------------------------

/// Every row lies on the page (its cursor inside the width, its height
/// inside the height).
pub open spec fn rows_ok(rows: Seq<Row>, pw: u32, ph: u32) -> bool {
    &&& rows.len() > 0
    &&& forall|i: int| 0 <= i < rows.len() ==> (#[trigger] rows[i]).x < pw && rows[i].y + rows[i].height <= ph
}

proof fn lemma_best_in_prefix(rows: Seq<Row>, pw: u32, ph: u32, w: u32, h: u32, n: int)
    requires
        0 <= n <= rows.len() - 1,
        exists|k: int| 0 <= k < n && fits_row(#[trigger] rows[k], pw, ph, w, h),
    ensures
        exists|k: int|
            {
                &&& 0 <= k < n
                &&& #[trigger] fits_row(rows[k], pw, ph, w, h)
                &&& forall|j: int| 0 <= j < k && fits_row(#[trigger] rows[j], pw, ph, w, h) ==> rows[j].height > rows[k].height
                &&& forall|j: int| k < j < n && fits_row(#[trigger] rows[j], pw, ph, w, h) ==> rows[j].height >= rows[k].height
            },
    decreases n,
{
    let m = n - 1;
    if exists|k: int| 0 <= k < m && fits_row(#[trigger] rows[k], pw, ph, w, h) {
        lemma_best_in_prefix(rows, pw, ph, w, h, m);
        let k = choose|k: int|
            {
                &&& 0 <= k < m
                &&& #[trigger] fits_row(rows[k], pw, ph, w, h)
                &&& forall|j: int| 0 <= j < k && fits_row(#[trigger] rows[j], pw, ph, w, h) ==> rows[j].height > rows[k].height
                &&& forall|j: int| k < j < m && fits_row(#[trigger] rows[j], pw, ph, w, h) ==> rows[j].height >= rows[k].height
            };
        if fits_row(rows[m], pw, ph, w, h) && rows[m].height < rows[k].height {
            assert forall|j: int| 0 <= j < m && fits_row(#[trigger] rows[j], pw, ph, w, h) implies rows[j].height
                > rows[m].height by {
                if j < k {
                } else if j > k {
                }
            }
        } else {
            assert forall|j: int| k < j < n && fits_row(#[trigger] rows[j], pw, ph, w, h) implies rows[j].height
                >= rows[k].height by {
                if j < m {
                }
            }
        }
    } else {
        assert(fits_row(rows[m], pw, ph, w, h));
        assert forall|j: int| 0 <= j < m && fits_row(#[trigger] rows[j], pw, ph, w, h) implies rows[j].height
            > rows[m].height by {
        }
    }
}

/// Where some row before the last has room for the glyph, the glyph goes
/// at the free end of the lowest such row (the first of equally low ones),
/// that row grows by the glyph's width and the other rows stay as they are.
pub proof fn lemma_place_prefers_lowest_fitting_row(rows: Seq<Row>, pw: u32, ph: u32, w: u32, h: u32)
    requires
        exists|k: int| 0 <= k < rows.len() - 1 && fits_row(#[trigger] rows[k], pw, ph, w, h),
    ensures
        exists|k: int|
            {
                &&& 0 <= k < rows.len() - 1
                &&& #[trigger] fits_row(rows[k], pw, ph, w, h)
                &&& forall|j: int|
                    0 <= j < rows.len() - 1 && fits_row(#[trigger] rows[j], pw, ph, w, h) ==> rows[j].height
                        >= rows[k].height
                &&& forall|j: int| 0 <= j < k && fits_row(#[trigger] rows[j], pw, ph, w, h) ==> rows[j].height > rows[k].height
                &&& place(rows, pw, ph, w, h) == Some(
                    (rows.update(k, Row { x: (rows[k].x + w) as u32, y: rows[k].y, height: rows[k].height }), rows[k].x, rows[k].y),
                )
            },
{
    lemma_best_in_prefix(rows, pw, ph, w, h, rows.len() - 1);
    let k0 = choose|k: int|
        {
            &&& 0 <= k < rows.len() - 1
            &&& #[trigger] fits_row(rows[k], pw, ph, w, h)
            &&& forall|j: int| 0 <= j < k && fits_row(#[trigger] rows[j], pw, ph, w, h) ==> rows[j].height > rows[k].height
            &&& forall|j: int| k < j < rows.len() - 1 && fits_row(#[trigger] rows[j], pw, ph, w, h) ==> rows[j].height
                >= rows[k].height
        };
    assert(is_best_row(rows, k0, pw, ph, w, h));
    let k = choose|k: int| is_best_row(rows, k, pw, ph, w, h);
    lemma_best_row_unique(rows, k, k0, pw, ph, w, h);
    assert forall|j: int| 0 <= j < rows.len() - 1 && fits_row(#[trigger] rows[j], pw, ph, w, h) implies rows[j].height
        >= rows[k].height by {
        if j < k {
        } else if j > k {
        }
    }
    assert(fits_row(rows[k], pw, ph, w, h));
}

proof fn lemma_best_row_unique(rows: Seq<Row>, a: int, b: int, pw: u32, ph: u32, w: u32, h: u32)
    requires
        is_best_row(rows, a, pw, ph, w, h),
        is_best_row(rows, b, pw, ph, w, h),
    ensures
        a == b,
{
    if a < b {
        assert(rows[a].height > rows[b].height);
    } else if b < a {
        assert(rows[b].height > rows[a].height);
    }
}

fn place_in_rows(rows: &mut Vec<Row>, pw: u32, ph: u32, w: u32, h: u32) -> (r: Option<(u32, u32)>)
    requires
        rows_ok(old(rows)@, pw, ph),
        0 < w < pw,
        0 < h < ph,
        pw <= 0x4000_0000,
        ph <= 0x4000_0000,
    ensures
        match place(old(rows)@, pw, ph, w, h) {
            Some((rows2, x, y)) => r == Some((x, y)) && final(rows)@ == rows2,
            None => r is None && final(rows)@ == old(rows)@,
        },
        rows_ok(final(rows)@, pw, ph),
{
    let ghost rs = rows@;
    let mut best: Option<usize> = None;
    if rows.len() > 1 {
        let mut i: usize = 0;
        while i < rows.len() - 1
            invariant
                rows@ == rs,
                rows_ok(rs, pw, ph),
                pw <= 0x4000_0000,
                ph <= 0x4000_0000,
                rs.len() > 1,
                i <= rs.len() - 1,
                0 < w < pw,
                0 < h < ph,
                match best {
                    None => forall|j: int| 0 <= j < i ==> !fits_row(#[trigger] rs[j], pw, ph, w, h),
                    Some(b) => {
                        &&& b < i
                        &&& fits_row(rs[b as int], pw, ph, w, h)
                        &&& forall|j: int|
                            0 <= j < b && fits_row(#[trigger] rs[j], pw, ph, w, h) ==> rs[j].height
                                > rs[b as int].height
                        &&& forall|j: int|
                            b < j < i && fits_row(#[trigger] rs[j], pw, ph, w, h) ==> rs[j].height
                                >= rs[b as int].height
                    },
                },
            decreases rs.len() - 1 - i,
        {
            let row = rows[i];
            if row.x + w < pw && row.y + h < ph && h <= row.height {
                match best {
                    None => {
                        best = Some(i);
                    },
                    Some(b) => {
                        if row.height < rows[b].height {
                            best = Some(i);
                        }
                    },
                }
            }
            i = i + 1;
        }
    }
    match best {
        Some(b) => {
            assert(is_best_row(rs, b as int, pw, ph, w, h));
            proof {
                assert forall|k: int| is_best_row(rs, k, pw, ph, w, h) implies k == b by {
                    lemma_best_row_unique(rs, k, b as int, pw, ph, w, h);
                }
            }
            let row = rows[b];
            let x = row.x;
            let y = row.y;
            rows.set(b, Row { x: row.x + w, y: row.y, height: row.height });
            return Some((x, y));
        },
        None => {
            assert(!exists|k: int| is_best_row(rs, k, pw, ph, w, h));
        },
    }
    let last_idx = rows.len() - 1;
    let last = rows[last_idx];
    if last.y + h >= ph {
        return None;
    }
    if last.x + w < pw {
        let height = if last.height >= h {
            last.height
        } else {
            h
        };
        rows.set(last_idx, Row { x: last.x + w, y: last.y, height });
        return Some((last.x, last.y));
    }
    if last.y + last.height + h < ph {
        let new_y = last.y + last.height;
        rows.push(Row { x: w, y: new_y, height: h });
        return Some((0, new_y));
    }
    None
}

} // verus!

verus! {

// ---------------------------------------------------------------------------
// Drawing a glyph
// ---------------------------------------------------------------------------

/// Blit a glyph's RGBA bitmap onto an atlas page at its assigned (x, y).
fn blit_glyph(page: &mut AtlasPage, glyph: &GlyphRecord)
    requires
        old(page).rgba@.len() == old(page).width * old(page).height * 4,
        old(page).width * old(page).height * 4 <= u32::MAX,
        glyph.x + glyph.width < old(page).width,
        glyph.y + glyph.height < old(page).height,
    ensures
        final(page).width == old(page).width,
        final(page).height == old(page).height,
        final(page).rgba@.len() == old(page).rgba@.len(),
        final(page).rgba@ == blit(old(page).rgba@, old(page).width as nat, glyph@),
{
    if glyph.width == 0 || glyph.height == 0 || glyph.bitmap_rgba.len() == 0 {
        return;
    }
    let ghost pre = page.rgba@;
    let ghost g = glyph@;
    let pw = page.width as usize;
    let ph = page.height as usize;
    let gw = glyph.width as usize;
    let gh = glyph.height as usize;
    let gx = glyph.x as usize;
    let gy = glyph.y as usize;
    let mut row: usize = 0;
    while row < gh
        invariant
            pw == page.width,
            ph == page.height,
            page.width == old(page).width,
            page.height == old(page).height,
            gw == glyph.width,
            gh == glyph.height,
            gx == glyph.x,
            gy == glyph.y,
            g == glyph@,
            gw > 0,
            gx + gw < pw,
            gy + gh < ph,
            pw * ph * 4 <= u32::MAX,
            row <= gh,
            page.rgba@.len() == pre.len(),
            pre.len() == pw * ph * 4,
            page.rgba@ == blit_rows(pre, pw as nat, g, row as nat),
        decreases gh - row,
    {
        assert((gy + row) * pw + gx + gw <= ph * pw) by (nonlinear_arith)
            requires
                gy + row < ph,
                gx + gw < pw,
        ;
        assert(row * gw < ph * pw) by (nonlinear_arith)
            requires
                row < ph,
                gw < pw,
        ;
        assert(ph * pw == pw * ph) by (nonlinear_arith);
        assert((row + 1) * gw <= ph * pw) by (nonlinear_arith)
            requires
                row < gh,
                gh < ph,
                gw < pw,
        ;
        assert(row * gw * 4 + gw * 4 == (row + 1) * gw * 4) by (nonlinear_arith);
        let src_start = row * gw * 4;
        let src_end = src_start + gw * 4;
        let dst_start = ((gy + row) * pw + gx) * 4;
        let ghost before = page.rgba@;
        if src_end <= glyph.bitmap_rgba.len() && dst_start + gw * 4 <= page.rgba.len() {
            let n = gw * 4;
            let mut t: usize = 0;
            while t < n
                invariant
                    n == gw * 4,
                    src_end == src_start + n,
                    src_end <= glyph.bitmap_rgba@.len(),
                    dst_start + n <= before.len(),
                    before.len() <= u32::MAX,
                    page.rgba@.len() == before.len(),
                    page.width == old(page).width,
                    page.height == old(page).height,
                    t <= n,
                    page.rgba@ == before.take(dst_start as int) + glyph.bitmap_rgba@.subrange(
                        src_start as int,
                        (src_start + t) as int,
                    ) + before.skip((dst_start + t) as int),
                decreases n - t,
            {
                let b = glyph.bitmap_rgba[src_start + t];
                page.rgba.set(dst_start + t, b);
                assert(page.rgba@ =~= before.take(dst_start as int) + glyph.bitmap_rgba@.subrange(
                    src_start as int,
                    (src_start + t + 1) as int,
                ) + before.skip((dst_start + t + 1) as int));
                t = t + 1;
            }
        }
        assert(page.rgba@ =~= blit_row(before, pw as nat, g, row as nat));
        row = row + 1;
    }
}

// ---------------------------------------------------------------------------
// Filling a page
// ---------------------------------------------------------------------------

/// Where placement list `ps` puts glyph `i` (its first entry for `i`).
pub open spec fn lookup_place(ps: Seq<(usize, u32, u32)>, i: int) -> Option<(u32, u32)>
    decreases ps.len(),
{
    if ps.len() == 0 {
        None
    } else {
        match lookup_place(ps.drop_last(), i) {
            Some(p) => Some(p),
            None => if ps.last().0 == i {
                Some((ps.last().1, ps.last().2))
            } else {
                None
            },
        }
    }
}

proof fn lemma_lookup_place_none(ps: Seq<(usize, u32, u32)>, i: int)
    requires
        forall|j: int| 0 <= j < ps.len() ==> (#[trigger] ps[j]).0 != i,
    ensures
        lookup_place(ps, i) is None,
    decreases ps.len(),
{
    if ps.len() > 0 {
        lemma_lookup_place_none(ps.drop_last(), i);
    }
}

/// A placed glyph lies strictly inside the page.
proof fn lemma_place_bounds(rows: Seq<Row>, pw: u32, ph: u32, w: u32, h: u32)
    requires
        rows.len() > 0,
        w < pw,
    ensures
        place(rows, pw, ph, w, h) matches Some((rows2, x, y)) ==> x + w < pw && y + h < ph,
{
    if exists|k: int| is_best_row(rows, k, pw, ph, w, h) {
        let k = choose|k: int| is_best_row(rows, k, pw, ph, w, h);
    }
}

/// A queue of distinct, valid, non-blank glyph indices whose glyphs are
/// smaller than the page.
pub open spec fn queue_ok(q: Seq<usize>, gs: Seq<GlyphView>, pw: u32, ph: u32) -> bool {
    &&& q.no_duplicates()
    &&& forall|k: int|
        0 <= k < q.len() ==> {
            &&& (#[trigger] q[k]) < gs.len()
            &&& !is_blank(gs[q[k] as int])
            &&& gs[q[k] as int].width < pw
            &&& gs[q[k] as int].height < ph
        }
}

/// Packs one page from the queue; gives the page and the glyphs left over.
fn fill_page(glyphs: &mut [GlyphRecord], queue: &Vec<usize>, pw: u32, ph: u32, page_index: u32) -> (r: (
    AtlasPage,
    Vec<usize>,
))
    requires
        0 < pw,
        0 < ph,
        pw * ph * 4 <= u32::MAX,
        queue_ok(queue@, glyph_views(old(glyphs)@), pw, ph),
    ensures
        ({
            let gs = glyph_views(old(glyphs)@);
            let f = fill(fresh_rows(), queue@, gs, pw, ph);
            &&& r.1@ == f.1
            &&& r.0.width == pw
            &&& r.0.height == ph
            &&& r.0.rgba@ == page_pixels(f.0, gs, page_index, pw, ph)
            &&& final(glyphs)@.len() == old(glyphs)@.len()
            &&& forall|i: int|
                0 <= i < gs.len() ==> (#[trigger] final(glyphs)@[i])@ == match lookup_place(f.0, i) {
                    Some((x, y)) => moved(gs[i], page_index, x, y),
                    None => gs[i],
                }
        }),
{
    let ghost gs = glyph_views(glyphs@);
    let ghost q = queue@;
    proof {
        assert(pw <= 0x4000_0000 && ph <= 0x4000_0000) by (nonlinear_arith)
            requires
                0 < pw,
                0 < ph,
                pw * ph * 4 <= u32::MAX,
        ;
    }
    let mut page = AtlasPage::new(pw, ph);
    let mut rows: Vec<Row> = Vec::new();
    rows.push(Row { x: 0, y: 0, height: 0 });
    assert(rows@ =~= fresh_rows());
    let mut rest: Vec<usize> = Vec::new();
    let ghost mut placed: Seq<(usize, u32, u32)> = seq![];
    assert(q.skip(0) =~= q);
    assert(placed + fill(rows@, q, gs, pw, ph).0 =~= fill(rows@, q, gs, pw, ph).0);
    assert(rest@ + fill(rows@, q, gs, pw, ph).1 =~= fill(rows@, q, gs, pw, ph).1);
    let mut k: usize = 0;
    while k < queue.len()
        invariant
            0 < pw <= 0x4000_0000,
            0 < ph <= 0x4000_0000,
            pw * ph * 4 <= u32::MAX,
            q == queue@,
            gs.len() == glyphs@.len(),
            queue_ok(q, gs, pw, ph),
            k <= q.len(),
            rows_ok(rows@, pw, ph),
            page.width == pw,
            page.height == ph,
            page.rgba@.len() == pw * ph * 4,
            fill(fresh_rows(), q, gs, pw, ph).0 == placed + fill(rows@, q.skip(k as int), gs, pw, ph).0,
            fill(fresh_rows(), q, gs, pw, ph).1 == rest@ + fill(rows@, q.skip(k as int), gs, pw, ph).1,
            forall|j: int| 0 <= j < placed.len() ==> q.take(k as int).contains(#[trigger] placed[j].0),
            forall|j: int| 0 <= j < placed.len() ==> (#[trigger] placed[j]).1 + gs[placed[j].0 as int].width < pw
                && placed[j].2 + gs[placed[j].0 as int].height < ph,
            page.rgba@ == page_pixels(placed, gs, page_index, pw, ph),
            forall|i: int|
                0 <= i < gs.len() ==> (#[trigger] glyphs@[i])@ == match lookup_place(placed, i) {
                    Some((x, y)) => moved(gs[i], page_index, x, y),
                    None => gs[i],
                },
        decreases q.len() - k,
    {
        let idx = queue[k];
        let ghost qs = q.skip(k as int);
        assert(qs[0] == idx);
        assert(qs.drop_first() =~= q.skip(k + 1));
        assert(q.take(k + 1) =~= q.take(k as int).push(idx));
        proof {
            assert forall|j: int| 0 <= j < placed.len() implies (#[trigger] placed[j]).0 != idx by {
                let t = choose|t: int| 0 <= t < k && q.take(k as int)[t] == placed[j].0;
                assert(q[t] == placed[j].0);
            }
            lemma_lookup_place_none(placed, idx as int);
        }
        let gw = glyphs[idx].width;
        let gh = glyphs[idx].height;
        assert(gs[idx as int].width == gw && gs[idx as int].height == gh);
        assert(glyphs@[idx as int]@ == gs[idx as int]);
        let ghost rows0 = rows@;
        proof {
            lemma_place_bounds(rows0, pw, ph, gw, gh);
        }
        match place_in_rows(&mut rows, pw, ph, gw, gh) {
            Some((x, y)) => {
                glyphs[idx].page = page_index;
                glyphs[idx].x = x;
                glyphs[idx].y = y;
                assert(glyphs@[idx as int]@ == moved(gs[idx as int], page_index, x, y));
                blit_glyph(&mut page, &glyphs[idx]);
                let ghost p0 = placed;
                proof {
                    placed = placed.push((idx, x, y));
                    assert(placed.drop_last() =~= p0);
                    assert(seq![(idx, x, y)] + fill(rows@, q.skip(k + 1), gs, pw, ph).0
                        == fill(rows0, qs, gs, pw, ph).0);
                    assert(p0 + fill(rows0, qs, gs, pw, ph).0 =~= placed + fill(
                        rows@,
                        q.skip(k + 1),
                        gs,
                        pw,
                        ph,
                    ).0);
                    assert forall|j: int| 0 <= j < placed.len() implies q.take(k + 1).contains(
                        #[trigger] placed[j].0,
                    ) by {
                        if j < p0.len() {
                            assert(placed[j] == p0[j]);
                            let t = choose|t: int| 0 <= t < k && q.take(k as int)[t] == p0[j].0;
                            assert(q.take(k + 1)[t] == p0[j].0);
                        } else {
                            assert(q.take(k + 1)[k as int] == idx);
                        }
                    }
                    assert forall|j: int| 0 <= j < placed.len() implies (#[trigger] placed[j]).1
                        + gs[placed[j].0 as int].width < pw && placed[j].2 + gs[placed[j].0 as int].height
                        < ph by {
                        if j < p0.len() {
                            assert(placed[j] == p0[j]);
                        }
                    }
                    assert forall|i: int| 0 <= i < gs.len() implies (#[trigger] glyphs@[i])@
                        == match lookup_place(placed, i) {
                        Some((x, y)) => moved(gs[i], page_index, x, y),
                        None => gs[i],
                    } by {
                        if i != idx {
                            assert(lookup_place(placed, i) == lookup_place(p0, i));
                        }
                    }
                }
            },
            None => {
                let ghost r0 = rest@;
                rest.push(idx);
                assert(rest@ + fill(rows@, q.skip(k + 1), gs, pw, ph).1 =~= r0 + fill(
                    rows@,
                    qs,
                    gs,
                    pw,
                    ph,
                ).1);
                proof {
                    assert forall|j: int| 0 <= j < placed.len() implies q.take(k + 1).contains(
                        #[trigger] placed[j].0,
                    ) by {
                        let t = choose|t: int| 0 <= t < k && q.take(k as int)[t] == placed[j].0;
                        assert(q.take(k + 1)[t] == placed[j].0);
                    }
                }
            },
        }
        k = k + 1;
    }
    assert(q.skip(k as int) =~= Seq::<usize>::empty());
    assert(placed + Seq::<(usize, u32, u32)>::empty() =~= placed);
    assert(rest@ + Seq::<usize>::empty() =~= rest@);
    (page, rest)
}

} // verus!

verus! {

// ---------------------------------------------------------------------------
// Facts about filling a page
// ---------------------------------------------------------------------------

/// A page's fill splits the queue: every entry is placed or left over.
pub proof fn lemma_fill_partition(rows: Seq<Row>, q: Seq<usize>, gs: Seq<GlyphView>, pw: u32, ph: u32)
    ensures
        ({
            let f = fill(rows, q, gs, pw, ph);
            &&& f.0.len() + f.1.len() == q.len()
            &&& forall|j: int| 0 <= j < f.1.len() ==> q.contains(#[trigger] f.1[j])
            &&& forall|j: int| 0 <= j < f.0.len() ==> q.contains(#[trigger] f.0[j].0)
            &&& forall|j: int|
                0 <= j < q.len() ==> f.1.contains(#[trigger] q[j]) || exists|k: int|
                    0 <= k < f.0.len() && f.0[k].0 == q[j]
            &&& q.no_duplicates() ==> {
                &&& f.1.no_duplicates()
                &&& forall|j: int, k: int|
                    0 <= j < f.1.len() && 0 <= k < f.0.len() ==> f.1[j] != f.0[k].0
            }
        }),
    decreases q.len(),
{
    if q.len() > 0 {
        let g = gs[q[0] as int];
        let q1 = q.drop_first();
        assert forall|a: int, b: int| q.no_duplicates() && 0 <= a < q1.len() && 0 <= b < q1.len() && a != b implies q1[a] != q1[b] by {
            assert(q1[a] == q[a + 1]);
            assert(q1[b] == q[b + 1]);
        }
        assert forall|x: usize| q1.contains(x) implies q.contains(x) by {
            let t = choose|t: int| 0 <= t < q1.len() && q1[t] == x;
            assert(q[t + 1] == x);
        }
        assert(q.no_duplicates() ==> !q1.contains(q[0])) by {
            if q.no_duplicates() && q1.contains(q[0]) {
                let t = choose|t: int| 0 <= t < q1.len() && q1[t] == q[0];
                assert(q[t + 1] == q[0]);
            }
        }
        match place(rows, pw, ph, g.width, g.height) {
            Some((rows2, x, y)) => {
                lemma_fill_partition(rows2, q1, gs, pw, ph);
                let r = fill(rows2, q1, gs, pw, ph);
                let f = fill(rows, q, gs, pw, ph);
                assert(f.0 == seq![(q[0], x, y)] + r.0);
                assert(f.1 == r.1);
                assert forall|j: int| 0 <= j < f.0.len() implies q.contains(#[trigger] f.0[j].0) by {
                    if j == 0 {
                        assert(q[0] == f.0[0].0);
                    } else {
                        assert(f.0[j] == r.0[j - 1]);
                        assert(q1.contains(r.0[j - 1].0));
                    }
                }
                assert forall|j: int| 0 <= j < q.len() implies f.1.contains(#[trigger] q[j]) || exists|k: int|
                    0 <= k < f.0.len() && f.0[k].0 == q[j] by {
                    if j == 0 {
                        assert(f.0[0].0 == q[0]);
                    } else {
                        assert(q[j] == q1[j - 1]);
                        if !r.1.contains(q1[j - 1]) {
                            let k = choose|k: int| 0 <= k < r.0.len() && r.0[k].0 == q1[j - 1];
                            assert(f.0[k + 1] == r.0[k]);
                        }
                    }
                }
                assert forall|j: int| 0 <= j < f.1.len() implies q.contains(#[trigger] f.1[j]) by {
                    assert(q1.contains(r.1[j]));
                }
                if q.no_duplicates() {
                    assert forall|j: int, k: int| 0 <= j < f.1.len() && 0 <= k < f.0.len() implies f.1[j]
                        != f.0[k].0 by {
                        if k == 0 {
                            assert(q1.contains(r.1[j]));
                        } else {
                            assert(f.0[k] == r.0[k - 1]);
                        }
                    }
                }
            },
            None => {
                lemma_fill_partition(rows, q1, gs, pw, ph);
                let r = fill(rows, q1, gs, pw, ph);
                let f = fill(rows, q, gs, pw, ph);
                assert(f.0 == r.0);
                assert(f.1 == seq![q[0]] + r.1);
                assert forall|j: int| 0 <= j < f.1.len() implies q.contains(#[trigger] f.1[j]) by {
                    if j == 0 {
                        assert(q[0] == f.1[0]);
                    } else {
                        assert(f.1[j] == r.1[j - 1]);
                        assert(q1.contains(r.1[j - 1]));
                    }
                }
                assert forall|j: int| 0 <= j < f.0.len() implies q.contains(#[trigger] f.0[j].0) by {
                    assert(q1.contains(r.0[j].0));
                }
                assert forall|j: int| 0 <= j < q.len() implies f.1.contains(#[trigger] q[j]) || exists|k: int|
                    0 <= k < f.0.len() && f.0[k].0 == q[j] by {
                    if j == 0 {
                        assert(f.1[0] == q[0]);
                    } else {
                        assert(q[j] == q1[j - 1]);
                        if r.1.contains(q1[j - 1]) {
                            let t = choose|t: int| 0 <= t < r.1.len() && r.1[t] == q1[j - 1];
                            assert(f.1[t + 1] == r.1[t]);
                        }
                    }
                }
                if q.no_duplicates() {
                    assert forall|a: int, b: int| 0 <= a < f.1.len() && 0 <= b < f.1.len() && a != b implies f.1[a]
                        != f.1[b] by {
                        if a == 0 && b > 0 {
                            assert(f.1[b] == r.1[b - 1]);
                            assert(q1.contains(r.1[b - 1]));
                        } else if b == 0 && a > 0 {
                            assert(f.1[a] == r.1[a - 1]);
                            assert(q1.contains(r.1[a - 1]));
                        } else if a > 0 && b > 0 {
                            assert(f.1[a] == r.1[a - 1]);
                            assert(f.1[b] == r.1[b - 1]);
                        }
                    }
                    assert forall|j: int, k: int| 0 <= j < f.1.len() && 0 <= k < f.0.len() implies f.1[j]
                        != f.0[k].0 by {
                        if j == 0 {
                            assert(q1.contains(r.0[k].0));
                        } else {
                            assert(f.1[j] == r.1[j - 1]);
                        }
                    }
                }
            },
        }
    }
}

/// On a fresh page the first glyph of the queue always finds a place.
pub proof fn lemma_fill_progress(q: Seq<usize>, gs: Seq<GlyphView>, pw: u32, ph: u32)
    requires
        q.len() > 0,
        queue_ok(q, gs, pw, ph),
    ensures
        fill(fresh_rows(), q, gs, pw, ph).1.len() < q.len(),
{
    let g = gs[q[0] as int];
    assert(!exists|k: int| is_best_row(fresh_rows(), k, pw, ph, g.width, g.height));
    assert(place(fresh_rows(), pw, ph, g.width, g.height) is Some);
    let rows2 = place(fresh_rows(), pw, ph, g.width, g.height).unwrap().0;
    lemma_fill_partition(rows2, q.drop_first(), gs, pw, ph);
}

/// Fill depends on the glyphs' sizes only.
proof fn lemma_fill_sizes(rows: Seq<Row>, q: Seq<usize>, a: Seq<GlyphView>, b: Seq<GlyphView>, pw: u32, ph: u32)
    requires
        a.len() == b.len(),
        forall|i: int| 0 <= i < a.len() ==> (#[trigger] a[i]).width == b[i].width && a[i].height == b[i].height,
        forall|k: int| 0 <= k < q.len() ==> (#[trigger] q[k]) < a.len(),
    ensures
        fill(rows, q, a, pw, ph) == fill(rows, q, b, pw, ph),
    decreases q.len(),
{
    if q.len() > 0 {
        let ga = a[q[0] as int];
        let gb = b[q[0] as int];
        match place(rows, pw, ph, ga.width, ga.height) {
            Some((rows2, x, y)) => {
                lemma_fill_sizes(rows2, q.drop_first(), a, b, pw, ph);
            },
            None => {
                lemma_fill_sizes(rows, q.drop_first(), a, b, pw, ph);
            },
        }
    }
}

/// Page pixels depend on the glyphs' contents only, not on where they were.
proof fn lemma_page_pixels_content(ps: Seq<(usize, u32, u32)>, a: Seq<GlyphView>, b: Seq<GlyphView>, page: u32, pw: u32, ph: u32)
    requires
        a.len() == b.len(),
        forall|i: int| 0 <= i < a.len() ==> crate::model::same_glyph_content(#[trigger] a[i], b[i]),
        forall|k: int| 0 <= k < ps.len() ==> (#[trigger] ps[k]).0 < a.len(),
    ensures
        page_pixels(ps, a, page, pw, ph) == page_pixels(ps, b, page, pw, ph),
    decreases ps.len(),
{
    if ps.len() > 0 {
        lemma_page_pixels_content(ps.drop_last(), a, b, page, pw, ph);
        let p = ps.last();
        assert(moved(a[p.0 as int], page, p.1, p.2) == moved(b[p.0 as int], page, p.1, p.2));
    }
}

// ---------------------------------------------------------------------------
// Packing
// ---------------------------------------------------------------------------

/// Where the pages `pss` put glyph `i`: `(page, x, y)`.
pub open spec fn find_page(pss: Seq<Seq<(usize, u32, u32)>>, i: int) -> Option<(u32, u32, u32)>
    decreases pss.len(),
{
    if pss.len() == 0 {
        None
    } else {
        match find_page(pss.drop_last(), i) {
            Some(p) => Some(p),
            None => match lookup_place(pss.last(), i) {
                Some((x, y)) => Some(((pss.len() - 1) as u32, x, y)),
                None => None,
            },
        }
    }
}

/// A glyph too large for a page of this size (Hiero's strict fit).
pub open spec fn too_large(g: GlyphView, pw: u32, ph: u32) -> bool {
    g.width >= pw || g.height >= ph
}

/// The first glyph of the queue that is too large for the page, if any.
pub open spec fn first_too_large(q: Seq<usize>, gs: Seq<GlyphView>, pw: u32, ph: u32) -> Option<usize>
    decreases q.len(),
{
    if q.len() == 0 {
        None
    } else if too_large(gs[q[0] as int], pw, ph) {
        Some(q[0])
    } else {
        first_too_large(q.drop_first(), gs, pw, ph)
    }
}

pub open spec fn msg_too_large(g: GlyphView, pw: u32, ph: u32) -> Seq<char> {
    "glyph U+"@ + crate::num::hex4(g.codepoint as nat) + " ("@ + crate::num::dec(g.width as nat) + "x"@
        + crate::num::dec(g.height as nat) + ") exceeds Hiero packable size for page ("@ + crate::num::dec(pw as nat)
        + "x"@ + crate::num::dec(ph as nat) + ")"@
}

/// Blank glyphs are parked at `(0, 0)` on page 0.
pub open spec fn parked(g: GlyphView) -> GlyphView {
    if is_blank(g) {
        moved(g, 0, 0, 0)
    } else {
        g
    }
}

/// The packer's result for a glyph: parked if blank, else where the pages put it.
pub open spec fn packed(g: GlyphView, i: int, pss: Seq<Seq<(usize, u32, u32)>>) -> GlyphView {
    if is_blank(g) {
        moved(g, 0, 0, 0)
    } else {
        match find_page(pss, i) {
            Some((page, x, y)) => moved(g, page, x, y),
            None => g,
        }
    }
}

/// Whether packing these glyphs would run out of a `u32` for the page size.
pub open spec fn pack_size_overflows(gs: Seq<GlyphView>, pw: u32, ph: u32) -> bool {
    &&& pw > 0
    &&& ph > 0
    &&& pw * ph * 4 > u32::MAX
    &&& first_too_large(pack_queue(gs), gs, pw, ph) is None
}

pub proof fn lemma_first_too_large(q: Seq<usize>, gs: Seq<GlyphView>, pw: u32, ph: u32)
    ensures
        match first_too_large(q, gs, pw, ph) {
            None => forall|k: int| 0 <= k < q.len() ==> !too_large(gs[#[trigger] q[k] as int], pw, ph),
            Some(i) => q.contains(i) && too_large(gs[i as int], pw, ph),
        },
    decreases q.len(),
{
    if q.len() > 0 {
        lemma_first_too_large(q.drop_first(), gs, pw, ph);
        if !too_large(gs[q[0] as int], pw, ph) {
            match first_too_large(q.drop_first(), gs, pw, ph) {
                None => {
                    assert forall|k: int| 0 <= k < q.len() implies !too_large(gs[#[trigger] q[k] as int], pw, ph) by {
                        if k > 0 {
                            assert(q[k] == q.drop_first()[k - 1]);
                        }
                    }
                },
                Some(i) => {
                    let t = choose|t: int| 0 <= t < q.drop_first().len() && q.drop_first()[t] == i;
                    assert(q[t + 1] == i);
                },
            }
        } else {
            assert(q[0] == q[0]);
        }
    }
}

/// Pack glyphs into atlas pages using Hiero's glyph-page algorithm.
///
/// Blank glyphs go to `(0, 0)` on page 0; the others are placed page by page
/// in packing order. There is always at least one page.
pub fn pack_glyphs(glyphs: &mut [GlyphRecord], page_width: u32, page_height: u32) -> (r: Result<
    Vec<AtlasPage>,
    FontbakeError,
>)
    requires
        !pack_size_overflows(glyph_views(old(glyphs)@), page_width, page_height),
    ensures
        ({
            let gs = glyph_views(old(glyphs)@);
            let q = pack_queue(gs);
            let pss = pages_of(q, gs, page_width, page_height);
            &&& final(glyphs)@.len() == old(glyphs)@.len()
            &&& if page_width == 0 || page_height == 0 {
                &&& r matches Err(FontbakeError::Pack(m)) && m@ == "page dimensions must be > 0"@
                &&& glyph_views(final(glyphs)@) == gs
            } else if first_too_large(q, gs, page_width, page_height) is Some {
                let i = first_too_large(q, gs, page_width, page_height).unwrap();
                &&& r matches Err(FontbakeError::Pack(m)) && m@ == msg_too_large(gs[i as int], page_width, page_height)
                &&& forall|k: int| 0 <= k < gs.len() ==> (#[trigger] final(glyphs)@[k])@ == parked(gs[k])
            } else {
                &&& r matches Ok(pages) && {
                    &&& pages@.len() == if pss.len() == 0 { 1 } else { pss.len() }
                    &&& forall|k: int| 0 <= k < pages@.len() ==> {
                        &&& (#[trigger] pages@[k]).width == page_width
                        &&& pages@[k].height == page_height
                        &&& pages@[k].rgba@ == if pss.len() == 0 {
                            zeros((page_width * page_height * 4) as nat)
                        } else {
                            page_pixels(pss[k], gs, k as u32, page_width, page_height)
                        }
                    }
                }
                &&& forall|k: int| 0 <= k < gs.len() ==> (#[trigger] final(glyphs)@[k])@ == packed(gs[k], k, pss)
            }
        }),
{
    let ghost gs = glyph_views(glyphs@);
    if page_width == 0 || page_height == 0 {
        assert(glyph_views(glyphs@) =~= gs);
        return Err(FontbakeError::Pack(crate::source::bmfont_text::str_to_string("page dimensions must be > 0")));
    }
    let n = glyphs.len();
    let remaining0 = pack_order(glyphs);
    let ghost q = remaining0@;
    assert(glyphs@.map_values(|g: GlyphRecord| g@) == gs);
    proof {
        lemma_height_order(heights(gs), gs.len());
        lemma_drop_blank(height_order(heights(gs), gs.len()), gs);
    }
    // Blank glyphs do not take part in packing.
    let mut i: usize = 0;
    while i < n
        invariant
            n == glyphs@.len() == gs.len(),
            gs == glyph_views(old(glyphs)@),
            i <= n,
            forall|k: int| 0 <= k < n ==> (#[trigger] glyphs@[k])@ == if k < i { parked(gs[k]) } else { gs[k] },
        decreases n - i,
    {
        if glyphs[i].width == 0 || glyphs[i].height == 0 {
            glyphs[i].page = 0;
            glyphs[i].x = 0;
            glyphs[i].y = 0;
        }
        i = i + 1;
    }
    let ghost gs1 = glyph_views(glyphs@);
    assert forall|k: int| 0 <= k < n implies (#[trigger] gs1[k]) == parked(gs[k]) by {
        assert(gs1[k] == glyphs@[k]@);
    }
    // Every glyph to pack must fit strictly inside a page.
    let mut k: usize = 0;
    assert(q.skip(0) =~= q);
    while k < remaining0.len()
        invariant
            q == remaining0@,
            q == pack_queue(gs),
            gs == glyph_views(old(glyphs)@),
            0 < page_width,
            0 < page_height,
            gs1 == glyph_views(glyphs@),
            gs1.len() == gs.len(),
            forall|t: int| 0 <= t < gs.len() ==> (#[trigger] gs1[t]) == parked(gs[t]),
            forall|t: int| 0 <= t < q.len() ==> (#[trigger] q[t]) < gs.len() && !is_blank(gs[q[t] as int]),
            k <= q.len(),
            first_too_large(q, gs, page_width, page_height) == first_too_large(q.skip(k as int), gs, page_width, page_height),
        decreases q.len() - k,
    {
        let idx = remaining0[k];
        assert(q.skip(k as int)[0] == idx);
        assert(q.skip(k as int).drop_first() =~= q.skip(k + 1));
        let gw = glyphs[idx].width;
        let gh = glyphs[idx].height;
        assert(gs1[idx as int] == glyphs@[idx as int]@);
        if gw >= page_width || gh >= page_height {
            let mut m = crate::source::bmfont_text::str_to_string("glyph U+");
            crate::num::push_hex4(&mut m, glyphs[idx].codepoint);
            crate::text::push_str(&mut m, " (");
            crate::num::push_dec(&mut m, gw as u64);
            crate::text::push_str(&mut m, "x");
            crate::num::push_dec(&mut m, gh as u64);
            crate::text::push_str(&mut m, ") exceeds Hiero packable size for page (");
            crate::num::push_dec(&mut m, page_width as u64);
            crate::text::push_str(&mut m, "x");
            crate::num::push_dec(&mut m, page_height as u64);
            crate::text::push_str(&mut m, ")");
            assert(m@ =~= msg_too_large(gs[idx as int], page_width, page_height));
            assert(gs1[idx as int] == gs[idx as int]);
            assert(first_too_large(q.skip(k as int), gs, page_width, page_height) == Some(idx));
            assert forall|t: int| 0 <= t < gs.len() implies (#[trigger] glyphs@[t])@ == parked(gs[t]) by {
                assert(gs1[t] == glyphs@[t]@);
            }
            return Err(FontbakeError::Pack(m));
        }
        k = k + 1;
    }
    assert(q.skip(k as int) =~= Seq::<usize>::empty());
    proof {
        lemma_first_too_large(q, gs, page_width, page_height);
        assert(page_width * page_height * 4 <= u32::MAX);
    }
    let mut remaining = remaining0;
    let mut pages: Vec<AtlasPage> = Vec::new();
    let ghost mut done: Seq<Seq<(usize, u32, u32)>> = seq![];
    proof {
        assert(done + pages_of(q, gs, page_width, page_height) =~= pages_of(q, gs, page_width, page_height));
        lemma_find_page_none(done, 0);
    }
    while remaining.len() > 0
        invariant
            0 < page_width,
            0 < page_height,
            page_width * page_height * 4 <= u32::MAX,
            q == pack_queue(gs),
            gs == glyph_views(old(glyphs)@),
            gs.len() == glyphs@.len(),
            n == gs.len(),
            pages_of(q, gs, page_width, page_height) == done + pages_of(remaining@, gs, page_width, page_height),
            pages@.len() == done.len(),
            pages@.len() <= gs.len(),
            queue_ok(remaining@, gs, page_width, page_height),
            forall|t: int| 0 <= t < remaining@.len() ==> find_page(done, #[trigger] remaining@[t] as int) is None,
            forall|t: int| 0 <= t < pages@.len() ==> {
                &&& (#[trigger] pages@[t]).width == page_width
                &&& pages@[t].height == page_height
                &&& pages@[t].rgba@ == page_pixels(done[t], gs, t as u32, page_width, page_height)
            },
            forall|t: int| 0 <= t < gs.len() ==> (#[trigger] glyphs@[t])@ == if remaining@.contains(t as usize) {
                gs[t]
            } else {
                packed(gs[t], t, done)
            },
            remaining@.len() + pages@.len() <= gs.len(),
        decreases remaining@.len(),
    {
        let ghost cur = glyph_views(glyphs@);
        let ghost rem = remaining@;
        let ghost done0 = done;
        proof {
            assert forall|t: int| 0 <= t < gs.len() implies (#[trigger] cur[t]).width == gs[t].width
                && cur[t].height == gs[t].height && crate::model::same_glyph_content(cur[t], gs[t]) by {
                assert(cur[t] == glyphs@[t]@);
            }
            assert forall|t: int| 0 <= t < rem.len() implies cur[#[trigger] rem[t] as int] == gs[rem[t] as int] by {
                assert(rem.contains(rem[t]));
                assert(cur[rem[t] as int] == glyphs@[rem[t] as int]@);
            }
            lemma_fill_sizes(fresh_rows(), rem, cur, gs, page_width, page_height);
            lemma_fill_partition(fresh_rows(), rem, gs, page_width, page_height);
            lemma_fill_progress(rem, gs, page_width, page_height);
        }
        let page_index = pages.len() as u32;
        let (page, rest) = fill_page(glyphs, &remaining, page_width, page_height, page_index);
        let ghost f = fill(fresh_rows(), rem, gs, page_width, page_height);
        proof {
            assert forall|k: int| 0 <= k < f.0.len() implies (#[trigger] f.0[k]).0 < cur.len() by {
                assert(rem.contains(f.0[k].0));
            }
            lemma_page_pixels_content(f.0, cur, gs, page_index, page_width, page_height);
            assert(pages_of(rem, gs, page_width, page_height) == seq![f.0] + pages_of(f.1, gs, page_width, page_height));
            done = done.push(f.0);
            assert(done + pages_of(f.1, gs, page_width, page_height) =~= done0 + pages_of(rem, gs, page_width, page_height));
            assert(done.drop_last() =~= done0);
            assert(done.last() == f.0);
            assert forall|t: int| 0 <= t < f.1.len() implies find_page(done, #[trigger] f.1[t] as int) is None by {
                assert(rem.contains(f.1[t]));
                let u = choose|u: int| 0 <= u < rem.len() && rem[u] == f.1[t];
                assert(find_page(done0, rem[u] as int) is None);
                assert forall|j: int| 0 <= j < f.0.len() implies (#[trigger] f.0[j]).0 != f.1[t] by {}
                lemma_lookup_place_none(f.0, f.1[t] as int);
            }
            assert(queue_ok(f.1, gs, page_width, page_height)) by {
                assert forall|k: int| 0 <= k < f.1.len() implies {
                    &&& (#[trigger] f.1[k]) < gs.len()
                    &&& !is_blank(gs[f.1[k] as int])
                    &&& gs[f.1[k] as int].width < page_width
                    &&& gs[f.1[k] as int].height < page_height
                } by {
                    assert(rem.contains(f.1[k]));
                }
            }
        }
        pages.push(page);
        remaining = rest;
        proof {
            assert forall|t: int| 0 <= t < gs.len() implies (#[trigger] glyphs@[t])@ == if remaining@.contains(t as usize) {
                gs[t]
            } else {
                packed(gs[t], t, done)
            } by {
                let tu = t as usize;
                if f.1.contains(tu) {
                    let u = choose|u: int| 0 <= u < f.1.len() && f.1[u] == tu;
                    assert(rem.contains(tu));
                    assert forall|j: int| 0 <= j < f.0.len() implies (#[trigger] f.0[j]).0 != tu by {}
                    lemma_lookup_place_none(f.0, t);
                    let v = choose|v: int| 0 <= v < rem.len() && rem[v] == tu;
                    assert(cur[rem[v] as int] == gs[rem[v] as int]);
                } else if rem.contains(tu) {
                    let v = choose|v: int| 0 <= v < rem.len() && rem[v] == tu;
                    assert(cur[rem[v] as int] == gs[rem[v] as int]);
                    assert(f.1.contains(rem[v]) || exists|k: int| 0 <= k < f.0.len() && f.0[k].0 == rem[v]);
                    let kk = choose|k: int| 0 <= k < f.0.len() && f.0[k].0 == rem[v];
                    assert(tu as int == t);
                    assert(f.0[kk].0 == t);
                    lemma_lookup_place_some(f.0, t);
                    assert(find_page(done0, rem[v] as int) is None);
                    assert(!is_blank(gs[t]));
                } else {
                    assert forall|j: int| 0 <= j < f.0.len() implies (#[trigger] f.0[j]).0 != tu by {
                        assert(rem.contains(f.0[j].0));
                    }
                    lemma_lookup_place_none(f.0, t);
                    assert(cur[t] == packed(gs[t], t, done0));
                }
            }
        }
    }
    assert(remaining@.len() == 0);
    assert(done =~= pages_of(q, gs, page_width, page_height));
    if pages.len() == 0 {
        pages.push(AtlasPage::new(page_width, page_height));
    }
    Ok(pages)
}

pub proof fn lemma_lookup_place_some(ps: Seq<(usize, u32, u32)>, i: int)
    requires
        exists|k: int| 0 <= k < ps.len() && ps[k].0 == i,
    ensures
        lookup_place(ps, i) is Some,
    decreases ps.len(),
{
    let k = choose|k: int| 0 <= k < ps.len() && ps[k].0 == i;
    if k < ps.len() - 1 {
        assert(ps.drop_last()[k] == ps[k]);
        lemma_lookup_place_some(ps.drop_last(), i);
    }
}

proof fn lemma_find_page_none(pss: Seq<Seq<(usize, u32, u32)>>, i: int)
    requires
        pss.len() == 0,
    ensures
        find_page(pss, i) is None,
{
}

/// Whether [`pack_glyphs`] would overflow the `u32` byte count of a page
/// (see [`pack_size_overflows`]).
pub fn pack_would_overflow(glyphs: &[GlyphRecord], page_width: u32, page_height: u32) -> (b: bool)
    ensures
        b == pack_size_overflows(glyph_views(glyphs@), page_width, page_height),
{
    let ghost gs = glyph_views(glyphs@);
    if page_width == 0 || page_height == 0 {
        return false;
    }
    assert((page_width as int) * (page_height as int) <= 0xFFFF_FFFFint * 0xFFFF_FFFFint) by (nonlinear_arith)
        requires
            page_width <= 0xFFFF_FFFFint,
            page_height <= 0xFFFF_FFFFint,
    ;
    if (page_width as u128) * (page_height as u128) * 4 <= u32::MAX as u128 {
        return false;
    }
    let q = pack_order(glyphs);
    let n = glyphs.len();
    assert(glyphs@.map_values(|g: GlyphRecord| g@) == gs);
    proof {
        lemma_height_order(heights(gs), gs.len());
        lemma_drop_blank(height_order(heights(gs), gs.len()), gs);
        lemma_first_too_large(q@, gs, page_width, page_height);
    }
    let mut k: usize = 0;
    while k < q.len()
        invariant
            k <= q@.len(),
            q@ == pack_queue(gs),
            gs == glyph_views(glyphs@),
            forall|j: int| 0 <= j < q@.len() ==> (#[trigger] q@[j]) < gs.len(),
            forall|j: int| 0 <= j < k ==> !too_large(gs[#[trigger] q@[j] as int], page_width, page_height),
            first_too_large(q@, gs, page_width, page_height) is None ==> forall|j: int|
                0 <= j < q@.len() ==> !too_large(gs[#[trigger] q@[j] as int], page_width, page_height),
        decreases q@.len() - k,
    {
        let g = &glyphs[q[k]];
        assert(gs[q@[k as int] as int] == g@);
        if g.width >= page_width || g.height >= page_height {
            assert(too_large(gs[q@[k as int] as int], page_width, page_height));
            return false;
        }
        k = k + 1;
    }
    true
}

} // verus!
