//! What the packer guarantees about where glyphs end up: inside their page,
//! never on top of each other, and every glyph that has pixels gets a place.
use vstd::prelude::*;
use crate::model::GlyphView;
use crate::pack::hiero_rows::{
    Row, fill, heights, height_order, lemma_drop_blank, lemma_first_too_large, lemma_height_order,
    moved, fits_row, find_page, first_too_large, fresh_rows, is_best_row, is_blank,
    lemma_fill_partition, lemma_fill_progress, lookup_place, pack_queue, packed, pages_of, place,
    queue_ok,
};

verus! {

/// Two rectangles `(x, y, w, h)` do not share a pixel.
pub open spec fn disjoint(x1: int, y1: int, w1: int, h1: int, x2: int, y2: int, w2: int, h2: int) -> bool {
    ||| x1 + w1 <= x2
    ||| x2 + w2 <= x1
    ||| y1 + h1 <= y2
    ||| y2 + h2 <= y1
}

pub open spec fn place_disjoint(p: (usize, u32, u32), q: (usize, u32, u32), gs: Seq<GlyphView>) -> bool {
    disjoint(
        p.1 as int,
        p.2 as int,
        gs[p.0 as int].width as int,
        gs[p.0 as int].height as int,
        q.1 as int,
        q.2 as int,
        gs[q.0 as int].width as int,
        gs[q.0 as int].height as int,
    )
}

/// A placement lies strictly inside the page.
pub open spec fn in_page(p: (usize, u32, u32), gs: Seq<GlyphView>, pw: u32, ph: u32) -> bool {
    &&& p.1 + gs[p.0 as int].width < pw
    &&& p.2 + gs[p.0 as int].height < ph
}

/// Placements lie inside the page and do not overlap one another.
pub open spec fn sound_page(ps: Seq<(usize, u32, u32)>, gs: Seq<GlyphView>, pw: u32, ph: u32) -> bool {
    &&& forall|j: int| 0 <= j < ps.len() ==> in_page(#[trigger] ps[j], gs, pw, ph)
    &&& forall|j: int, k: int| 0 <= j < k < ps.len() ==> place_disjoint(#[trigger] ps[j], #[trigger] ps[k], gs)
}

/// Rows are horizontal strips stacked top to bottom.
spec fn strips(rows: Seq<Row>) -> bool {
    forall|a: int, b: int| 0 <= a < b < rows.len() ==> #[trigger] rows[a].y + rows[a].height <= #[trigger] rows[b].y
}

/// A placement sits in a row, left of the row's cursor.
spec fn member(p: (usize, u32, u32), g: GlyphView, row: Row) -> bool {
    &&& p.2 == row.y
    &&& g.height <= row.height
    &&& p.1 + g.width <= row.x
}

spec fn geo_inv(rows: Seq<Row>, ps: Seq<(usize, u32, u32)>, rs: Seq<int>, gs: Seq<GlyphView>, pw: u32, ph: u32) -> bool {
    &&& rows.len() > 0
    &&& strips(rows)
    &&& ps.len() == rs.len()
    &&& forall|j: int|
        0 <= j < ps.len() ==> {
            &&& 0 <= #[trigger] rs[j] < rows.len()
            &&& member(ps[j], gs[ps[j].0 as int], rows[rs[j]])
        }
    &&& sound_page(ps, gs, pw, ph)
}

proof fn lemma_place_step(
    rows: Seq<Row>,
    ps: Seq<(usize, u32, u32)>,
    rs: Seq<int>,
    gs: Seq<GlyphView>,
    pw: u32,
    ph: u32,
    i: usize,
) -> (r2: int)
    requires
        geo_inv(rows, ps, rs, gs, pw, ph),
        (i as int) < gs.len(),
        0 < gs[i as int].width < pw,
        0 < gs[i as int].height < ph,
        place(rows, pw, ph, gs[i as int].width, gs[i as int].height) is Some,
    ensures
        ({
            let (rows2, x, y) = place(rows, pw, ph, gs[i as int].width, gs[i as int].height).unwrap();
            geo_inv(rows2, ps.push((i, x, y)), rs.push(r2), gs, pw, ph)
        }),
{
    let w = gs[i as int].width;
    let h = gs[i as int].height;
    let (rows2, x, y) = place(rows, pw, ph, w, h).unwrap();
    let ps2 = ps.push((i, x, y));
    let rs2: Seq<int>;
    let r2: int;
    if exists|k: int| is_best_row(rows, k, pw, ph, w, h) {
        let k = choose|k: int| is_best_row(rows, k, pw, ph, w, h);
        r2 = k;
        rs2 = rs.push(r2);
        assert(strips(rows2)) by {
            assert forall|a: int, b: int| 0 <= a < b < rows2.len() implies #[trigger] rows2[a].y + rows2[a].height <= #[trigger] rows2[b].y by {
                assert(rows[a].y + rows[a].height <= rows[b].y);
            }
        }
        assert forall|j: int| 0 <= j < ps2.len() implies {
            &&& 0 <= #[trigger] rs2[j] < rows2.len()
            &&& member(ps2[j], gs[ps2[j].0 as int], rows2[rs2[j]])
        } by {
            if j < ps.len() {
                assert(ps2[j] == ps[j] && rs2[j] == rs[j]);
            }
        }
        assert forall|j: int, m: int| 0 <= j < m < ps2.len() implies place_disjoint(#[trigger] ps2[j], #[trigger] ps2[m], gs) by {
            if m == ps.len() {
                assert(ps2[j] == ps[j]);
                assert(rs[j] >= 0);
                let rj = rs[j];
                if rj < k {
                    assert(rows[rj].y + rows[rj].height <= rows[k].y);
                } else if rj > k {
                    assert(rows[k].y + rows[k].height <= rows[rj].y);
                }
            } else {
                assert(ps2[j] == ps[j] && ps2[m] == ps[m]);
            }
        }
        assert forall|j: int| 0 <= j < ps2.len() implies in_page(#[trigger] ps2[j], gs, pw, ph) by {
            if j < ps.len() {
                assert(ps2[j] == ps[j]);
            }
        }
    } else {
        let last = rows.last();
        let li = rows.len() - 1;
        if last.x + w < pw {
            r2 = li;
            rs2 = rs.push(r2);
            assert(strips(rows2)) by {
                assert forall|a: int, b: int| 0 <= a < b < rows2.len() implies #[trigger] rows2[a].y + rows2[a].height <= #[trigger] rows2[b].y by {
                    assert(rows[a].y + rows[a].height <= rows[b].y);
                }
            }
            assert forall|j: int| 0 <= j < ps2.len() implies {
                &&& 0 <= #[trigger] rs2[j] < rows2.len()
                &&& member(ps2[j], gs[ps2[j].0 as int], rows2[rs2[j]])
            } by {
                if j < ps.len() {
                    assert(ps2[j] == ps[j] && rs2[j] == rs[j]);
                }
            }
            assert forall|j: int, m: int| 0 <= j < m < ps2.len() implies place_disjoint(#[trigger] ps2[j], #[trigger] ps2[m], gs) by {
                if m == ps.len() {
                    assert(ps2[j] == ps[j]);
                    let rj = rs[j];
                    if rj < li {
                        assert(rows[rj].y + rows[rj].height <= rows[li].y);
                    }
                } else {
                    assert(ps2[j] == ps[j] && ps2[m] == ps[m]);
                }
            }
            assert forall|j: int| 0 <= j < ps2.len() implies in_page(#[trigger] ps2[j], gs, pw, ph) by {
                if j < ps.len() {
                    assert(ps2[j] == ps[j]);
                }
            }
        } else {
            r2 = rows.len() as int;
            rs2 = rs.push(r2);
            assert(strips(rows2)) by {
                assert forall|a: int, b: int| 0 <= a < b < rows2.len() implies #[trigger] rows2[a].y + rows2[a].height <= #[trigger] rows2[b].y by {
                    if b < rows.len() {
                        assert(rows[a].y + rows[a].height <= rows[b].y);
                    } else if a < li {
                        assert(rows[a].y + rows[a].height <= rows[li].y);
                    }
                }
            }
            assert forall|j: int| 0 <= j < ps2.len() implies {
                &&& 0 <= #[trigger] rs2[j] < rows2.len()
                &&& member(ps2[j], gs[ps2[j].0 as int], rows2[rs2[j]])
            } by {
                if j < ps.len() {
                    assert(ps2[j] == ps[j] && rs2[j] == rs[j]);
                    assert(rows2[rs[j]] == rows[rs[j]]);
                }
            }
            assert forall|j: int, m: int| 0 <= j < m < ps2.len() implies place_disjoint(#[trigger] ps2[j], #[trigger] ps2[m], gs) by {
                if m == ps.len() {
                    assert(ps2[j] == ps[j]);
                    let rj = rs[j];
                    if rj < li {
                        assert(rows[rj].y + rows[rj].height <= rows[li].y);
                    }
                } else {
                    assert(ps2[j] == ps[j] && ps2[m] == ps[m]);
                }
            }
            assert forall|j: int| 0 <= j < ps2.len() implies in_page(#[trigger] ps2[j], gs, pw, ph) by {
                if j < ps.len() {
                    assert(ps2[j] == ps[j]);
                }
            }
        }
    }
    assert(rs2 == rs.push(r2));
    r2
}

proof fn lemma_fill_sound(
    rows: Seq<Row>,
    ps: Seq<(usize, u32, u32)>,
    rs: Seq<int>,
    q: Seq<usize>,
    gs: Seq<GlyphView>,
    pw: u32,
    ph: u32,
)
    requires
        geo_inv(rows, ps, rs, gs, pw, ph),
        queue_ok(q, gs, pw, ph),
    ensures
        sound_page(ps + fill(rows, q, gs, pw, ph).0, gs, pw, ph),
    decreases q.len(),
{
    if q.len() == 0 {
        assert(ps + fill(rows, q, gs, pw, ph).0 =~= ps);
    } else {
        let i = q[0];
        let g = gs[i as int];
        let q1 = q.drop_first();
        assert(queue_ok(q1, gs, pw, ph)) by {
            assert forall|a: int, b: int| 0 <= a < q1.len() && 0 <= b < q1.len() && a != b implies q1[a] != q1[b] by {
                assert(q1[a] == q[a + 1] && q1[b] == q[b + 1]);
            }
            assert forall|k: int| 0 <= k < q1.len() implies (#[trigger] q1[k]) < gs.len() && !is_blank(gs[q1[k] as int])
                && gs[q1[k] as int].width < pw && gs[q1[k] as int].height < ph by {
                assert(q1[k] == q[k + 1]);
            }
        }
        assert(q[0] == q[0]);
        match place(rows, pw, ph, g.width, g.height) {
            Some((rows2, x, y)) => {
                let r2 = lemma_place_step(rows, ps, rs, gs, pw, ph, i);
                lemma_fill_sound(rows2, ps.push((i, x, y)), rs.push(r2), q1, gs, pw, ph);
                assert(ps.push((i, x, y)) + fill(rows2, q1, gs, pw, ph).0 =~= ps + fill(rows, q, gs, pw, ph).0);
            },
            None => {
                lemma_fill_sound(rows, ps, rs, q1, gs, pw, ph);
            },
        }
    }
}

/// Every page that the packer fills is sound.
pub proof fn lemma_pages_sound(q: Seq<usize>, gs: Seq<GlyphView>, pw: u32, ph: u32)
    requires
        queue_ok(q, gs, pw, ph),
    ensures
        forall|k: int| 0 <= k < pages_of(q, gs, pw, ph).len() ==> sound_page(#[trigger] pages_of(q, gs, pw, ph)[k], gs, pw, ph),
        pages_of(q, gs, pw, ph).len() <= q.len(),
    decreases q.len(),
{
    if q.len() > 0 {
        let f = fill(fresh_rows(), q, gs, pw, ph);
        assert(geo_inv(fresh_rows(), seq![], seq![], gs, pw, ph)) by {
            assert(strips(fresh_rows()));
        }
        lemma_fill_sound(fresh_rows(), seq![], seq![], q, gs, pw, ph);
        assert(Seq::<(usize, u32, u32)>::empty() + f.0 =~= f.0);
        lemma_fill_partition(fresh_rows(), q, gs, pw, ph);
        lemma_fill_progress(q, gs, pw, ph);
        assert(queue_ok(f.1, gs, pw, ph)) by {
            assert forall|k: int| 0 <= k < f.1.len() implies (#[trigger] f.1[k]) < gs.len() && !is_blank(gs[f.1[k] as int])
                && gs[f.1[k] as int].width < pw && gs[f.1[k] as int].height < ph by {
                assert(q.contains(f.1[k]));
            }
        }
        lemma_pages_sound(f.1, gs, pw, ph);
        let pss = pages_of(q, gs, pw, ph);
        assert(pss == seq![f.0] + pages_of(f.1, gs, pw, ph));
        assert forall|k: int| 0 <= k < pss.len() implies sound_page(#[trigger] pss[k], gs, pw, ph) by {
            if k > 0 {
                assert(pss[k] == pages_of(f.1, gs, pw, ph)[k - 1]);
            }
        }
    }
}


proof fn lemma_fill_placed_distinct(rows: Seq<Row>, q: Seq<usize>, gs: Seq<GlyphView>, pw: u32, ph: u32)
    requires
        q.no_duplicates(),
    ensures
        ({
            let ps = fill(rows, q, gs, pw, ph).0;
            forall|a: int, b: int| 0 <= a < b < ps.len() ==> (#[trigger] ps[a]).0 != (#[trigger] ps[b]).0
        }),
    decreases q.len(),
{
    if q.len() > 0 {
        let g = gs[q[0] as int];
        let q1 = q.drop_first();
        assert forall|a: int, b: int| 0 <= a < q1.len() && 0 <= b < q1.len() && a != b implies q1[a] != q1[b] by {
            assert(q1[a] == q[a + 1] && q1[b] == q[b + 1]);
        }
        match place(rows, pw, ph, g.width, g.height) {
            Some((rows2, x, y)) => {
                lemma_fill_placed_distinct(rows2, q1, gs, pw, ph);
                lemma_fill_partition(rows2, q1, gs, pw, ph);
                let r = fill(rows2, q1, gs, pw, ph).0;
                let ps = fill(rows, q, gs, pw, ph).0;
                assert(ps == seq![(q[0], x, y)] + r);
                assert forall|a: int, b: int| 0 <= a < b < ps.len() implies (#[trigger] ps[a]).0 != (#[trigger] ps[b]).0 by {
                    if a == 0 {
                        assert(ps[b] == r[b - 1]);
                        assert(q1.contains(r[b - 1].0));
                        let t = choose|t: int| 0 <= t < q1.len() && q1[t] == r[b - 1].0;
                        assert(q[t + 1] == q1[t]);
                    } else {
                        assert(ps[a] == r[a - 1] && ps[b] == r[b - 1]);
                    }
                }
            },
            None => {
                lemma_fill_placed_distinct(rows, q1, gs, pw, ph);
                assert(fill(rows, q, gs, pw, ph).0 == fill(rows, q1, gs, pw, ph).0);
            },
        }
    }
}

/// The pages place every queued glyph, each exactly once.
proof fn lemma_pages_cover(q: Seq<usize>, gs: Seq<GlyphView>, pw: u32, ph: u32)
    requires
        queue_ok(q, gs, pw, ph),
    ensures
        ({
            let pss = pages_of(q, gs, pw, ph);
            &&& forall|t: int| 0 <= t < q.len() ==> exists|k: int, j: int|
                0 <= k < pss.len() && 0 <= j < pss[k].len() && (#[trigger] pss[k][j]).0 == #[trigger] q[t]
            &&& forall|k1: int, j1: int, k2: int, j2: int|
                0 <= k1 < pss.len() && 0 <= j1 < pss[k1].len() && 0 <= k2 < pss.len() && 0 <= j2 < pss[k2].len()
                    && (#[trigger] pss[k1][j1]).0 == (#[trigger] pss[k2][j2]).0 ==> k1 == k2 && j1 == j2
            &&& forall|k: int, j: int| 0 <= k < pss.len() && 0 <= j < pss[k].len() ==> q.contains(#[trigger] pss[k][j].0)
        }),
    decreases q.len(),
{
    if q.len() > 0 {
        let f = fill(fresh_rows(), q, gs, pw, ph);
        lemma_fill_partition(fresh_rows(), q, gs, pw, ph);
        lemma_fill_progress(q, gs, pw, ph);
        lemma_fill_placed_distinct(fresh_rows(), q, gs, pw, ph);
        assert(queue_ok(f.1, gs, pw, ph)) by {
            assert forall|k: int| 0 <= k < f.1.len() implies (#[trigger] f.1[k]) < gs.len() && !is_blank(gs[f.1[k] as int])
                && gs[f.1[k] as int].width < pw && gs[f.1[k] as int].height < ph by {
                assert(q.contains(f.1[k]));
            }
        }
        lemma_pages_cover(f.1, gs, pw, ph);
        let rest = pages_of(f.1, gs, pw, ph);
        let pss = pages_of(q, gs, pw, ph);
        assert(pss == seq![f.0] + rest);
        assert forall|t: int| 0 <= t < q.len() implies exists|k: int, j: int|
            0 <= k < pss.len() && 0 <= j < pss[k].len() && (#[trigger] pss[k][j]).0 == #[trigger] q[t] by {
            if f.1.contains(q[t]) {
                let u = choose|u: int| 0 <= u < f.1.len() && f.1[u] == q[t];
                assert(f.1[u] == q[t]);
                let (k, j) = choose|k: int, j: int| 0 <= k < rest.len() && 0 <= j < rest[k].len() && (#[trigger] rest[k][j]).0 == #[trigger] f.1[u];
                assert(pss[k + 1] == rest[k]);
                assert(pss[k + 1][j].0 == q[t]);
            } else {
                let j = choose|j: int| 0 <= j < f.0.len() && f.0[j].0 == q[t];
                assert(pss[0] == f.0);
                assert(pss[0][j].0 == q[t]);
            }
        }
        assert forall|k: int, j: int| 0 <= k < pss.len() && 0 <= j < pss[k].len() implies q.contains(#[trigger] pss[k][j].0) by {
            if k == 0 {
                assert(pss[0] == f.0);
            } else {
                assert(pss[k] == rest[k - 1]);
                assert(f.1.contains(rest[k - 1][j].0));
                let u = choose|u: int| 0 <= u < f.1.len() && f.1[u] == rest[k - 1][j].0;
                assert(q.contains(f.1[u]));
            }
        }
        assert forall|k1: int, j1: int, k2: int, j2: int|
            0 <= k1 < pss.len() && 0 <= j1 < pss[k1].len() && 0 <= k2 < pss.len() && 0 <= j2 < pss[k2].len()
                && (#[trigger] pss[k1][j1]).0 == (#[trigger] pss[k2][j2]).0 implies k1 == k2 && j1 == j2 by {
            if k1 == 0 && k2 == 0 {
                if j1 < j2 {
                    assert(f.0[j1].0 != f.0[j2].0);
                } else if j2 < j1 {
                    assert(f.0[j2].0 != f.0[j1].0);
                }
            } else if k1 == 0 {
                assert(pss[k2] == rest[k2 - 1]);
                assert(f.1.contains(rest[k2 - 1][j2].0));
                let u = choose|u: int| 0 <= u < f.1.len() && f.1[u] == rest[k2 - 1][j2].0;
                assert(f.1[u] != f.0[j1].0);
            } else if k2 == 0 {
                assert(pss[k1] == rest[k1 - 1]);
                assert(f.1.contains(rest[k1 - 1][j1].0));
                let u = choose|u: int| 0 <= u < f.1.len() && f.1[u] == rest[k1 - 1][j1].0;
                assert(f.1[u] != f.0[j2].0);
            } else {
                assert(pss[k1] == rest[k1 - 1]);
                assert(pss[k2] == rest[k2 - 1]);
                assert(rest[k1 - 1][j1].0 == rest[k2 - 1][j2].0);
            }
        }
    }
}

proof fn lemma_lookup_place_entry(ps: Seq<(usize, u32, u32)>, i: int)
    requires
        lookup_place(ps, i) is Some,
    ensures
        exists|j: int| 0 <= j < ps.len() && ps[j] == (i as usize, lookup_place(ps, i).unwrap().0, lookup_place(ps, i).unwrap().1) && ps[j].0 == i,
    decreases ps.len(),
{
    if lookup_place(ps.drop_last(), i) is Some {
        lemma_lookup_place_entry(ps.drop_last(), i);
        let j = choose|j: int| 0 <= j < ps.drop_last().len() && ps.drop_last()[j] == (i as usize, lookup_place(ps.drop_last(), i).unwrap().0, lookup_place(ps.drop_last(), i).unwrap().1) && ps.drop_last()[j].0 == i;
        assert(ps[j] == ps.drop_last()[j]);
    } else {
        assert(ps[ps.len() - 1] == ps.last());
    }
}

proof fn lemma_find_page_entry(pss: Seq<Seq<(usize, u32, u32)>>, i: int)
    requires
        find_page(pss, i) is Some,
    ensures
        exists|k: int, j: int| 0 <= k < pss.len() && 0 <= j < pss[k].len() && k as u32 == find_page(pss, i).unwrap().0
            && pss[k][j] == (i as usize, find_page(pss, i).unwrap().1, find_page(pss, i).unwrap().2) && pss[k][j].0 == i,
    decreases pss.len(),
{
    if find_page(pss.drop_last(), i) is Some {
        lemma_find_page_entry(pss.drop_last(), i);
        let (k, j) = choose|k: int, j: int| 0 <= k < pss.drop_last().len() && 0 <= j < pss.drop_last()[k].len()
            && k as u32 == find_page(pss.drop_last(), i).unwrap().0
            && pss.drop_last()[k][j] == (i as usize, find_page(pss.drop_last(), i).unwrap().1, find_page(pss.drop_last(), i).unwrap().2)
            && pss.drop_last()[k][j].0 == i;
        assert(pss[k] == pss.drop_last()[k]);
    } else {
        lemma_lookup_place_entry(pss.last(), i);
        let j = choose|j: int| 0 <= j < pss.last().len() && pss.last()[j] == (i as usize, lookup_place(pss.last(), i).unwrap().0, lookup_place(pss.last(), i).unwrap().1) && pss.last()[j].0 == i;
        assert(pss[pss.len() - 1] == pss.last());
    }
}

proof fn lemma_find_page_some(pss: Seq<Seq<(usize, u32, u32)>>, i: int, k: int, j: int)
    requires
        0 <= k < pss.len(),
        0 <= j < pss[k].len(),
        pss[k][j].0 == i,
    ensures
        find_page(pss, i) is Some,
    decreases pss.len(),
{
    if k < pss.len() - 1 {
        assert(pss.drop_last()[k] == pss[k]);
        lemma_find_page_some(pss.drop_last(), i, k, j);
    } else {
        if find_page(pss.drop_last(), i) is None {
            crate::pack::hiero_rows::lemma_lookup_place_some(pss.last(), i);
        }
    }
}

/// Packing puts every glyph that has pixels on one of the pages, strictly
/// inside the page, and no two such glyphs on the same page overlap.
pub proof fn lemma_packing_sound(gs: Seq<GlyphView>, pw: u32, ph: u32)
    requires
        0 < pw,
        0 < ph,
        first_too_large(pack_queue(gs), gs, pw, ph) is None,
        gs.len() <= u32::MAX,
    ensures
        ({
            let pss = pages_of(pack_queue(gs), gs, pw, ph);
            &&& forall|i: int|
                0 <= i < gs.len() && !is_blank(gs[i]) ==> {
                    let g = #[trigger] packed(gs[i], i, pss);
                    &&& (g.page as int) < pss.len()
                    &&& g.x + g.width < pw
                    &&& g.y + g.height < ph
                }
            &&& forall|i: int, j: int|
                0 <= i < gs.len() && 0 <= j < gs.len() && i != j && !is_blank(gs[i]) && !is_blank(gs[j])
                    && (#[trigger] packed(gs[i], i, pss)).page == (#[trigger] packed(gs[j], j, pss)).page ==> disjoint(
                    packed(gs[i], i, pss).x as int,
                    packed(gs[i], i, pss).y as int,
                    gs[i].width as int,
                    gs[i].height as int,
                    packed(gs[j], j, pss).x as int,
                    packed(gs[j], j, pss).y as int,
                    gs[j].width as int,
                    gs[j].height as int,
                )
        }),
{
    let q = pack_queue(gs);
    let hq = height_order(heights(gs), gs.len());
    lemma_height_order(heights(gs), gs.len());
    lemma_drop_blank(hq, gs);
    lemma_first_too_large(q, gs, pw, ph);
    assert(queue_ok(q, gs, pw, ph));
    lemma_pages_sound(q, gs, pw, ph);
    lemma_pages_cover(q, gs, pw, ph);
    let pss = pages_of(q, gs, pw, ph);
    assert forall|i: int| 0 <= i < gs.len() && !is_blank(gs[i]) implies find_page(pss, i) is Some by {
        lemma_height_order_complete(heights(gs), gs.len(), i);
        assert(hq.contains(i as usize));
        let t0 = choose|t: int| 0 <= t < hq.len() && hq[t] == i as usize;
        assert(q.contains(hq[t0]));
        let t = choose|t: int| 0 <= t < q.len() && q[t] == i as usize;
        let (k, j) = choose|k: int, j: int| 0 <= k < pss.len() && 0 <= j < pss[k].len() && (#[trigger] pss[k][j]).0 == #[trigger] q[t];
        lemma_find_page_some(pss, i, k, j);
    }
    assert forall|i: int| 0 <= i < gs.len() && !is_blank(gs[i]) implies {
        let g = #[trigger] packed(gs[i], i, pss);
        &&& (g.page as int) < pss.len()
        &&& g.x + g.width < pw
        &&& g.y + g.height < ph
    } by {
        lemma_find_page_entry(pss, i);
        let (k, j) = choose|k: int, j: int| 0 <= k < pss.len() && 0 <= j < pss[k].len() && k as u32 == find_page(pss, i).unwrap().0
            && pss[k][j] == (i as usize, find_page(pss, i).unwrap().1, find_page(pss, i).unwrap().2) && pss[k][j].0 == i;
        assert(crate::pack::geometry::in_page(pss[k][j], gs, pw, ph));
    }
    assert forall|i: int, j: int|
        0 <= i < gs.len() && 0 <= j < gs.len() && i != j && !is_blank(gs[i]) && !is_blank(gs[j])
            && (#[trigger] packed(gs[i], i, pss)).page == (#[trigger] packed(gs[j], j, pss)).page implies disjoint(
            packed(gs[i], i, pss).x as int,
            packed(gs[i], i, pss).y as int,
            gs[i].width as int,
            gs[i].height as int,
            packed(gs[j], j, pss).x as int,
            packed(gs[j], j, pss).y as int,
            gs[j].width as int,
            gs[j].height as int,
        ) by {
        lemma_find_page_entry(pss, i);
        lemma_find_page_entry(pss, j);
        let (k1, j1) = choose|k: int, jj: int| 0 <= k < pss.len() && 0 <= jj < pss[k].len() && k as u32 == find_page(pss, i).unwrap().0
            && pss[k][jj] == (i as usize, find_page(pss, i).unwrap().1, find_page(pss, i).unwrap().2) && pss[k][jj].0 == i;
        let (k2, j2) = choose|k: int, jj: int| 0 <= k < pss.len() && 0 <= jj < pss[k].len() && k as u32 == find_page(pss, j).unwrap().0
            && pss[k][jj] == (j as usize, find_page(pss, j).unwrap().1, find_page(pss, j).unwrap().2) && pss[k][jj].0 == j;
        assert(pss.len() <= q.len());
        assert(k1 == k2);
        if j1 < j2 {
            assert(place_disjoint(pss[k1][j1], pss[k1][j2], gs));
        } else {
            assert(j1 != j2);
            assert(place_disjoint(pss[k1][j2], pss[k1][j1], gs));
        }
    }
}

/// `height_order` orders all of `0..n`.
proof fn lemma_height_order_complete(hs: Seq<u32>, n: nat, i: int)
    requires
        n <= hs.len(),
        n <= usize::MAX,
        0 <= i < n,
    ensures
        height_order(hs, n).contains(i as usize),
    decreases n,
{
    let q = height_order(hs, (n - 1) as nat);
    let p = crate::pack::hiero_rows::insert_pos(q, hs, hs[n - 1]);
    crate::pack::hiero_rows::lemma_insert_pos_bounds(q, hs, hs[n - 1]);
    let q2 = q.insert(p, (n - 1) as usize);
    if i == n - 1 {
        assert(q2[p] == (n - 1) as usize);
    } else {
        lemma_height_order_complete(hs, (n - 1) as nat, i);
        let t = choose|t: int| 0 <= t < q.len() && q[t] == i as usize;
        if t < p {
            assert(q2[t] == q[t]);
        } else {
            assert(q2[t + 1] == q[t]);
        }
    }
}

} // verus!
