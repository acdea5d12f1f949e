//! The distance-field effect: colour settings and the search for the nearest
//! edge in a high-resolution mask, which the generator runs for every output
//! pixel.
use vstd::prelude::*;
use crate::model::{ErrorView, FontbakeError};
use crate::text::{push_range, push_str, str_to_chars};

verus! {

// ---------------------------------------------------------------------------
// Colour
// ---------------------------------------------------------------------------

/// Configuration of the distance-field generator.
pub struct DistanceFieldConfig {
    /// The mask was rendered at `scale` times the output size.
    pub scale: u32,
    /// Spread radius in output pixels, as the text of an `f32` literal.
    pub spread: String,
    /// RGB colour of the output; the distance goes to alpha.
    pub color: [u8; 3],
}

/// Bytes of the UTF-8 encoding of a character.
pub open spec fn utf8_len(c: char) -> nat {
    if (c as u32) < 0x80 {
        1
    } else if (c as u32) < 0x800 {
        2
    } else if (c as u32) < 0x10000 {
        3
    } else {
        4
    }
}

/// Bytes of the UTF-8 encoding of a text.
pub open spec fn byte_len(s: Seq<char>) -> nat
    decreases s.len(),
{
    if s.len() == 0 {
        0
    } else {
        byte_len(s.drop_last()) + utf8_len(s.last())
    }
}

/// Byte offset `b` falls between two characters.
pub open spec fn on_boundary(s: Seq<char>, b: nat) -> bool {
    exists|k: int| 0 <= k <= s.len() && byte_len(#[trigger] s.take(k)) == b
}

/// `str::trim_start_matches('#')`.
pub open spec fn strip_hashes(s: Seq<char>) -> Seq<char>
    decreases s.len(),
{
    if s.len() > 0 && s[0] == '#' {
        strip_hashes(s.drop_first())
    } else {
        s
    }
}

pub open spec fn hex_digit(c: char) -> Option<u8> {
    if '0' <= c && c <= '9' {
        Some((c as int - '0' as int) as u8)
    } else if 'a' <= c && c <= 'f' {
        Some((c as int - 'a' as int + 10) as u8)
    } else if 'A' <= c && c <= 'F' {
        Some((c as int - 'A' as int + 10) as u8)
    } else {
        None
    }
}

/// `u8::from_str_radix(p, 16)` for two characters: an optional `+`, then
/// one or two hexadecimal digits.
pub open spec fn hex_byte(a: char, b: char) -> Option<u8> {
    if a == '+' {
        hex_digit(b)
    } else {
        match (hex_digit(a), hex_digit(b)) {
            (Some(x), Some(y)) => Some((x * 16 + y) as u8),
            _ => None,
        }
    }
}

pub open spec fn msg_bad_color(h: Seq<char>) -> Seq<char> {
    "invalid color hex: "@ + h
}

/// The colour that a hex text gives: leading `#` are dropped, and the rest
/// must be six bytes that are three radix-16 bytes.
pub open spec fn spec_parse_color(s: Seq<char>) -> Result<Seq<u8>, ErrorView> {
    let h = strip_hashes(s);
    if byte_len(h) != 6 {
        Err(ErrorView::Config(msg_bad_color(h) + " (expected 6 hex digits)"@))
    } else if h.len() == 6 && hex_byte(h[0], h[1]) is Some && hex_byte(h[2], h[3]) is Some
        && hex_byte(h[4], h[5]) is Some {
        Ok(
            seq![
                hex_byte(h[0], h[1]).unwrap(),
                hex_byte(h[2], h[3]).unwrap(),
                hex_byte(h[4], h[5]).unwrap(),
            ],
        )
    } else {
        Err(ErrorView::Config(msg_bad_color(h)))
    }
}

/// Cutting the six bytes into pairs falls inside a character, so slicing
/// them byte-wise would panic; the colour parser requires that it does not.
pub open spec fn color_panics(s: Seq<char>) -> bool {
    let h = strip_hashes(s);
    byte_len(h) == 6 && !(on_boundary(h, 2) && on_boundary(h, 4))
}

proof fn lemma_byte_len_bounds(s: Seq<char>)
    ensures
        byte_len(s) >= s.len(),
        byte_len(s) == s.len() <==> forall|i: int| 0 <= i < s.len() ==> (#[trigger] s[i] as u32) < 0x80,
    decreases s.len(),
{
    if s.len() > 0 {
        lemma_byte_len_bounds(s.drop_last());
        if byte_len(s) == s.len() {
            assert forall|i: int| 0 <= i < s.len() implies (#[trigger] s[i] as u32) < 0x80 by {
                if i < s.len() - 1 {
                    assert(s[i] == s.drop_last()[i]);
                }
            }
        }
        if forall|i: int| 0 <= i < s.len() ==> (#[trigger] s[i] as u32) < 0x80 {
            assert forall|i: int| 0 <= i < s.drop_last().len() implies (#[trigger] s.drop_last()[i] as u32) < 0x80 by {
                assert(s[i] == s.drop_last()[i]);
            }
            assert((s[s.len() - 1] as u32) < 0x80);
        }
    }
}

fn utf8_len_of(c: char) -> (n: usize)
    ensures
        n == utf8_len(c),
{
    let u = c as u32;
    if u < 0x80 {
        1
    } else if u < 0x800 {
        2
    } else if u < 0x10000 {
        3
    } else {
        4
    }
}

fn hex_digit_of(c: char) -> (r: Option<u8>)
    ensures
        r == hex_digit(c),
{
    if '0' <= c && c <= '9' {
        Some(((c as u32) - ('0' as u32)) as u8)
    } else if 'a' <= c && c <= 'f' {
        Some(((c as u32) - ('a' as u32) + 10) as u8)
    } else if 'A' <= c && c <= 'F' {
        Some(((c as u32) - ('A' as u32) + 10) as u8)
    } else {
        None
    }
}

fn hex_byte_of(a: char, b: char) -> (r: Option<u8>)
    ensures
        r == hex_byte(a, b),
{
    if a == '+' {
        hex_digit_of(b)
    } else {
        match (hex_digit_of(a), hex_digit_of(b)) {
            (Some(x), Some(y)) => Some(x * 16 + y),
            _ => None,
        }
    }
}

impl DistanceFieldConfig {
    /// Parse a hex colour like `"ffffff"` (leading `#` allowed) into `[R, G, B]`.
    pub fn parse_color(hex: &str) -> (r: Result<[u8; 3], FontbakeError>)
        requires
            !color_panics(hex@),
        ensures
            match r {
                Ok(c) => spec_parse_color(hex@) == Ok::<Seq<u8>, ErrorView>(c@),
                Err(e) => spec_parse_color(hex@) == Err::<Seq<u8>, ErrorView>(e@),
            },
    {
        let v = str_to_chars(hex);
        let mut lo: usize = 0;
        assert(v@.skip(0) =~= v@);
        while lo < v.len() && v[lo] == '#'
            invariant
                lo <= v@.len(),
                v@ == hex@,
                strip_hashes(v@) == strip_hashes(v@.skip(lo as int)),
            decreases v@.len() - lo,
        {
            assert(v@.skip(lo as int).drop_first() =~= v@.skip(lo + 1));
            lo = lo + 1;
        }
        let hi = v.len();
        let ghost h = v@.skip(lo as int);
        assert(h =~= v@.subrange(lo as int, hi as int));
        assert(strip_hashes(h) == h);
        let mut bytes: u128 = 0;
        let mut i = lo;
        while i < hi
            invariant
                lo <= i <= hi == v@.len(),
                h == v@.subrange(lo as int, hi as int),
                bytes == byte_len(h.take(i - lo)),
                bytes <= 4 * (i - lo),
            decreases hi - i,
        {
            assert(h.take(i + 1 - lo).drop_last() =~= h.take(i - lo));
            bytes = bytes + utf8_len_of(v[i]) as u128;
            i = i + 1;
        }
        assert(h.take(hi - lo) =~= h);
        if bytes != 6 {
            let mut m = String::new();
            push_str(&mut m, "invalid color hex: ");
            push_range(&mut m, &v, lo, hi);
            push_str(&mut m, " (expected 6 hex digits)");
            assert(m@ =~= msg_bad_color(h) + " (expected 6 hex digits)"@);
            return Err(FontbakeError::Config(m));
        }
        let mut bad = String::new();
        push_str(&mut bad, "invalid color hex: ");
        push_range(&mut bad, &v, lo, hi);
        assert(bad@ =~= msg_bad_color(h));
        proof {
            lemma_byte_len_bounds(h);
        }
        if hi - lo != 6 {
            return Err(FontbakeError::Config(bad));
        }
        let r = hex_byte_of(v[lo], v[lo + 1]);
        let g = hex_byte_of(v[lo + 2], v[lo + 3]);
        let b = hex_byte_of(v[lo + 4], v[lo + 5]);
        match (r, g, b) {
            (Some(r), Some(g), Some(b)) => {
                let c = [r, g, b];
                assert(c@ =~= seq![r, g, b]);
                Ok(c)
            },
            _ => Err(FontbakeError::Config(bad)),
        }
    }
}

/// Whether [`DistanceFieldConfig::parse_color`] would cut a character (see
/// [`color_panics`]).
pub fn parse_color_panics(hex: &str) -> (b: bool)
    ensures
        b == color_panics(hex@),
{
    let v = str_to_chars(hex);
    let mut lo: usize = 0;
    assert(v@.skip(0) =~= v@);
    while lo < v.len() && v[lo] == '#'
        invariant
            lo <= v@.len(),
            v@ == hex@,
            strip_hashes(v@) == strip_hashes(v@.skip(lo as int)),
        decreases v@.len() - lo,
    {
        assert(v@.skip(lo as int).drop_first() =~= v@.skip(lo + 1));
        lo = lo + 1;
    }
    let hi = v.len();
    let ghost h = v@.skip(lo as int);
    assert(h =~= v@.subrange(lo as int, hi as int));
    assert(strip_hashes(h) == h);
    let mut bytes: u128 = 0;
    let mut at2 = false;
    let mut at4 = false;
    let mut i = lo;
    while i < hi
        invariant
            lo <= i <= hi == v@.len(),
            h == v@.subrange(lo as int, hi as int),
            bytes == byte_len(h.take(i - lo)),
            bytes <= 4 * (i - lo),
            at2 == exists|k: int| 0 <= k < i - lo && byte_len(#[trigger] h.take(k)) == 2,
            at4 == exists|k: int| 0 <= k < i - lo && byte_len(#[trigger] h.take(k)) == 4,
        decreases hi - i,
    {
        if bytes == 2 {
            at2 = true;
        }
        if bytes == 4 {
            at4 = true;
        }
        assert(h.take(i + 1 - lo).drop_last() =~= h.take(i - lo));
        bytes = bytes + utf8_len_of(v[i]) as u128;
        i = i + 1;
    }
    assert(h.take(hi - lo) =~= h);
    if bytes == 2 {
        at2 = true;
    }
    if bytes == 4 {
        at4 = true;
    }
    assert(at2 == on_boundary(h, 2));
    assert(at4 == on_boundary(h, 4));
    bytes == 6 && !(at2 && at4)
}

// ---------------------------------------------------------------------------
// Row index of a mask
// ---------------------------------------------------------------------------

/// Mask pixel `(x, y)` of a mask `w` pixels wide is inside the glyph.
pub open spec fn is_inside(mask: Seq<u8>, w: nat, x: int, y: int) -> bool {
    mask[y * w + x] >= 128
}

/// The columns among the first `n` of row `y` whose pixel is inside (when
/// `side` is true) or outside, in increasing order.
pub open spec fn row_xs(mask: Seq<u8>, w: nat, y: int, side: bool, n: nat) -> Seq<u32>
    decreases n,
{
    if n == 0 {
        seq![]
    } else {
        row_xs(mask, w, y, side, (n - 1) as nat) + if is_inside(mask, w, n - 1, y) == side {
            seq![(n - 1) as u32]
        } else {
            seq![]
        }
    }
}

/// Row `y`'s inside columns followed by its outside columns.
pub open spec fn row_block(mask: Seq<u8>, w: nat, y: int) -> Seq<u32> {
    row_xs(mask, w, y, true, w) + row_xs(mask, w, y, false, w)
}

/// The blocks of the first `n` rows, one after another.
pub open spec fn blocks(mask: Seq<u8>, w: nat, n: nat) -> Seq<u32>
    decreases n,
{
    if n == 0 {
        seq![]
    } else {
        blocks(mask, w, (n - 1) as nat) + row_block(mask, w, n - 1)
    }
}

/// Where row `y`'s inside and outside columns lie in the shared buffer.
pub struct RowIndex {
    pub inside_start: usize,
    pub inside_len: usize,
    pub outside_start: usize,
    pub outside_len: usize,
}

/// For each row of a mask, the columns inside and outside the glyph, all
/// held in one buffer.
pub struct RowIndexTable {
    pub rows: Vec<RowIndex>,
    pub xs: Vec<u32>,
}

pub open spec fn row_entry_ok(r: RowIndex, mask: Seq<u8>, w: nat, y: int) -> bool {
    &&& r.inside_start == blocks(mask, w, y as nat).len()
    &&& r.inside_len == row_xs(mask, w, y, true, w).len()
    &&& r.outside_start == r.inside_start + r.inside_len
    &&& r.outside_len == row_xs(mask, w, y, false, w).len()
}

/// The table is the row index of a `w` x `h` mask.
pub open spec fn indexes(t: RowIndexTable, mask: Seq<u8>, w: nat, h: nat) -> bool {
    &&& t.xs@ == blocks(mask, w, h)
    &&& t.rows@.len() == h
    &&& forall|y: int| 0 <= y < h ==> row_entry_ok(#[trigger] t.rows@[y], mask, w, y)
}

/// The inside and outside columns of a row are all its columns.
pub proof fn lemma_row_xs_len(mask: Seq<u8>, w: nat, y: int, n: nat)
    ensures
        row_xs(mask, w, y, true, n).len() + row_xs(mask, w, y, false, n).len() == n,
    decreases n,
{
    if n > 0 {
        lemma_row_xs_len(mask, w, y, (n - 1) as nat);
    }
}

/// The buffer holds one position per pixel.
pub proof fn lemma_blocks_len(mask: Seq<u8>, w: nat, n: nat)
    ensures
        blocks(mask, w, n).len() == n * w,
    decreases n,
{
    if n > 0 {
        let m = (n - 1) as nat;
        lemma_blocks_len(mask, w, m);
        lemma_row_xs_len(mask, w, m as int, w);
        assert(blocks(mask, w, n).len() == blocks(mask, w, m).len() + row_block(mask, w, m as int).len());
        assert(m * w + w == n * w) by (nonlinear_arith)
            requires
                m + 1 == n,
        ;
    } else {
        assert(n * w == 0) by (nonlinear_arith)
            requires
                n == 0,
        ;
    }
}

/// A row's columns of one side are increasing, below `n`, and are exactly
/// the columns of that side.
pub proof fn lemma_row_xs(mask: Seq<u8>, w: nat, y: int, side: bool, n: nat)
    requires
        n <= u32::MAX + 1,
    ensures
        forall|i: int, j: int|
            0 <= i < j < row_xs(mask, w, y, side, n).len() ==> (#[trigger] row_xs(mask, w, y, side, n)[i])
                < (#[trigger] row_xs(mask, w, y, side, n)[j]),
        forall|i: int|
            0 <= i < row_xs(mask, w, y, side, n).len() ==> (#[trigger] row_xs(mask, w, y, side, n)[i])
                < n && is_inside(mask, w, row_xs(mask, w, y, side, n)[i] as int, y) == side,
        forall|x: int|
            0 <= x < n && is_inside(mask, w, x, y) == side ==> #[trigger] row_xs(
                mask,
                w,
                y,
                side,
                n,
            ).contains(x as u32),
    decreases n,
{
    if n > 0 {
        let p = row_xs(mask, w, y, side, (n - 1) as nat);
        let r = row_xs(mask, w, y, side, n);
        lemma_row_xs(mask, w, y, side, (n - 1) as nat);
        assert forall|i: int| 0 <= i < p.len() implies #[trigger] r[i] == p[i] by {}
        assert forall|x: int| 0 <= x < n && is_inside(mask, w, x, y) == side implies #[trigger] r.contains(
            x as u32,
        ) by {
            if x < n - 1 {
                assert(p.contains(x as u32));
                let k = choose|k: int| 0 <= k < p.len() && p[k] == x as u32;
                assert(r[k] == x as u32);
            } else {
                assert(r[r.len() - 1] == x as u32);
            }
        }
    }
}

/// Builds the row index of a `mask_w` x `mask_h` mask.
pub fn build_row_index(mask: &[u8], mask_w: u32, mask_h: u32) -> (t: RowIndexTable)
    requires
        mask_w * mask_h <= u32::MAX,
        mask@.len() >= mask_w * mask_h,
    ensures
        indexes(t, mask@, mask_w as nat, mask_h as nat),
        t.xs@.len() == mask_w * mask_h,
{
    let ghost w = mask_w as nat;
    let mut rows: Vec<RowIndex> = Vec::new();
    let mut xs: Vec<u32> = Vec::new();
    let mut y: u32 = 0;
    while y < mask_h
        invariant
            y <= mask_h,
            w == mask_w,
            mask_w * mask_h <= u32::MAX,
            mask@.len() >= mask_w * mask_h,
            xs@ == blocks(mask@, w, y as nat),
            rows@.len() == y,
            forall|k: int| 0 <= k < y ==> row_entry_ok(#[trigger] rows@[k], mask@, w, k),
        decreases mask_h - y,
    {
        assert((y as int) * (mask_w as int) + (mask_w as int) <= (mask_w as int) * (mask_h as int)) by (nonlinear_arith)
            requires
                y < mask_h,
        ;
        let row_start = (y * mask_w) as usize;
        let row_end = row_start + mask_w as usize;
        let ghost base = xs@;
        proof {
            lemma_blocks_len(mask@, w, y as nat);
        }
        let inside_start = xs.len();
        let mut x: usize = 0;
        while x < mask_w as usize
            invariant
                x <= mask_w,
                w == mask_w,
                row_end == row_start + mask_w,
                row_start == y * mask_w,
                row_end <= mask@.len(),
                xs@ == base + row_xs(mask@, w, y as int, true, x as nat),
            decreases mask_w - x,
        {
            assert(mask@[row_start + x] == mask@[(y as int) * (w as int) + (x as int)]);
            if mask[row_start + x] >= 128 {
                xs.push(x as u32);
            }
            assert(xs@ =~= base + row_xs(mask@, w, y as int, true, (x + 1) as nat));
            x = x + 1;
        }
        let inside_len = xs.len() - inside_start;
        let outside_start = xs.len();
        let ghost mid = xs@;
        let mut x: usize = 0;
        while x < mask_w as usize
            invariant
                x <= mask_w,
                w == mask_w,
                row_end == row_start + mask_w,
                row_start == y * mask_w,
                row_end <= mask@.len(),
                xs@ == mid + row_xs(mask@, w, y as int, false, x as nat),
            decreases mask_w - x,
        {
            assert(mask@[row_start + x] == mask@[(y as int) * (w as int) + (x as int)]);
            if mask[row_start + x] < 128 {
                xs.push(x as u32);
            }
            assert(xs@ =~= mid + row_xs(mask@, w, y as int, false, (x + 1) as nat));
            x = x + 1;
        }
        let outside_len = xs.len() - outside_start;
        assert(xs@ =~= blocks(mask@, w, (y + 1) as nat));
        rows.push(RowIndex { inside_start, inside_len, outside_start, outside_len });
        y = y + 1;
    }
    proof {
        lemma_blocks_len(mask@, w, mask_h as nat);
        assert((mask_h as nat) * w == (mask_w as nat) * (mask_h as nat)) by (nonlinear_arith)
            requires
                w == mask_w,
        ;
    }
    RowIndexTable { rows, xs }
}

// ---------------------------------------------------------------------------
// Nearest edge
// ---------------------------------------------------------------------------

pub open spec fn dist_sq(cx: int, cy: int, x: int, y: int) -> int {
    (x - cx) * (x - cx) + (y - cy) * (y - cy)
}

/// Over columns `x0 .. x0 + n` of row `sy`, the smallest squared distance
/// from `(cx, cy)` to a pixel on the other side than `inside`, when it is
/// below `best`; else `best`.
pub open spec fn row_best(
    mask: Seq<u8>,
    w: nat,
    inside: bool,
    cx: int,
    cy: int,
    sy: int,
    x0: int,
    n: nat,
    best: int,
) -> int
    decreases n,
{
    if n == 0 {
        best
    } else {
        let b = row_best(mask, w, inside, cx, cy, sy, x0, (n - 1) as nat, best);
        let sx = x0 + n - 1;
        if is_inside(mask, w, sx, sy) != inside && dist_sq(cx, cy, sx, sy) < b {
            dist_sq(cx, cy, sx, sy)
        } else {
            b
        }
    }
}

/// The same over rows `y0 .. y0 + ny`.
pub open spec fn window_best(
    mask: Seq<u8>,
    w: nat,
    inside: bool,
    cx: int,
    cy: int,
    x0: int,
    nx: nat,
    y0: int,
    ny: nat,
    best: int,
) -> int
    decreases ny,
{
    if ny == 0 {
        best
    } else {
        row_best(
            mask,
            w,
            inside,
            cx,
            cy,
            y0 + ny - 1,
            x0,
            nx,
            window_best(mask, w, inside, cx, cy, x0, nx, y0, (ny - 1) as nat, best),
        )
    }
}

pub open spec fn sat_sub(a: int, b: int) -> int {
    if a > b {
        a - b
    } else {
        0
    }
}

pub open spec fn min_int(a: int, b: int) -> int {
    if a < b {
        a
    } else {
        b
    }
}

/// The squared distance from `(cx, cy)` to the nearest mask pixel on the
/// other side of the edge, looking at every pixel of the window of radius
/// `delta` around it clipped to the mask; `delta * delta` when there is none
/// nearer.
pub open spec fn brute_min_dist_sq(
    mask: Seq<u8>,
    w: nat,
    h: nat,
    cx: nat,
    cy: nat,
    delta: nat,
    inside: bool,
) -> int {
    let x0 = sat_sub(cx as int, delta as int);
    let y0 = sat_sub(cy as int, delta as int);
    let x1 = min_int((cx + delta) as int, sat_sub(w as int, 1));
    let y1 = min_int((cy + delta) as int, sat_sub(h as int, 1));
    window_best(
        mask,
        w,
        inside,
        cx as int,
        cy as int,
        x0,
        if x1 >= x0 {
            (x1 - x0 + 1) as nat
        } else {
            0
        },
        y0,
        if y1 >= y0 {
            (y1 - y0 + 1) as nat
        } else {
            0
        },
        (delta * delta) as int,
    )
}

/// What `row_best` is: at most `best`, at most every distance it scans, and
/// one of them.
proof fn lemma_row_best(
    mask: Seq<u8>,
    w: nat,
    inside: bool,
    cx: int,
    cy: int,
    sy: int,
    x0: int,
    n: nat,
    best: int,
)
    ensures
        ({
            let r = row_best(mask, w, inside, cx, cy, sy, x0, n, best);
            &&& r <= best
            &&& forall|k: int|
                0 <= k < n && is_inside(mask, w, x0 + k, sy) != inside ==> r <= #[trigger] dist_sq(
                    cx,
                    cy,
                    x0 + k,
                    sy,
                )
            &&& (r == best || exists|k: int|
                0 <= k < n && is_inside(mask, w, x0 + k, sy) != inside && r == #[trigger] dist_sq(
                    cx,
                    cy,
                    x0 + k,
                    sy,
                ))
        }),
    decreases n,
{
    if n > 0 {
        lemma_row_best(mask, w, inside, cx, cy, sy, x0, (n - 1) as nat, best);
        let b = row_best(mask, w, inside, cx, cy, sy, x0, (n - 1) as nat, best);
        let r = row_best(mask, w, inside, cx, cy, sy, x0, n, best);
        if r != best && r != b {
            assert(r == dist_sq(cx, cy, x0 + (n - 1), sy));
        }
        if r == b && b != best {
            let k = choose|k: int|
                0 <= k < n - 1 && is_inside(mask, w, x0 + k, sy) != inside && b == #[trigger] dist_sq(
                    cx,
                    cy,
                    x0 + k,
                    sy,
                );
            assert(0 <= k < n && is_inside(mask, w, x0 + k, sy) != inside && r == dist_sq(cx, cy, x0 + k, sy));
        }
    }
}

proof fn lemma_sq_mono(a: int, b: int)
    requires
        0 <= a <= b,
    ensures
        a * a <= b * b,
{
    assert(a * a <= b * b) by (nonlinear_arith)
        requires
            0 <= a <= b,
    ;
}

proof fn lemma_blocks_prefix(mask: Seq<u8>, w: nat, n: nat, m: nat)
    requires
        n <= m,
    ensures
        blocks(mask, w, m).len() >= blocks(mask, w, n).len(),
        blocks(mask, w, m).take(blocks(mask, w, n).len() as int) == blocks(mask, w, n),
    decreases m,
{
    if n < m {
        lemma_blocks_prefix(mask, w, n, (m - 1) as nat);
        let p = blocks(mask, w, (m - 1) as nat);
        assert(blocks(mask, w, m).take(p.len() as int) =~= p);
        assert(blocks(mask, w, m).take(blocks(mask, w, n).len() as int) =~= p.take(
            blocks(mask, w, n).len() as int,
        ));
    } else {
        assert(blocks(mask, w, m).take(blocks(mask, w, n).len() as int) =~= blocks(mask, w, n));
    }
}

/// Row `y`'s columns of one side, as they lie in the buffer.
proof fn lemma_blocks_row(mask: Seq<u8>, w: nat, h: nat, y: int)
    requires
        0 <= y < h,
    ensures
        ({
            let b = blocks(mask, w, h);
            let s = blocks(mask, w, y as nat).len() as int;
            let li = row_xs(mask, w, y, true, w).len() as int;
            let lo = row_xs(mask, w, y, false, w).len() as int;
            &&& s + li + lo <= b.len()
            &&& b.subrange(s, s + li) == row_xs(mask, w, y, true, w)
            &&& b.subrange(s + li, s + li + lo) == row_xs(mask, w, y, false, w)
        }),
{
    lemma_blocks_prefix(mask, w, (y + 1) as nat, h);
    let b = blocks(mask, w, h);
    let b1 = blocks(mask, w, (y + 1) as nat);
    let s = blocks(mask, w, y as nat).len() as int;
    let li = row_xs(mask, w, y, true, w).len() as int;
    let lo = row_xs(mask, w, y, false, w).len() as int;
    assert(b1 =~= blocks(mask, w, y as nat) + row_xs(mask, w, y, true, w) + row_xs(mask, w, y, false, w));
    assert(b.subrange(s, s + li) =~= b1.subrange(s, s + li));
    assert(b.subrange(s + li, s + li + lo) =~= b1.subrange(s + li, s + li + lo));
}

/// First index in `xs[lo..hi]` whose value is not below `cx` (or `hi`).
fn partition_point(xs: &Vec<u32>, lo: usize, hi: usize, cx: u32) -> (p: usize)
    requires
        lo <= hi <= xs@.len(),
        forall|i: int, j: int| lo <= i < j < hi ==> xs@[i] < xs@[j],
    ensures
        lo <= p <= hi,
        forall|k: int| lo <= k < p ==> xs@[k] < cx,
        forall|k: int| p <= k < hi ==> xs@[k] >= cx,
{
    let mut a = lo;
    let mut b = hi;
    while a < b
        invariant
            lo <= a <= b <= hi <= xs@.len(),
            forall|i: int, j: int| lo <= i < j < hi ==> xs@[i] < xs@[j],
            forall|k: int| lo <= k < a ==> xs@[k] < cx,
            forall|k: int| b <= k < hi ==> xs@[k] >= cx,
        decreases b - a,
    {
        let mid = a + (b - a) / 2;
        if xs[mid] < cx {
            a = mid + 1;
        } else {
            b = mid;
        }
    }
    a
}

/// `best`, lowered to `d` when the candidate counts and is nearer.
pub open spec fn consider(best: int, ok: bool, d: int) -> int {
    if ok && d < best {
        d
    } else {
        best
    }
}

/// In a row, only the nearest column on each side of `cx` among those on
/// the other side of the edge can be nearest.
proof fn lemma_two_candidates(
    mask: Seq<u8>,
    w: nat,
    inside: bool,
    side: bool,
    cx: int,
    cy: int,
    sy: int,
    x0: int,
    x1: int,
    nx: nat,
    b: int,
    p: int,
)
    requires
        side == !inside,
        w <= u32::MAX + 1,
        0 <= x0 <= cx,
        x1 < w,
        x1 >= cx || x1 + 1 == w,
        nx == (if x1 >= x0 {
            x1 - x0 + 1
        } else {
            0
        }),
        0 <= p <= row_xs(mask, w, sy, side, w).len(),
        forall|k: int| 0 <= k < p ==> #[trigger] row_xs(mask, w, sy, side, w)[k] < cx,
        forall|k: int|
            p <= k < row_xs(mask, w, sy, side, w).len() ==> #[trigger] row_xs(mask, w, sy, side, w)[k]
                >= cx,
    ensures
        ({
            let l = row_xs(mask, w, sy, side, w);
            let okr = p < l.len() && x0 <= l[p] <= x1;
            let okl = p > 0 && x0 <= l[p - 1] <= x1;
            let r1 = consider(b, okr, if p < l.len() { dist_sq(cx, cy, l[p] as int, sy) } else { 0 });
            row_best(mask, w, inside, cx, cy, sy, x0, nx, b) == consider(
                r1,
                okl,
                if p > 0 { dist_sq(cx, cy, l[p - 1] as int, sy) } else { 0 },
            )
        }),
{
    let l = row_xs(mask, w, sy, side, w);
    lemma_row_xs(mask, w, sy, side, w);
    lemma_row_best(mask, w, inside, cx, cy, sy, x0, nx, b);
    let okr = p < l.len() && x0 <= l[p] <= x1;
    let okl = p > 0 && x0 <= l[p - 1] <= x1;
    let dr = if p < l.len() { dist_sq(cx, cy, l[p] as int, sy) } else { 0 };
    let dl = if p > 0 { dist_sq(cx, cy, l[p - 1] as int, sy) } else { 0 };
    let r1 = consider(b, okr, dr);
    let new = consider(r1, okl, dl);
    let r = row_best(mask, w, inside, cx, cy, sy, x0, nx, b);
    // r <= new: new is b or the distance of a counted candidate
    if okr {
        let k = l[p] - x0;
        assert(0 <= k < nx && is_inside(mask, w, x0 + k, sy) != inside);
        assert(r <= dist_sq(cx, cy, x0 + k, sy));
    }
    if okl {
        let k = l[p - 1] - x0;
        assert(0 <= k < nx && is_inside(mask, w, x0 + k, sy) != inside);
        assert(r <= dist_sq(cx, cy, x0 + k, sy));
    }
    // new <= r
    if r != b {
        let k = choose|k: int|
            0 <= k < nx && is_inside(mask, w, x0 + k, sy) != inside && r == #[trigger] dist_sq(
                cx,
                cy,
                x0 + k,
                sy,
            );
        let sx = x0 + k;
        assert(is_inside(mask, w, sx, sy) == !inside);
        assert(l.contains(sx as u32));
        let i = choose|i: int| 0 <= i < l.len() && l[i] == sx as u32;
        if i >= p {
            assert(l[p] <= l[i]) by {
                if p < i {
                }
            }
            assert(okr);
            lemma_sq_mono(l[p] - cx, sx - cx);
            assert(dr <= dist_sq(cx, cy, sx, sy));
        } else {
            assert(l[i] <= l[p - 1]) by {
                if i < p - 1 {
                }
            }
            assert(okl);
            lemma_sq_mono(cx - l[p - 1], cx - sx);
            assert((l[p - 1] - cx) * (l[p - 1] - cx) == (cx - l[p - 1]) * (cx - l[p - 1])) by (nonlinear_arith);
            assert((sx - cx) * (sx - cx) == (cx - sx) * (cx - sx)) by (nonlinear_arith);
            assert(dl <= dist_sq(cx, cy, sx, sy));
        }
    }
}

/// A row whose own offset is already no nearer than `best` changes nothing.
proof fn lemma_row_too_far(
    mask: Seq<u8>,
    w: nat,
    inside: bool,
    cx: int,
    cy: int,
    sy: int,
    x0: int,
    nx: nat,
    b: int,
)
    requires
        (sy - cy) * (sy - cy) >= b,
    ensures
        row_best(mask, w, inside, cx, cy, sy, x0, nx, b) == b,
{
    lemma_row_best(mask, w, inside, cx, cy, sy, x0, nx, b);
    let r = row_best(mask, w, inside, cx, cy, sy, x0, nx, b);
    if r != b {
        let k = choose|k: int|
            0 <= k < nx && is_inside(mask, w, x0 + k, sy) != inside && r == #[trigger] dist_sq(
                cx,
                cy,
                x0 + k,
                sy,
            );
        assert((x0 + k - cx) * (x0 + k - cx) >= 0) by (nonlinear_arith);
    }
}

/// One row of the search: `best` lowered to the nearest pixel of row `sy`
/// on the other side of the edge within columns `x0 ..= x1`.
#[verifier::rlimit(50)]
fn scan_row(
    row_index: &RowIndexTable,
    mask: &[u8],
    w: u32,
    h: u32,
    inside: bool,
    cx: u32,
    cy: u32,
    sy: u32,
    x0: u32,
    x1: u32,
    delta: u32,
    best: u64,
    Ghost(nx): Ghost<nat>,
) -> (r: u64)
    requires
        indexes(*row_index, mask@, w as nat, h as nat),
        sy < h,
        x0 <= cx,
        x0 == sat_sub(cx as int, delta as int),
        x1 < w,
        x1 >= cx || x1 + 1 == w,
        x1 <= cx + delta,
        nx == (if x1 >= x0 {
            (x1 - x0 + 1) as nat
        } else {
            0
        }),
        best <= delta * delta,
        delta * delta <= u32::MAX,
        sy <= cy + delta,
        cy <= sy + delta,
    ensures
        r == row_best(mask@, w as nat, inside, cx as int, cy as int, sy as int, x0 as int, nx, best as int),
        r <= best,
{
    let ghost wn = w as nat;
    let dy: u64 = if sy >= cy {
        (sy - cy) as u64
    } else {
        (cy - sy) as u64
    };
    assert(dy * dy <= (delta as int) * (delta as int)) by (nonlinear_arith)
        requires
            dy <= delta,
    ;
    let dy_sq = dy * dy;
    assert((sy - cy) * (sy - cy) == dy * dy) by (nonlinear_arith)
        requires
            dy == (if sy >= cy { sy - cy } else { cy - sy }),
    ;
    if dy_sq >= best {
        proof {
            lemma_row_too_far(mask@, wn, inside, cx as int, cy as int, sy as int, x0 as int, nx, best as int);
        }
        return best;
    }
    proof {
        lemma_blocks_row(mask@, wn, h as nat, sy as int);
        lemma_row_best(mask@, wn, inside, cx as int, cy as int, sy as int, x0 as int, nx, best as int);
    }
    let row = &row_index.rows[sy as usize];
    assert(row_entry_ok(row_index.rows@[sy as int], mask@, wn, sy as int));
    let (s, l) = if inside {
        (row.outside_start, row.outside_len)
    } else {
        (row.inside_start, row.inside_len)
    };
    let ghost lst = row_xs(mask@, wn, sy as int, !inside, wn);
    let xs_len = row_index.xs.len();
    assert(s + l <= xs_len);
    assert(row_index.xs@.subrange(s as int, s + l) == lst);
    proof {
        lemma_row_xs(mask@, wn, sy as int, !inside, wn);
    }
    assert forall|i: int, j: int| s <= i < j < s + l implies row_index.xs@[i] < row_index.xs@[j] by {
        assert(row_index.xs@[i] == lst[i - s]);
        assert(row_index.xs@[j] == lst[j - s]);
    }
    let p = partition_point(&row_index.xs, s, s + l, cx);
    assert forall|k: int| 0 <= k < p - s implies #[trigger] lst[k] < cx by {
        assert(row_index.xs@[s + k] == lst[k]);
    }
    assert forall|k: int| p - s <= k < lst.len() implies #[trigger] lst[k] >= cx by {
        assert(row_index.xs@[s + k] == lst[k]);
    }
    proof {
        lemma_two_candidates(
            mask@,
            wn,
            inside,
            !inside,
            cx as int,
            cy as int,
            sy as int,
            x0 as int,
            x1 as int,
            nx,
            best as int,
            p - s,
        );
    }
    let mut r = best;
    if p < s + l {
        let sx = row_index.xs[p];
        assert(sx == lst[p - s]);
        if x0 <= sx && sx <= x1 {
            let dx: u64 = (sx - cx) as u64;
            assert(dx * dx <= (delta as int) * (delta as int)) by (nonlinear_arith)
                requires
                    dx <= delta,
            ;
            let dist = dx * dx + dy_sq;
            assert(dist == dist_sq(cx as int, cy as int, sx as int, sy as int));
            if dist < r {
                r = dist;
            }
        }
    }
    if p > s {
        let sx = row_index.xs[p - 1];
        assert(sx == lst[p - s - 1]);
        if x0 <= sx && sx <= x1 {
            let dx: u64 = (cx - sx) as u64;
            assert(dx * dx <= (delta as int) * (delta as int)) by (nonlinear_arith)
                requires
                    dx <= delta,
            ;
            let dist = dx * dx + dy_sq;
            assert((sx - cx) * (sx - cx) == dx * dx) by (nonlinear_arith)
                requires
                    dx == cx - sx,
            ;
            assert(dist == dist_sq(cx as int, cy as int, sx as int, sy as int));
            if dist < r {
                r = dist;
            }
        }
    }
    r
}

/// The squared distance from `(cx, cy)` to the nearest pixel on the other
/// side of the edge within `delta`, capped at `delta * delta`. Each row of
/// the window looks only at the nearest column on either side of `cx`, and
/// rows no nearer than the best so far are skipped; the result is that of
/// looking at every pixel of the window.
pub fn find_min_edge_dist_sq(
    row_index: &RowIndexTable,
    mask: &[u8],
    w: u32,
    h: u32,
    cx: u32,
    cy: u32,
    delta: u32,
    inside: bool,
) -> (d: u64)
    requires
        indexes(*row_index, mask@, w as nat, h as nat),
        w > 0,
        h > 0,
        cx + delta <= u32::MAX,
        cy + delta <= u32::MAX,
        delta * delta <= u32::MAX,
    ensures
        d == brute_min_dist_sq(mask@, w as nat, h as nat, cx as nat, cy as nat, delta as nat, inside),
{
    let ghost wn = w as nat;
    let mut best: u64 = (delta as u64) * (delta as u64);
    let x0 = if cx > delta {
        cx - delta
    } else {
        0
    };
    let y0 = if cy > delta {
        cy - delta
    } else {
        0
    };
    let x1 = if cx + delta < w - 1 {
        cx + delta
    } else {
        w - 1
    };
    let y1 = if cy + delta < h - 1 {
        cy + delta
    } else {
        h - 1
    };
    let ghost nx: nat = if x1 >= x0 {
        (x1 - x0 + 1) as nat
    } else {
        0
    };
    let mut sy = y0;
    while sy <= y1
        invariant
            indexes(*row_index, mask@, wn, h as nat),
            wn == w,
            y0 <= sy,
            sy <= y1 + 1 || sy == y0,
            y1 < h,
            y1 <= cy + delta,
            y0 == sat_sub(cy as int, delta as int),
            x1 < w,
            x1 >= cx || x1 + 1 == w,
            x1 <= cx + delta,
            x0 <= cx,
            x0 == sat_sub(cx as int, delta as int),
            nx == (if x1 >= x0 {
                (x1 - x0 + 1) as nat
            } else {
                0
            }),
            best <= delta * delta,
            delta * delta <= u32::MAX,
            best == window_best(
                mask@,
                wn,
                inside,
                cx as int,
                cy as int,
                x0 as int,
                nx,
                y0 as int,
                (sy - y0) as nat,
                (delta * delta) as int,
            ),
        decreases y1 + 1 - sy,
    {
        best = scan_row(row_index, mask, w, h, inside, cx, cy, sy, x0, x1, delta, best, Ghost(nx));
        sy = sy + 1;
    }
    best
}


// ---------------------------------------------------------------------------
// Samples of the distance field
// ---------------------------------------------------------------------------

/// The upscale factor in use: at least 1.
pub open spec fn upscale(scale: u32) -> u32 {
    if scale > 1 {
        scale
    } else {
        1
    }
}

/// The mask pixel under output pixel `o` (along one axis) at upscale `s`:
/// the middle of its `s` mask pixels.
pub open spec fn sample_center(o: nat, s: nat) -> nat {
    o * s + s / 2
}

/// Whether the mask pixel nearest to `(x, y)`, clamped to the mask, is inside.
pub open spec fn sample_inside(mask: Seq<u8>, w: nat, h: nat, x: nat, y: nat) -> bool {
    let ix: int = if x < w {
        x as int
    } else {
        w - 1
    };
    let iy: int = if y < h {
        y as int
    } else {
        h - 1
    };
    is_inside(mask, w, ix, iy)
}

/// Output pixel `(ox, oy)` of the field: whether its centre is inside, and
/// the squared distance from the centre to the nearest mask pixel across the
/// edge within `delta` (capped at `delta * delta`).
pub open spec fn field_value(mask: Seq<u8>, w: nat, h: nat, s: nat, delta: nat, ox: nat, oy: nat) -> (
    bool,
    u64,
) {
    let cx = sample_center(ox, s);
    let cy = sample_center(oy, s);
    let inside = sample_inside(mask, w, h, cx, cy);
    (inside, brute_min_dist_sq(mask, w, h, cx, cy, delta, inside) as u64)
}

/// The sampling stays within the mask and its machine integers: the mask
/// holds `w * h` bytes, and `delta * delta` and each centre plus `delta` fit
/// in `u32` (nothing is needed of an empty field).
pub open spec fn field_fits(mask: Seq<u8>, w: u32, h: u32, scale: u32, delta: u32) -> bool {
    let s = upscale(scale);
    let ow = w / s;
    let oh = h / s;
    (ow > 0 && oh > 0) ==> {
        &&& w * h <= u32::MAX
        &&& mask.len() >= w * h
        &&& delta * delta <= u32::MAX
        &&& sample_center((ow - 1) as nat, s as nat) + delta <= u32::MAX
        &&& sample_center((oh - 1) as nat, s as nat) + delta <= u32::MAX
    }
}

proof fn lemma_center_bounds(o: nat, n: nat, s: nat, w: nat)
    requires
        s >= 1,
        o < n,
        n == w / s,
    ensures
        sample_center(o, s) <= sample_center((n - 1) as nat, s),
        sample_center(o, s) < w,
{
    assert(o * s <= (n - 1) * s) by (nonlinear_arith)
        requires
            o <= n - 1,
            s >= 1,
    ;
    assert((n - 1) * s + s / 2 < w) by (nonlinear_arith)
        requires
            s >= 1,
            n >= 1,
            n == w / s,
    ;
}

/// The samples of the distance field of a `mask_w` x `mask_h` mask at
/// upscale `scale` (at least 1): for each output pixel, row by row, whether
/// its centre is inside and the squared distance to the edge within
/// `delta`. Also returns the output width and height.
pub fn field_samples(mask: &[u8], mask_w: u32, mask_h: u32, scale: u32, delta: u32) -> (r: (
    Vec<(bool, u64)>,
    u32,
    u32,
))
    requires
        field_fits(mask@, mask_w, mask_h, scale, delta),
    ensures
        r.1 == mask_w / upscale(scale),
        r.2 == mask_h / upscale(scale),
        r.0@.len() == r.1 * r.2,
        forall|k: int|
            0 <= k < r.0@.len() ==> #[trigger] r.0@[k] == field_value(
                mask@,
                mask_w as nat,
                mask_h as nat,
                upscale(scale) as nat,
                delta as nat,
                (k % (r.1 as int)) as nat,
                (k / (r.1 as int)) as nat,
            ),
{
    let s: u32 = if scale > 1 {
        scale
    } else {
        1
    };
    let out_w = mask_w / s;
    let out_h = mask_h / s;
    let mut v: Vec<(bool, u64)> = Vec::new();
    if out_w == 0 || out_h == 0 {
        assert(out_w * out_h == 0) by (nonlinear_arith)
            requires
                out_w == 0 || out_h == 0,
        ;
        return (v, out_w, out_h);
    }
    let ghost wn = mask_w as nat;
    let ghost hn = mask_h as nat;
    let table = build_row_index(mask, mask_w, mask_h);
    let mut oy: u32 = 0;
    while oy < out_h
        invariant
            s == upscale(scale),
            s >= 1,
            out_w == mask_w / s,
            out_h == mask_h / s,
            out_w > 0,
            out_h > 0,
            field_fits(mask@, mask_w, mask_h, scale, delta),
            indexes(table, mask@, wn, hn),
            wn == mask_w,
            hn == mask_h,
            oy <= out_h,
            v@.len() == oy * out_w,
            forall|k: int|
                0 <= k < v@.len() ==> #[trigger] v@[k] == field_value(
                    mask@,
                    wn,
                    hn,
                    s as nat,
                    delta as nat,
                    (k % (out_w as int)) as nat,
                    (k / (out_w as int)) as nat,
                ),
        decreases out_h - oy,
    {
        proof {
            lemma_center_bounds(oy as nat, out_h as nat, s as nat, hn);
        }
        let cy = oy * s + s / 2;
        let mut ox: u32 = 0;
        while ox < out_w
            invariant
                s == upscale(scale),
                s >= 1,
                out_w == mask_w / s,
                out_h == mask_h / s,
                out_w > 0,
                out_h > 0,
                field_fits(mask@, mask_w, mask_h, scale, delta),
                indexes(table, mask@, wn, hn),
                wn == mask_w,
                hn == mask_h,
                oy < out_h,
                cy == sample_center(oy as nat, s as nat),
                cy < mask_h,
                cy + delta <= u32::MAX,
                ox <= out_w,
                v@.len() == oy * out_w + ox,
                forall|k: int|
                    0 <= k < v@.len() ==> #[trigger] v@[k] == field_value(
                        mask@,
                        wn,
                        hn,
                        s as nat,
                        delta as nat,
                        (k % (out_w as int)) as nat,
                        (k / (out_w as int)) as nat,
                    ),
            decreases out_w - ox,
        {
            proof {
                lemma_center_bounds(ox as nat, out_w as nat, s as nat, wn);
            }
            let cx = ox * s + s / 2;
            let ix = if cx < mask_w {
                cx
            } else {
                mask_w - 1
            };
            let iy = if cy < mask_h {
                cy
            } else {
                mask_h - 1
            };
            assert((iy as int) * (mask_w as int) + (ix as int) < (mask_w as int) * (mask_h as int))
                by (nonlinear_arith)
                requires
                    iy < mask_h,
                    ix < mask_w,
            ;
            let inside = mask[(iy * mask_w + ix) as usize] >= 128;
            let d = find_min_edge_dist_sq(&table, mask, mask_w, mask_h, cx, cy, delta, inside);
            let ghost k = v@.len() as int;
            proof {
                vstd::arithmetic::div_mod::lemma_fundamental_div_mod_converse(
                    k,
                    out_w as int,
                    oy as int,
                    ox as int,
                );
            }
            v.push((inside, d));
            assert(v@[k] == field_value(
                mask@,
                wn,
                hn,
                s as nat,
                delta as nat,
                (k % (out_w as int)) as nat,
                (k / (out_w as int)) as nat,
            ));
            ox = ox + 1;
        }
        assert(v@.len() == (oy + 1) * out_w) by (nonlinear_arith)
            requires
                v@.len() == oy * out_w + out_w,
        ;
        oy = oy + 1;
    }
    assert(v@.len() == out_w * out_h) by (nonlinear_arith)
        requires
            v@.len() == oy * out_w,
            oy == out_h,
    ;
    (v, out_w, out_h)
}

} // verus!
