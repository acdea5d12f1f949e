//! Parser for Hiero `.hiero` configuration files.
//!
//! Format: one `key=value` pair per line, optionally behind a `#ID:` token
//! that Hiero uses for ordering. Lines without `=` (blank lines, lines that
//! are only a `#ID:` token) are skipped. A key given twice keeps its last
//! value. Only `render_type=0` (the Java path) is supported; unknown keys are
//! ignored.
use vstd::prelude::*;
use crate::model::{
    AdvanceAdjust, BuildSpec, BuildSpecView, EffectSpec, EffectView, ErrorView, FontbakeError,
    Padding, RenderMode,
};
use crate::num::{dec, f32_text, f32_text_in, parse_i32, parse_i32_range, parse_u32, parse_u32_range, push_dec};
use crate::text::{
    find_char, find_char_in, lines, next_line, push_range, push_str, range_eq_str, skip_ws,
    str_to_chars, string_from_range, trim, trim_range, trim_start,
};

verus! {

// ---------------------------------------------------------------------------
// Entries
// ---------------------------------------------------------------------------

pub open spec fn is_ascii_alnum(c: char) -> bool {
    ||| ('0' <= c && c <= '9')
    ||| ('a' <= c && c <= 'z')
    ||| ('A' <= c && c <= 'Z')
}

/// `#` followed by two to four ASCII letters or digits. Hiero writes these
/// ids in upper case; lower-case letters are accepted as well.
pub open spec fn id_prefix(p: Seq<char>) -> bool {
    &&& 3 <= p.len() <= 5
    &&& p[0] == '#'
    &&& forall|i: int| 1 <= i < p.len() ==> is_ascii_alnum(#[trigger] p[i])
}

/// The part of a line that holds the key and value: after a `#ID:` token
/// (leading whitespace dropped), else the whole line trimmed.
pub open spec fn entry_text(raw: Seq<char>) -> Seq<char> {
    match find_char(raw, ':') {
        Some(pos) => if id_prefix(raw.take(pos)) {
            trim_start(raw.skip(pos + 1))
        } else {
            trim(raw)
        },
        None => trim(raw),
    }
}

/// The key and value of a line, split at its first `=`. Keys are trimmed;
/// values are trimmed except that of `glyph.text`, which is kept verbatim.
pub open spec fn entry(raw: Seq<char>) -> Option<(Seq<char>, Seq<char>)> {
    let line = entry_text(raw);
    match find_char(line, '=') {
        None => None,
        Some(e) => {
            let key = trim(line.take(e));
            Some(
                (
                    key,
                    if key == "glyph.text"@ {
                        line.skip(e + 1)
                    } else {
                        trim(line.skip(e + 1))
                    },
                ),
            )
        },
    }
}

/// The entries of the lines, in order.
pub open spec fn entries(ls: Seq<Seq<char>>) -> Seq<(Seq<char>, Seq<char>)>
    decreases ls.len(),
{
    if ls.len() == 0 {
        seq![]
    } else {
        entries(ls.drop_last()) + match entry(ls.last()) {
            Some(p) => seq![p],
            None => seq![],
        }
    }
}

/// The value of the last entry with this key.
pub open spec fn value_of(kv: Seq<(Seq<char>, Seq<char>)>, key: Seq<char>) -> Option<Seq<char>>
    decreases kv.len(),
{
    if kv.len() == 0 {
        None
    } else if kv.last().0 == key {
        Some(kv.last().1)
    } else {
        value_of(kv.drop_last(), key)
    }
}

/// A line with a `:` after a first character that takes more than one
/// byte: cutting the byte after that first character is not on a character
/// boundary, so a byte-wise reader of such a line would panic; the parser
/// requires that no line is of this kind.
pub open spec fn line_panics(raw: Seq<char>) -> bool {
    match find_char(raw, ':') {
        Some(pos) => pos > 0 && raw[0] as u32 >= 0x80,
        None => false,
    }
}

pub open spec fn config_panics(input: Seq<char>) -> bool {
    exists|i: int| 0 <= i < lines(input).len() && line_panics(#[trigger] lines(input)[i])
}

/// Index ranges `(key_lo, key_hi, value_lo, value_hi)` into a character vector.
pub open spec fn range_views(v: Seq<char>, a: Seq<(usize, usize, usize, usize)>) -> Seq<
    (Seq<char>, Seq<char>),
> {
    a.map_values(
        |t: (usize, usize, usize, usize)|
            (v.subrange(t.0 as int, t.1 as int), v.subrange(t.2 as int, t.3 as int)),
    )
}

pub open spec fn ranges_in(a: Seq<(usize, usize, usize, usize)>, hi: int) -> bool {
    forall|i: int|
        0 <= i < a.len() ==> {
            &&& (#[trigger] a[i]).0 <= a[i].1 <= hi
            &&& a[i].2 <= a[i].3 <= hi
        }
}

fn is_alnum(c: char) -> (b: bool)
    ensures
        b == is_ascii_alnum(c),
{
    ('0' <= c && c <= '9') || ('a' <= c && c <= 'z') || ('A' <= c && c <= 'Z')
}

fn id_prefix_in(v: &Vec<char>, lo: usize, hi: usize) -> (b: bool)
    requires
        lo <= hi <= v@.len(),
    ensures
        b == id_prefix(v@.subrange(lo as int, hi as int)),
{
    let ghost p = v@.subrange(lo as int, hi as int);
    if hi - lo < 3 || hi - lo > 5 || v[lo] != '#' {
        return false;
    }
    let mut i = lo + 1;
    while i < hi
        invariant
            lo < i <= hi <= v@.len(),
            p == v@.subrange(lo as int, hi as int),
            forall|j: int| 1 <= j < i - lo ==> is_ascii_alnum(#[trigger] p[j]),
        decreases hi - i,
    {
        if !is_alnum(v[i]) {
            assert(!is_ascii_alnum(p[i - lo]));
            return false;
        }
        i = i + 1;
    }
    true
}

/// The entry of the line `v[lo..hi]`, as index ranges.
fn entry_ranges(v: &Vec<char>, lo: usize, hi: usize) -> (r: Option<(usize, usize, usize, usize)>)
    requires
        lo <= hi <= v@.len(),
    ensures
        match r {
            None => entry(v@.subrange(lo as int, hi as int)) is None,
            Some(t) => t.0 <= t.1 <= hi && t.2 <= t.3 <= hi && entry(v@.subrange(lo as int, hi as int))
                == Some((v@.subrange(t.0 as int, t.1 as int), v@.subrange(t.2 as int, t.3 as int))),
        },
{
    let ghost raw = v@.subrange(lo as int, hi as int);
    let p = find_char_in(v, lo, hi, ':');
    let (a, b) = if p < hi && id_prefix_in(v, lo, p) {
        assert(raw.take(p - lo) =~= v@.subrange(lo as int, p as int));
        assert(raw.skip(p - lo + 1) =~= v@.subrange(p + 1, hi as int));
        (skip_ws(v, p + 1, hi), hi)
    } else {
        if p < hi {
            assert(raw.take(p - lo) =~= v@.subrange(lo as int, p as int));
        }
        trim_range(v, lo, hi)
    };
    let ghost line = v@.subrange(a as int, b as int);
    assert(line == entry_text(raw));
    let e = find_char_in(v, a, b, '=');
    if e == b {
        return None;
    }
    assert(line.take(e - a) =~= v@.subrange(a as int, e as int));
    assert(line.skip(e - a + 1) =~= v@.subrange(e + 1, b as int));
    let (k0, k1) = trim_range(v, a, e);
    let gt = crate::text::str_to_chars("glyph.text");
    if crate::text::range_eq_str(v, k0, k1, &gt) {
        Some((k0, k1, e + 1, b))
    } else {
        let (v0, v1) = trim_range(v, e + 1, b);
        Some((k0, k1, v0, v1))
    }
}

/// The entries of a configuration text, as index ranges into its characters.
fn extract_kv(v: &Vec<char>) -> (a: Vec<(usize, usize, usize, usize)>)
    ensures
        ranges_in(a@, v@.len() as int),
        range_views(v@, a@) == entries(lines(v@)),
{
    let hi = v.len();
    let mut a: Vec<(usize, usize, usize, usize)> = Vec::new();
    let mut pos: usize = 0;
    let ghost mut done: Seq<Seq<char>> = seq![];
    assert(v@.subrange(0, hi as int) =~= v@);
    assert(lines(v@) =~= done + lines(v@.subrange(0, hi as int)));
    while pos < hi
        invariant
            pos <= hi == v@.len(),
            ranges_in(a@, hi as int),
            lines(v@) == done + lines(v@.subrange(pos as int, hi as int)),
            range_views(v@, a@) == entries(done),
        decreases hi - pos,
    {
        let (ls, le, next) = next_line(v, pos, hi);
        let ghost l = v@.subrange(ls as int, le as int);
        let ghost a0 = a@;
        assert(done.push(l).drop_last() =~= done);
        match entry_ranges(v, ls, le) {
            Some(t) => {
                a.push(t);
                assert(range_views(v@, a@) =~= range_views(v@, a0).push(
                    (v@.subrange(t.0 as int, t.1 as int), v@.subrange(t.2 as int, t.3 as int)),
                ));
                assert(entries(done.push(l)) =~= entries(done) + seq![
                    (v@.subrange(t.0 as int, t.1 as int), v@.subrange(t.2 as int, t.3 as int)),
                ]);
            },
            None => {
                assert(entries(done.push(l)) =~= entries(done) + Seq::<(Seq<char>, Seq<char>)>::empty());
            },
        }
        assert(done + lines(v@.subrange(pos as int, hi as int)) =~= done.push(l) + lines(
            v@.subrange(next as int, hi as int),
        ));
        proof {
            done = done.push(l);
        }
        pos = next;
    }
    assert(lines(v@.subrange(pos as int, hi as int)) =~= Seq::<Seq<char>>::empty());
    assert(done + Seq::<Seq<char>>::empty() =~= done);
    a
}

// ---------------------------------------------------------------------------
// Typed values
// ---------------------------------------------------------------------------

pub open spec fn msg_invalid(key: Seq<char>, v: Seq<char>) -> Seq<char> {
    "invalid "@ + key + ": "@ + v
}

pub open spec fn cfg_u32(kv: Seq<(Seq<char>, Seq<char>)>, key: Seq<char>, default: u32) -> Result<
    u32,
    ErrorView,
> {
    match value_of(kv, key) {
        None => Ok(default),
        Some(v) => match parse_u32(v) {
            Some(x) => Ok(x),
            None => Err(ErrorView::Config(msg_invalid(key, v))),
        },
    }
}

pub open spec fn cfg_i32(kv: Seq<(Seq<char>, Seq<char>)>, key: Seq<char>, default: i32) -> Result<
    i32,
    ErrorView,
> {
    match value_of(kv, key) {
        None => Ok(default),
        Some(v) => match parse_i32(v) {
            Some(x) => Ok(x),
            None => Err(ErrorView::Config(msg_invalid(key, v))),
        },
    }
}

pub open spec fn cfg_bool(kv: Seq<(Seq<char>, Seq<char>)>, key: Seq<char>, default: bool) -> Result<
    bool,
    ErrorView,
> {
    match value_of(kv, key) {
        None => Ok(default),
        Some(v) => if v == "true"@ {
            Ok(true)
        } else if v == "false"@ {
            Ok(false)
        } else {
            Err(ErrorView::Config(msg_invalid(key, v)))
        },
    }
}

/// A real-valued setting, kept as its text once it is known to parse.
pub open spec fn cfg_f32(kv: Seq<(Seq<char>, Seq<char>)>, key: Seq<char>, default: Seq<char>) -> Result<
    Seq<char>,
    ErrorView,
> {
    match value_of(kv, key) {
        None => Ok(default),
        Some(v) => if f32_text(v) {
            Ok(v)
        } else {
            Err(ErrorView::Config(msg_invalid(key, v)))
        },
    }
}

fn value_range(v: &Vec<char>, a: &Vec<(usize, usize, usize, usize)>, key: &Vec<char>) -> (r: Option<
    (usize, usize),
>)
    requires
        ranges_in(a@, v@.len() as int),
    ensures
        match r {
            None => value_of(range_views(v@, a@), key@) is None,
            Some(t) => t.0 <= t.1 <= v@.len() && value_of(range_views(v@, a@), key@) == Some(
                v@.subrange(t.0 as int, t.1 as int),
            ),
        },
{
    let mut i = a.len();
    assert(a@.take(i as int) =~= a@);
    while i > 0
        invariant
            i <= a@.len(),
            ranges_in(a@, v@.len() as int),
            value_of(range_views(v@, a@), key@) == value_of(range_views(v@, a@.take(i as int)), key@),
        decreases i,
    {
        let t = a[i - 1];
        assert(range_views(v@, a@.take(i as int)).drop_last() =~= range_views(v@, a@.take(i - 1)));
        assert(range_views(v@, a@.take(i as int)).last() == range_views(v@, a@)[i - 1]);
        if range_eq_str(v, t.0, t.1, key) {
            return Some((t.2, t.3));
        }
        i = i - 1;
    }
    assert(range_views(v@, a@.take(0)) =~= Seq::<(Seq<char>, Seq<char>)>::empty());
    None
}

fn invalid_msg(key: &str, v: &Vec<char>, lo: usize, hi: usize) -> (m: String)
    requires
        lo <= hi <= v@.len(),
    ensures
        m@ == msg_invalid(key@, v@.subrange(lo as int, hi as int)),
{
    let mut m = String::new();
    push_str(&mut m, "invalid ");
    push_str(&mut m, key);
    push_str(&mut m, ": ");
    push_range(&mut m, v, lo, hi);
    assert(m@ =~= msg_invalid(key@, v@.subrange(lo as int, hi as int)));
    m
}

fn get_u32(v: &Vec<char>, a: &Vec<(usize, usize, usize, usize)>, key: &str, default: u32) -> (r: Result<
    u32,
    FontbakeError,
>)
    requires
        ranges_in(a@, v@.len() as int),
    ensures
        match r {
            Ok(x) => cfg_u32(range_views(v@, a@), key@, default) == Ok::<u32, ErrorView>(x),
            Err(e) => cfg_u32(range_views(v@, a@), key@, default) == Err::<u32, ErrorView>(e@),
        },
{
    let kc = str_to_chars(key);
    match value_range(v, a, &kc) {
        None => Ok(default),
        Some((lo, hi)) => match parse_u32_range(v, lo, hi) {
            Some(x) => Ok(x),
            None => Err(FontbakeError::Config(invalid_msg(key, v, lo, hi))),
        },
    }
}

fn get_i32(v: &Vec<char>, a: &Vec<(usize, usize, usize, usize)>, key: &str, default: i32) -> (r: Result<
    i32,
    FontbakeError,
>)
    requires
        ranges_in(a@, v@.len() as int),
    ensures
        match r {
            Ok(x) => cfg_i32(range_views(v@, a@), key@, default) == Ok::<i32, ErrorView>(x),
            Err(e) => cfg_i32(range_views(v@, a@), key@, default) == Err::<i32, ErrorView>(e@),
        },
{
    let kc = str_to_chars(key);
    match value_range(v, a, &kc) {
        None => Ok(default),
        Some((lo, hi)) => match parse_i32_range(v, lo, hi) {
            Some(x) => Ok(x),
            None => Err(FontbakeError::Config(invalid_msg(key, v, lo, hi))),
        },
    }
}

fn get_bool(v: &Vec<char>, a: &Vec<(usize, usize, usize, usize)>, key: &str, default: bool) -> (r: Result<
    bool,
    FontbakeError,
>)
    requires
        ranges_in(a@, v@.len() as int),
    ensures
        match r {
            Ok(x) => cfg_bool(range_views(v@, a@), key@, default) == Ok::<bool, ErrorView>(x),
            Err(e) => cfg_bool(range_views(v@, a@), key@, default) == Err::<bool, ErrorView>(e@),
        },
{
    let kc = str_to_chars(key);
    match value_range(v, a, &kc) {
        None => Ok(default),
        Some((lo, hi)) => {
            let t = str_to_chars("true");
            let f = str_to_chars("false");
            if range_eq_str(v, lo, hi, &t) {
                Ok(true)
            } else if range_eq_str(v, lo, hi, &f) {
                Ok(false)
            } else {
                Err(FontbakeError::Config(invalid_msg(key, v, lo, hi)))
            }
        },
    }
}

fn get_f32(v: &Vec<char>, a: &Vec<(usize, usize, usize, usize)>, key: &str, default: &str) -> (r: Result<
    String,
    FontbakeError,
>)
    requires
        ranges_in(a@, v@.len() as int),
    ensures
        match r {
            Ok(x) => cfg_f32(range_views(v@, a@), key@, default@) == Ok::<Seq<char>, ErrorView>(x@),
            Err(e) => cfg_f32(range_views(v@, a@), key@, default@) == Err::<Seq<char>, ErrorView>(e@),
        },
{
    let kc = str_to_chars(key);
    match value_range(v, a, &kc) {
        None => Ok(crate::source::bmfont_text::str_to_string(default)),
        Some((lo, hi)) => if f32_text_in(v, lo, hi) {
            Ok(string_from_range(v, lo, hi))
        } else {
            Err(FontbakeError::Config(invalid_msg(key, v, lo, hi)))
        },
    }
}

// ---------------------------------------------------------------------------
// Fallback fonts
// ---------------------------------------------------------------------------

pub open spec fn fallback_key(i: nat) -> Seq<char> {
    "fallback.font."@ + dec(i)
}

/// The values of `fallback.font.i`, `fallback.font.i+1`, ... up to the first
/// missing one. (No configuration holds more keys than entries, so the
/// bound on `i` never cuts the list short; see `lemma_fallbacks_contiguous`.)
pub open spec fn fallbacks_from(kv: Seq<(Seq<char>, Seq<char>)>, i: nat) -> Seq<Seq<char>>
    decreases kv.len() + 1 - i,
{
    if i > kv.len() {
        seq![]
    } else {
        match value_of(kv, fallback_key(i)) {
            None => seq![],
            Some(p) => seq![p] + fallbacks_from(kv, i + 1),
        }
    }
}

proof fn lemma_value_of_index(kv: Seq<(Seq<char>, Seq<char>)>, key: Seq<char>)
    requires
        value_of(kv, key) is Some,
    ensures
        exists|t: int| 0 <= t < kv.len() && (#[trigger] kv[t]).0 == key,
    decreases kv.len(),
{
    if kv.last().0 != key {
        lemma_value_of_index(kv.drop_last(), key);
        let t = choose|t: int| 0 <= t < kv.drop_last().len() && (#[trigger] kv.drop_last()[t]).0 == key;
        assert(kv[t] == kv.drop_last()[t]);
    } else {
        assert(kv[kv.len() - 1].0 == key);
    }
}

proof fn lemma_fallback_key_injective(a: nat, b: nat)
    requires
        fallback_key(a) == fallback_key(b),
    ensures
        a == b,
{
    reveal_strlit("fallback.font.");
    assert(fallback_key(a).skip(14) =~= dec(a));
    assert(fallback_key(b).skip(14) =~= dec(b));
    crate::num::lemma_dec(a);
    crate::num::lemma_dec(b);
}

/// No more distinct fallback keys can be present than there are entries.
proof fn lemma_fallback_bound(kv: Seq<(Seq<char>, Seq<char>)>, i: nat)
    requires
        forall|j: nat| j < i ==> (#[trigger] value_of(kv, fallback_key(j))) is Some,
    ensures
        i <= kv.len(),
{
    let f = |j: int| choose|t: int| 0 <= t < kv.len() && (#[trigger] kv[t]).0 == fallback_key(j as nat);
    let x = vstd::set_lib::set_int_range(0, i as int);
    assert forall|j: int| x.contains(j) implies 0 <= #[trigger] f(j) < kv.len() && kv[f(j)].0
        == fallback_key(j as nat) by {
        assert(value_of(kv, fallback_key(j as nat)) is Some);
        lemma_value_of_index(kv, fallback_key(j as nat));
    }
    assert(vstd::relations::injective_on(f, x)) by {
        assert forall|a: int, b: int| x.contains(a) && x.contains(b) && #[trigger] f(a) == #[trigger] f(b) implies a == b by {
            lemma_fallback_key_injective(a as nat, b as nat);
        }
    }
    let y = x.map(f);
    let z = vstd::set_lib::set_int_range(0, kv.len() as int);
    vstd::set_lib::lemma_int_range(0, i as int);
    vstd::set_lib::lemma_int_range(0, kv.len() as int);
    vstd::set_lib::lemma_map_size(x, y, f);
    assert(y.subset_of(z));
    vstd::set_lib::lemma_len_subset(y, z);
}

proof fn lemma_fallbacks_from(kv: Seq<(Seq<char>, Seq<char>)>, i: nat)
    requires
        forall|j: nat| j < i ==> (#[trigger] value_of(kv, fallback_key(j))) is Some,
    ensures
        forall|j: int|
            0 <= j < fallbacks_from(kv, i).len() ==> value_of(kv, fallback_key((i + j) as nat))
                == Some(#[trigger] fallbacks_from(kv, i)[j]),
        value_of(kv, fallback_key(i + fallbacks_from(kv, i).len())) is None,
    decreases kv.len() + 1 - i,
{
    lemma_fallback_bound(kv, i);
    match value_of(kv, fallback_key(i)) {
        None => {},
        Some(p) => {
            assert forall|j: nat| j < i + 1 implies (#[trigger] value_of(kv, fallback_key(j))) is Some by {
                if j < i {
                }
            }
            lemma_fallbacks_from(kv, i + 1);
            let fs = fallbacks_from(kv, i);
            let rest = fallbacks_from(kv, i + 1);
            assert forall|j: int| 0 <= j < fs.len() implies value_of(kv, fallback_key((i + j) as nat))
                == Some(#[trigger] fs[j]) by {
                if j > 0 {
                    assert(fs[j] == rest[j - 1]);
                    assert((i + j) as nat == ((i + 1) + (j - 1)) as nat);
                }
            }
            assert(i + fs.len() == (i + 1) + rest.len());
        },
    }
}

/// The fallback fonts are `fallback.font.0`, `fallback.font.1`, ... in
/// order, up to the first number that is missing.
pub proof fn lemma_fallbacks_contiguous(kv: Seq<(Seq<char>, Seq<char>)>)
    ensures
        forall|j: int|
            0 <= j < fallbacks_from(kv, 0).len() ==> value_of(kv, fallback_key(j as nat)) == Some(
                #[trigger] fallbacks_from(kv, 0)[j],
            ),
        value_of(kv, fallback_key(fallbacks_from(kv, 0).len())) is None,
{
    lemma_fallbacks_from(kv, 0);
    assert forall|j: int| 0 <= j < fallbacks_from(kv, 0).len() implies value_of(
        kv,
        fallback_key(j as nat),
    ) == Some(#[trigger] fallbacks_from(kv, 0)[j]) by {
        assert((0 + j) as nat == j as nat);
    }
}

fn fallback_key_chars(i: usize) -> (k: Vec<char>)
    ensures
        k@ == fallback_key(i as nat),
{
    let mut s = String::new();
    push_str(&mut s, "fallback.font.");
    push_dec(&mut s, i as u64);
    str_to_chars(s.as_str())
}

fn get_fallbacks(v: &Vec<char>, a: &Vec<(usize, usize, usize, usize)>) -> (paths: Vec<String>)
    requires
        ranges_in(a@, v@.len() as int),
    ensures
        paths@.map_values(|p: String| p@) == fallbacks_from(range_views(v@, a@), 0),
{
    let ghost kv = range_views(v@, a@);
    let mut paths: Vec<String> = Vec::new();
    let mut i: usize = 0;
    let n = a.len();
    assert(paths@.map_values(|p: String| p@) + fallbacks_from(kv, 0) =~= fallbacks_from(kv, 0));
    loop
        invariant
            n == a@.len(),
            kv == range_views(v@, a@),
            ranges_in(a@, v@.len() as int),
            i <= kv.len(),
            kv.len() == a@.len(),
            forall|j: nat| j < i ==> (#[trigger] value_of(kv, fallback_key(j))) is Some,
            fallbacks_from(kv, 0) == paths@.map_values(|p: String| p@) + fallbacks_from(kv, i as nat),
        ensures
            paths@.map_values(|p: String| p@) == fallbacks_from(kv, 0),
        decreases kv.len() + 1 - i,
    {
        let key = fallback_key_chars(i);
        match value_range(v, a, &key) {
            None => {
                assert(paths@.map_values(|p: String| p@) + fallbacks_from(kv, i as nat)
                    =~= paths@.map_values(|p: String| p@));
                break;
            },
            Some((lo, hi)) => {
                let ghost pv = paths@.map_values(|p: String| p@);
                let p = string_from_range(v, lo, hi);
                paths.push(p);
                assert(paths@.map_values(|p: String| p@) =~= pv.push(p@));
                assert(pv + fallbacks_from(kv, i as nat) =~= pv.push(p@) + fallbacks_from(
                    kv,
                    (i + 1) as nat,
                ));
                assert forall|j: nat| j < i + 1 implies (#[trigger] value_of(kv, fallback_key(j))) is Some by {
                    if j < i {
                    }
                }
                proof {
                    lemma_fallback_bound(kv, (i + 1) as nat);
                }
                i = i + 1;
            },
        }
    }
    paths
}

// ---------------------------------------------------------------------------
// Render type and effects
// ---------------------------------------------------------------------------

/// The error that the `render_type` setting raises, if any: only `0` (the
/// Java path) is supported.
pub open spec fn render_error(kv: Seq<(Seq<char>, Seq<char>)>) -> Option<ErrorView> {
    match value_of(kv, "render_type"@) {
        None => None,
        Some(v) => match parse_u32(v) {
            None => Some(ErrorView::Config(msg_invalid("render_type"@, v))),
            Some(n) => if n != 0 {
                Some(
                    ErrorView::Unsupported(
                        "render_type="@ + dec(n as nat) + " is not supported (only 0 / Java path)"@,
                    ),
                )
            } else {
                None
            },
        },
    }
}

/// The class name after the last `.`.
pub open spec fn short_name(c: Seq<char>) -> Seq<char>
    decreases c.len(),
{
    match find_char(c, '.') {
        None => c,
        Some(d) => {
            proof {
                crate::text::lemma_find_char(c, '.');
            }
            short_name(c.skip(d + 1))
        },
    }
}

/// The effects of the configuration: none without `effect.class`, else the
/// one distance-field effect, the only class supported.
pub open spec fn effects_of(kv: Seq<(Seq<char>, Seq<char>)>) -> Result<Seq<EffectView>, ErrorView> {
    match value_of(kv, "effect.class"@) {
        None => Ok(seq![]),
        Some(c) => if short_name(c) == "DistanceFieldEffect"@ {
            match cfg_u32(kv, "effect.Scale"@, 32) {
                Err(e) => Err(e),
                Ok(scale) => match cfg_f32(kv, "effect.Spread"@, "3.5"@) {
                    Err(e) => Err(e),
                    Ok(spread) => Ok(
                        seq![
                            EffectView::DistanceField {
                                color: match value_of(kv, "effect.Color"@) {
                                    Some(x) => x,
                                    None => "ffffff"@,
                                },
                                scale,
                                spread,
                            },
                        ],
                    ),
                },
            }
        } else {
            Err(
                ErrorView::Unsupported(
                    "effect class '"@ + short_name(c)
                        + "' is not supported in v1 (only DistanceFieldEffect)"@,
                ),
            )
        },
    }
}

proof fn lemma_short_name_last(c: Seq<char>, k: int)
    requires
        -1 <= k < c.len(),
        k >= 0 ==> c[k] == '.',
        forall|j: int| k < j < c.len() ==> c[j] != '.',
    ensures
        short_name(c) == c.skip(k + 1),
    decreases c.len(),
{
    crate::text::lemma_find_char(c, '.');
    match find_char(c, '.') {
        None => {
            if k >= 0 {
                assert(c[k] == '.');
            }
            assert(c.skip(0) =~= c);
        },
        Some(d) => {
            assert(d <= k) by {
                if d > k {
                    assert(c[d] == '.');
                }
            }
            let t = c.skip(d + 1);
            assert forall|j: int| k - d - 1 < j < t.len() implies t[j] != '.' by {
                assert(t[j] == c[j + d + 1]);
            }
            if k > d {
                assert(t[k - d - 1] == c[k]);
            }
            lemma_short_name_last(t, k - d - 1);
            assert(t.skip(k - d) =~= c.skip(k + 1));
        },
    }
}

/// `v[lo..hi]` after its last `.`, as a start index.
fn short_name_start(v: &Vec<char>, lo: usize, hi: usize) -> (r: usize)
    requires
        lo <= hi <= v@.len(),
    ensures
        lo <= r <= hi,
        short_name(v@.subrange(lo as int, hi as int)) == v@.subrange(r as int, hi as int),
{
    let ghost c = v@.subrange(lo as int, hi as int);
    let mut i = hi;
    while i > lo
        invariant
            lo <= i <= hi <= v@.len(),
            c == v@.subrange(lo as int, hi as int),
            forall|j: int| i - lo <= j < c.len() ==> c[j] != '.',
        decreases i - lo,
    {
        if v[i - 1] == '.' {
            proof {
                lemma_short_name_last(c, i - 1 - lo);
            }
            assert(c.skip(i - lo) =~= v@.subrange(i as int, hi as int));
            return i;
        }
        i = i - 1;
    }
    proof {
        lemma_short_name_last(c, -1);
    }
    assert(c.skip(0) =~= v@.subrange(lo as int, hi as int));
    lo
}

fn render_check(v: &Vec<char>, a: &Vec<(usize, usize, usize, usize)>) -> (r: Option<FontbakeError>)
    requires
        ranges_in(a@, v@.len() as int),
    ensures
        match r {
            None => render_error(range_views(v@, a@)) is None,
            Some(e) => render_error(range_views(v@, a@)) == Some(e@),
        },
{
    let key = str_to_chars("render_type");
    match value_range(v, a, &key) {
        None => None,
        Some((lo, hi)) => match parse_u32_range(v, lo, hi) {
            None => Some(FontbakeError::Config(invalid_msg("render_type", v, lo, hi))),
            Some(n) => if n != 0 {
                let mut m = String::new();
                push_str(&mut m, "render_type=");
                push_dec(&mut m, n as u64);
                push_str(&mut m, " is not supported (only 0 / Java path)");
                assert(m@ =~= "render_type="@ + dec(n as nat) + " is not supported (only 0 / Java path)"@);
                Some(FontbakeError::Unsupported(m))
            } else {
                None
            },
        },
    }
}

fn get_effects(v: &Vec<char>, a: &Vec<(usize, usize, usize, usize)>) -> (r: Result<
    Vec<EffectSpec>,
    FontbakeError,
>)
    requires
        ranges_in(a@, v@.len() as int),
    ensures
        match r {
            Ok(es) => effects_of(range_views(v@, a@)) == Ok::<Seq<EffectView>, ErrorView>(
                es@.map_values(|e: EffectSpec| e@),
            ),
            Err(e) => effects_of(range_views(v@, a@)) == Err::<Seq<EffectView>, ErrorView>(e@),
        },
{
    let key = str_to_chars("effect.class");
    let (lo, hi) = match value_range(v, a, &key) {
        None => {
            let es: Vec<EffectSpec> = Vec::new();
            assert(es@.map_values(|e: EffectSpec| e@) =~= Seq::<EffectView>::empty());
            return Ok(es);
        },
        Some(t) => t,
    };
    let s = short_name_start(v, lo, hi);
    let dfe = str_to_chars("DistanceFieldEffect");
    if !range_eq_str(v, s, hi, &dfe) {
        let mut m = String::new();
        push_str(&mut m, "effect class '");
        push_range(&mut m, v, s, hi);
        push_str(&mut m, "' is not supported in v1 (only DistanceFieldEffect)");
        assert(m@ =~= "effect class '"@ + v@.subrange(s as int, hi as int)
            + "' is not supported in v1 (only DistanceFieldEffect)"@);
        return Err(FontbakeError::Unsupported(m));
    }
    let ckey = str_to_chars("effect.Color");
    let color = match value_range(v, a, &ckey) {
        Some((c0, c1)) => string_from_range(v, c0, c1),
        None => crate::source::bmfont_text::str_to_string("ffffff"),
    };
    let scale = match get_u32(v, a, "effect.Scale", 32) {
        Ok(x) => x,
        Err(e) => {
            return Err(e);
        },
    };
    let spread = match get_f32(v, a, "effect.Spread", "3.5") {
        Ok(x) => x,
        Err(e) => {
            return Err(e);
        },
    };
    let mut es: Vec<EffectSpec> = Vec::new();
    es.push(EffectSpec::DistanceField { color, scale, spread });
    assert(es@.map_values(|e: EffectSpec| e@) =~= seq![es@[0]@]);
    Ok(es)
}

// ---------------------------------------------------------------------------
// The build configuration
// ---------------------------------------------------------------------------

/// The entries of a configuration text.
pub open spec fn config_entries(input: Seq<char>) -> Seq<(Seq<char>, Seq<char>)> {
    entries(lines(input))
}

pub open spec fn text_or_empty(kv: Seq<(Seq<char>, Seq<char>)>, key: Seq<char>) -> Seq<char> {
    match value_of(kv, key) {
        Some(x) => x,
        None => seq![],
    }
}

/// Size, bold, italic, gamma and mono, read in this order.
pub open spec fn basics(kv: Seq<(Seq<char>, Seq<char>)>) -> Result<
    (u32, bool, bool, Seq<char>, bool),
    ErrorView,
> {
    match cfg_u32(kv, "font.size"@, 52) {
        Err(e) => Err(e),
        Ok(size) => match cfg_bool(kv, "font.bold"@, false) {
            Err(e) => Err(e),
            Ok(bold) => match cfg_bool(kv, "font.italic"@, false) {
                Err(e) => Err(e),
                Ok(italic) => match cfg_f32(kv, "font.gamma"@, "1.8"@) {
                    Err(e) => Err(e),
                    Ok(gamma) => match cfg_bool(kv, "font.mono"@, false) {
                        Err(e) => Err(e),
                        Ok(mono) => Ok((size, bold, italic, gamma, mono)),
                    },
                },
            },
        },
    }
}

pub open spec fn padding_of(kv: Seq<(Seq<char>, Seq<char>)>) -> Result<Padding, ErrorView> {
    match cfg_i32(kv, "pad.top"@, 0) {
        Err(e) => Err(e),
        Ok(top) => match cfg_i32(kv, "pad.right"@, 0) {
            Err(e) => Err(e),
            Ok(right) => match cfg_i32(kv, "pad.bottom"@, 0) {
                Err(e) => Err(e),
                Ok(bottom) => match cfg_i32(kv, "pad.left"@, 0) {
                    Err(e) => Err(e),
                    Ok(left) => Ok(Padding { top, right, bottom, left }),
                },
            },
        },
    }
}

pub open spec fn advance_of(kv: Seq<(Seq<char>, Seq<char>)>) -> Result<AdvanceAdjust, ErrorView> {
    match cfg_i32(kv, "pad.advance.x"@, 0) {
        Err(e) => Err(e),
        Ok(x) => match cfg_i32(kv, "pad.advance.y"@, 0) {
            Err(e) => Err(e),
            Ok(y) => Ok(AdvanceAdjust { x, y }),
        },
    }
}

pub open spec fn page_size_of(kv: Seq<(Seq<char>, Seq<char>)>) -> Result<(u32, u32), ErrorView> {
    match cfg_u32(kv, "glyph.page.width"@, 1024) {
        Err(e) => Err(e),
        Ok(w) => match cfg_u32(kv, "glyph.page.height"@, 1024) {
            Err(e) => Err(e),
            Ok(h) => Ok((w, h)),
        },
    }
}

/// The build configuration that a `.hiero` text describes, or the first
/// error it raises: the render type, then the settings in the order above,
/// then the effect.
pub open spec fn spec_parse_hiero(input: Seq<char>) -> Result<BuildSpecView, ErrorView> {
    let kv = config_entries(input);
    match render_error(kv) {
        Some(e) => Err(e),
        None => match basics(kv) {
            Err(e) => Err(e),
            Ok(b) => match padding_of(kv) {
                Err(e) => Err(e),
                Ok(padding) => match advance_of(kv) {
                    Err(e) => Err(e),
                    Ok(advance_adjust) => match page_size_of(kv) {
                        Err(e) => Err(e),
                        Ok(ps) => match effects_of(kv) {
                            Err(e) => Err(e),
                            Ok(effects) => Ok(
                                BuildSpecView {
                                    font_name: text_or_empty(kv, "font.name"@),
                                    primary_font_path: text_or_empty(kv, "font2.file"@),
                                    fallback_font_paths: fallbacks_from(kv, 0),
                                    font_size: b.0,
                                    bold: b.1,
                                    italic: b.2,
                                    gamma: b.3,
                                    mono: b.4,
                                    padding,
                                    advance_adjust,
                                    page_width: ps.0,
                                    page_height: ps.1,
                                    glyph_text: text_or_empty(kv, "glyph.text"@),
                                    render_mode: RenderMode::Java,
                                    effects,
                                },
                            ),
                        },
                    },
                },
            },
        },
    }
}

fn get_text(v: &Vec<char>, a: &Vec<(usize, usize, usize, usize)>, key: &str) -> (s: String)
    requires
        ranges_in(a@, v@.len() as int),
    ensures
        s@ == text_or_empty(range_views(v@, a@), key@),
{
    let kc = str_to_chars(key);
    match value_range(v, a, &kc) {
        Some((lo, hi)) => string_from_range(v, lo, hi),
        None => String::new(),
    }
}


/// A whole-number setting holds the last number given for its key, or the
/// default where the key is absent.
pub open spec fn u32_setting(kv: Seq<(Seq<char>, Seq<char>)>, key: Seq<char>, default: u32, x: u32) -> bool {
    match value_of(kv, key) {
        None => x == default,
        Some(v) => parse_u32(v) == Some(x),
    }
}

pub open spec fn i32_setting(kv: Seq<(Seq<char>, Seq<char>)>, key: Seq<char>, default: i32, x: i32) -> bool {
    match value_of(kv, key) {
        None => x == default,
        Some(v) => parse_i32(v) == Some(x),
    }
}

pub open spec fn bool_setting(kv: Seq<(Seq<char>, Seq<char>)>, key: Seq<char>, default: bool, x: bool) -> bool {
    match value_of(kv, key) {
        None => x == default,
        Some(v) => (v == "true"@ && x) || (v == "false"@ && !x),
    }
}

pub open spec fn text_setting(kv: Seq<(Seq<char>, Seq<char>)>, key: Seq<char>, x: Seq<char>) -> bool {
    match value_of(kv, key) {
        None => x == Seq::<char>::empty(),
        Some(v) => x == v,
    }
}

/// Each setting of a parsed configuration comes from its own key: it is the
/// last value given for that key in the configuration's entries, or the
/// setting's default where the key is absent.
pub proof fn lemma_settings_come_from_their_keys(input: Seq<char>)
    requires
        spec_parse_hiero(input) is Ok,
    ensures
        ({
            let b = spec_parse_hiero(input)->Ok_0;
            let kv = config_entries(input);
            &&& text_setting(kv, "font.name"@, b.font_name)
            &&& text_setting(kv, "font2.file"@, b.primary_font_path)
            &&& u32_setting(kv, "font.size"@, 52, b.font_size)
            &&& bool_setting(kv, "font.bold"@, false, b.bold)
            &&& bool_setting(kv, "font.italic"@, false, b.italic)
            &&& bool_setting(kv, "font.mono"@, false, b.mono)
            &&& i32_setting(kv, "pad.top"@, 0, b.padding.top)
            &&& i32_setting(kv, "pad.right"@, 0, b.padding.right)
            &&& i32_setting(kv, "pad.bottom"@, 0, b.padding.bottom)
            &&& i32_setting(kv, "pad.left"@, 0, b.padding.left)
            &&& i32_setting(kv, "pad.advance.x"@, 0, b.advance_adjust.x)
            &&& i32_setting(kv, "pad.advance.y"@, 0, b.advance_adjust.y)
            &&& u32_setting(kv, "glyph.page.width"@, 1024, b.page_width)
            &&& u32_setting(kv, "glyph.page.height"@, 1024, b.page_height)
            &&& text_setting(kv, "glyph.text"@, b.glyph_text)
        }),
{
}

/// Parse the text of a `.hiero` file into a [`BuildSpec`]. Font paths are
/// returned as they are written.
pub fn parse_hiero(input: &str) -> (r: Result<BuildSpec, FontbakeError>)
    requires
        !config_panics(input@),
    ensures
        match r {
            Ok(b) => spec_parse_hiero(input@) == Ok::<BuildSpecView, ErrorView>(b@),
            Err(e) => spec_parse_hiero(input@) == Err::<BuildSpecView, ErrorView>(e@),
        },
{
    let v = str_to_chars(input);
    let a = extract_kv(&v);
    let ghost kv = range_views(v@, a@);
    assert(kv == config_entries(input@));
    if let Some(e) = render_check(&v, &a) {
        return Err(e);
    }
    let font_size = match get_u32(&v, &a, "font.size", 52) {
        Ok(x) => x,
        Err(e) => {
            return Err(e);
        },
    };
    let bold = match get_bool(&v, &a, "font.bold", false) {
        Ok(x) => x,
        Err(e) => {
            return Err(e);
        },
    };
    let italic = match get_bool(&v, &a, "font.italic", false) {
        Ok(x) => x,
        Err(e) => {
            return Err(e);
        },
    };
    let gamma = match get_f32(&v, &a, "font.gamma", "1.8") {
        Ok(x) => x,
        Err(e) => {
            return Err(e);
        },
    };
    let mono = match get_bool(&v, &a, "font.mono", false) {
        Ok(x) => x,
        Err(e) => {
            return Err(e);
        },
    };
    let top = match get_i32(&v, &a, "pad.top", 0) {
        Ok(x) => x,
        Err(e) => {
            return Err(e);
        },
    };
    let right = match get_i32(&v, &a, "pad.right", 0) {
        Ok(x) => x,
        Err(e) => {
            return Err(e);
        },
    };
    let bottom = match get_i32(&v, &a, "pad.bottom", 0) {
        Ok(x) => x,
        Err(e) => {
            return Err(e);
        },
    };
    let left = match get_i32(&v, &a, "pad.left", 0) {
        Ok(x) => x,
        Err(e) => {
            return Err(e);
        },
    };
    let ax = match get_i32(&v, &a, "pad.advance.x", 0) {
        Ok(x) => x,
        Err(e) => {
            return Err(e);
        },
    };
    let ay = match get_i32(&v, &a, "pad.advance.y", 0) {
        Ok(x) => x,
        Err(e) => {
            return Err(e);
        },
    };
    let page_width = match get_u32(&v, &a, "glyph.page.width", 1024) {
        Ok(x) => x,
        Err(e) => {
            return Err(e);
        },
    };
    let page_height = match get_u32(&v, &a, "glyph.page.height", 1024) {
        Ok(x) => x,
        Err(e) => {
            return Err(e);
        },
    };
    let effects = match get_effects(&v, &a) {
        Ok(x) => x,
        Err(e) => {
            return Err(e);
        },
    };
    let spec = BuildSpec {
        font_name: get_text(&v, &a, "font.name"),
        primary_font_path: get_text(&v, &a, "font2.file"),
        fallback_font_paths: get_fallbacks(&v, &a),
        font_size,
        bold,
        italic,
        gamma,
        mono,
        padding: Padding { top, right, bottom, left },
        advance_adjust: AdvanceAdjust { x: ax, y: ay },
        page_width,
        page_height,
        glyph_text: get_text(&v, &a, "glyph.text"),
        render_mode: RenderMode::Java,
        effects,
    };
    Ok(spec)
}

/// Whether reading this configuration text would cut a line inside a
/// character (see [`line_panics`]).
pub fn hiero_input_panics(input: &str) -> (b: bool)
    ensures
        b == config_panics(input@),
{
    let v = str_to_chars(input);
    let hi = v.len();
    let mut pos: usize = 0;
    let ghost mut done: Seq<Seq<char>> = seq![];
    assert(v@.subrange(0, hi as int) =~= v@);
    assert(lines(v@) =~= done + lines(v@.subrange(0, hi as int)));
    while pos < hi
        invariant
            pos <= hi == v@.len(),
            v@ == input@,
            lines(v@) == done + lines(v@.subrange(pos as int, hi as int)),
            forall|i: int| 0 <= i < done.len() ==> !line_panics(#[trigger] done[i]),
        decreases hi - pos,
    {
        let (ls, le, next) = next_line(&v, pos, hi);
        let ghost l = v@.subrange(ls as int, le as int);
        let p = find_char_in(&v, ls, le, ':');
        if p < le && p > ls && (v[ls] as u32) >= 0x80 {
            assert(l[0] == v@[ls as int]);
            assert(lines(v@)[done.len() as int] == l);
            return true;
        }
        assert(!line_panics(l)) by {
            if p < le && p > ls {
                assert(l[0] == v@[ls as int]);
            }
        }
        assert(done + lines(v@.subrange(pos as int, hi as int)) =~= done.push(l) + lines(
            v@.subrange(next as int, hi as int),
        ));
        proof {
            done = done.push(l);
        }
        pos = next;
    }
    assert(lines(v@.subrange(pos as int, hi as int)) =~= Seq::<Seq<char>>::empty());
    assert(lines(v@) =~= done);
    false
}

} // verus!
