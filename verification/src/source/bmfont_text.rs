//! Text BMFont (.fnt) parser.
//!
//! Parses the AngelCode BMFont text format as produced by Hiero / BMFont.
use vstd::prelude::*;
use crate::model::{
    BmFont, BmFontChar, BmFontCommon, BmFontInfo, BmFontKerning, BmFontPage, BmFontView,
    FontbakeError, GlyphRecord, GlyphView, InfoView, PageView, SourceKind,
};
use crate::num::{parse_i32, parse_i32_range, parse_u32, parse_u32_range, dec, push_dec};
use crate::text::{
    find_char, find_char_in, find_ws, find_ws_in, lemma_find_char, lemma_trim_start, lines,
    next_line, push_str, range_eq_str, skip_ws, str_to_chars, string_from_range, trim, trim_range,
    trim_start,
};

verus! {

// ---------------------------------------------------------------------------
// Attribute lists
// ---------------------------------------------------------------------------

/// The `key=value` pairs of the rest of a BMFont line. Values may be quoted
/// (`face="HUN2"`, up to the next quote) or unquoted (`size=52`, up to the
/// next whitespace). Scanning stops at the first chunk without `=`.
pub open spec fn parse_attrs(s: Seq<char>) -> Seq<(Seq<char>, Seq<char>)>
    decreases s.len(),
{
    let t = trim_start(s);
    if t.len() == 0 {
        seq![]
    } else {
        match find_char(t, '=') {
            None => seq![],
            Some(eq) => {
                proof {
                    lemma_trim_start(s);
                    lemma_find_char(t, '=');
                }
                let key = trim(t.take(eq));
                let rest = t.skip(eq + 1);
                if rest.len() > 0 && rest[0] == '"' {
                    let r2 = rest.drop_first();
                    match find_char(r2, '"') {
                        Some(end) => {
                            proof {
                                lemma_find_char(r2, '"');
                            }
                            seq![(key, r2.take(end))] + parse_attrs(r2.skip(end + 1))
                        },
                        None => seq![(key, r2)],
                    }
                } else {
                    match find_ws(rest) {
                        Some(end) => {
                            proof {
                                crate::text::lemma_find_ws(rest);
                            }
                            seq![(key, rest.take(end))] + parse_attrs(rest.skip(end))
                        },
                        None => seq![(key, rest)],
                    }
                }
            },
        }
    }
}

/// Index ranges `(key_lo, key_hi, value_lo, value_hi)` into a character vector.
pub type AttrRanges = Vec<(usize, usize, usize, usize)>;

pub open spec fn attr_views(v: Seq<char>, a: Seq<(usize, usize, usize, usize)>) -> Seq<
    (Seq<char>, Seq<char>),
> {
    a.map_values(
        |t: (usize, usize, usize, usize)|
            (v.subrange(t.0 as int, t.1 as int), v.subrange(t.2 as int, t.3 as int)),
    )
}

pub open spec fn ranges_within(a: Seq<(usize, usize, usize, usize)>, hi: int) -> bool {
    forall|i: int|
        0 <= i < a.len() ==> {
            &&& (#[trigger] a[i]).0 <= a[i].1 <= hi
            &&& a[i].2 <= a[i].3 <= hi
        }
}

fn parse_attrs_range(v: &Vec<char>, lo: usize, hi: usize) -> (a: AttrRanges)
    requires
        lo <= hi <= v@.len(),
    ensures
        ranges_within(a@, hi as int),
        attr_views(v@, a@) == parse_attrs(v@.subrange(lo as int, hi as int)),
{
    let mut a: AttrRanges = Vec::new();
    let mut rem = lo;
    while rem < hi
        invariant
            lo <= rem <= hi <= v@.len(),
            ranges_within(a@, hi as int),
            attr_views(v@, a@) + parse_attrs(v@.subrange(rem as int, hi as int)) == parse_attrs(
                v@.subrange(lo as int, hi as int),
            ),
        decreases hi - rem,
    {
        let ghost s = v@.subrange(rem as int, hi as int);
        let ghost a0 = a@;
        let t = skip_ws(v, rem, hi);
        if t == hi {
            assert(parse_attrs(s) =~= Seq::<(Seq<char>, Seq<char>)>::empty());
            assert(attr_views(v@, a@) + parse_attrs(s) =~= attr_views(v@, a@));
            return a;
        }
        let ghost tt = v@.subrange(t as int, hi as int);
        let eq = find_char_in(v, t, hi, '=');
        if eq == hi {
            assert(parse_attrs(s) =~= Seq::<(Seq<char>, Seq<char>)>::empty());
            assert(attr_views(v@, a@) + parse_attrs(s) =~= attr_views(v@, a@));
            return a;
        }
        let (ks, ke) = trim_range(v, t, eq);
        assert(tt.take(eq - t) =~= v@.subrange(t as int, eq as int));
        let r = eq + 1;
        assert(tt.skip(eq - t + 1) =~= v@.subrange(r as int, hi as int));
        let ghost rest = v@.subrange(r as int, hi as int);
        if r < hi && v[r] == '"' {
            let r2 = r + 1;
            assert(rest.drop_first() =~= v@.subrange(r2 as int, hi as int));
            let end = find_char_in(v, r2, hi, '"');
            if end < hi {
                let ghost r2s = v@.subrange(r2 as int, hi as int);
                assert(r2s.take(end - r2) =~= v@.subrange(r2 as int, end as int));
                assert(r2s.skip(end - r2 + 1) =~= v@.subrange(end + 1, hi as int));
                a.push((ks, ke, r2, end));
                assert(attr_views(v@, a@) =~= attr_views(v@, a0).push(
                    (v@.subrange(ks as int, ke as int), v@.subrange(r2 as int, end as int)),
                ));
                rem = end + 1;
            } else {
                a.push((ks, ke, r2, hi));
                assert(attr_views(v@, a@) =~= attr_views(v@, a0).push(
                    (v@.subrange(ks as int, ke as int), v@.subrange(r2 as int, hi as int)),
                ));
                assert(parse_attrs(v@.subrange(hi as int, hi as int)) =~= Seq::<
                    (Seq<char>, Seq<char>),
                >::empty());
                rem = hi;
            }
        } else {
            let end = find_ws_in(v, r, hi);
            assert(rest.take(end - r) =~= v@.subrange(r as int, end as int));
            assert(rest.skip(end - r) =~= v@.subrange(end as int, hi as int));
            a.push((ks, ke, r, end));
            assert(attr_views(v@, a@) =~= attr_views(v@, a0).push(
                (v@.subrange(ks as int, ke as int), v@.subrange(r as int, end as int)),
            ));
            if end == hi {
                assert(parse_attrs(v@.subrange(hi as int, hi as int)) =~= Seq::<
                    (Seq<char>, Seq<char>),
                >::empty());
            }
            rem = end;
        }
    }
    assert(parse_attrs(v@.subrange(rem as int, hi as int)) =~= Seq::<
        (Seq<char>, Seq<char>),
    >::empty());
    assert(attr_views(v@, a@) + Seq::<(Seq<char>, Seq<char>)>::empty() =~= attr_views(v@, a@));
    a
}

} // verus!

verus! {

// ---------------------------------------------------------------------------
// Attribute lookup and typed values
// ---------------------------------------------------------------------------

/// The value of the first attribute named `key`.
pub open spec fn lookup(attrs: Seq<(Seq<char>, Seq<char>)>, key: Seq<char>) -> Option<Seq<char>>
    decreases attrs.len(),
{
    if attrs.len() == 0 {
        None
    } else if attrs[0].0 == key {
        Some(attrs[0].1)
    } else {
        lookup(attrs.drop_first(), key)
    }
}

pub open spec fn get_str(attrs: Seq<(Seq<char>, Seq<char>)>, key: Seq<char>) -> Seq<char> {
    match lookup(attrs, key) {
        Some(v) => v,
        None => seq![],
    }
}

/// "line N: " for the zero-based line number `n`.
pub open spec fn line_prefix(n: nat) -> Seq<char> {
    "line "@ + dec(n + 1) + ": "@
}

pub open spec fn msg_missing_key(n: nat, key: Seq<char>) -> Seq<char> {
    line_prefix(n) + "missing key '"@ + key + "'"@
}

pub open spec fn get_u32_spec(attrs: Seq<(Seq<char>, Seq<char>)>, key: Seq<char>, n: nat) -> Result<
    u32,
    Seq<char>,
> {
    match lookup(attrs, key) {
        None => Err(msg_missing_key(n, key)),
        Some(v) => match parse_u32(v) {
            Some(x) => Ok(x),
            None => Err(line_prefix(n) + "invalid u32 for '"@ + key + "': "@ + v),
        },
    }
}

pub open spec fn get_i32_spec(attrs: Seq<(Seq<char>, Seq<char>)>, key: Seq<char>, n: nat) -> Result<
    i32,
    Seq<char>,
> {
    match lookup(attrs, key) {
        None => Err(msg_missing_key(n, key)),
        Some(v) => match parse_i32(v) {
            Some(x) => Ok(x),
            None => Err(line_prefix(n) + "invalid i32 for '"@ + key + "': "@ + v),
        },
    }
}

pub open spec fn get_u32_or(attrs: Seq<(Seq<char>, Seq<char>)>, key: Seq<char>, default: u32) -> u32 {
    match lookup(attrs, key) {
        Some(v) => match parse_u32(v) {
            Some(x) => x,
            None => default,
        },
        None => default,
    }
}

/// `str::split(',')`.
pub open spec fn split_comma(s: Seq<char>) -> Seq<Seq<char>>
    decreases s.len(),
{
    match find_char(s, ',') {
        None => seq![s],
        Some(i) => {
            proof {
                lemma_find_char(s, ',');
            }
            seq![s.take(i)] + split_comma(s.skip(i + 1))
        },
    }
}

/// Parses every part as an `i32`; the first part that does not parse is the error.
pub open spec fn parse_parts(parts: Seq<Seq<char>>, key: Seq<char>, n: nat) -> Result<
    Seq<i32>,
    Seq<char>,
>
    decreases parts.len(),
{
    if parts.len() == 0 {
        Ok(seq![])
    } else {
        match parse_i32(parts[0]) {
            None => Err(line_prefix(n) + "invalid i32 in '"@ + key + "': "@ + parts[0]),
            Some(x) => match parse_parts(parts.drop_first(), key, n) {
                Ok(rest) => Ok(seq![x] + rest),
                Err(e) => Err(e),
            },
        }
    }
}

/// A comma-separated list of `count` integers; an absent or empty value
/// gives `count` zeros.
pub open spec fn csv_spec(attrs: Seq<(Seq<char>, Seq<char>)>, key: Seq<char>, n: nat, count: nat) -> Result<
    Seq<i32>,
    Seq<char>,
> {
    let raw = get_str(attrs, key);
    if raw.len() == 0 {
        Ok(Seq::new(count, |i: int| 0i32))
    } else {
        let parts = split_comma(raw);
        if parts.len() != count {
            Err(
                line_prefix(n) + "expected "@ + dec(count) + " values for '"@ + key + "', got "@
                    + dec(parts.len()),
            )
        } else {
            parse_parts(parts, key, n)
        }
    }
}

fn lookup_exec(v: &Vec<char>, a: &AttrRanges, key: &Vec<char>) -> (r: Option<(usize, usize)>)
    requires
        ranges_within(a@, v@.len() as int),
    ensures
        match r {
            Some((lo, hi)) => lo <= hi <= v@.len() && lookup(attr_views(v@, a@), key@) == Some(
                v@.subrange(lo as int, hi as int),
            ),
            None => lookup(attr_views(v@, a@), key@) == None::<Seq<char>>,
        },
{
    let ghost views = attr_views(v@, a@);
    assert(views.skip(0) =~= views);
    let mut i: usize = 0;
    while i < a.len()
        invariant
            i <= a@.len(),
            views == attr_views(v@, a@),
            ranges_within(a@, v@.len() as int),
            lookup(views, key@) == lookup(views.skip(i as int), key@),
        decreases a@.len() - i,
    {
        let (ks, ke, vs, ve) = a[i];
        assert(views.skip(i as int)[0] == views[i as int]);
        assert(views.skip(i as int).drop_first() =~= views.skip(i + 1));
        if range_eq_str(v, ks, ke, key) {
            return Some((vs, ve));
        }
        i = i + 1;
    }
    assert(views.skip(i as int).len() == 0);
    None
}

fn push_line_prefix(out: &mut String, n: usize)
    requires
        n < usize::MAX,
    ensures
        final(out)@ == old(out)@ + line_prefix(n as nat),
{
    push_str(out, "line ");
    push_dec(out, (n + 1) as u64);
    push_str(out, ": ");
    assert(out@ =~= old(out)@ + line_prefix(n as nat));
}

fn err_missing_key(n: usize, key: &str) -> (m: String)
    requires
        n < usize::MAX,
    ensures
        m@ == msg_missing_key(n as nat, key@),
{
    let mut m = String::new();
    push_line_prefix(&mut m, n);
    push_str(&mut m, "missing key '");
    push_str(&mut m, key);
    push_str(&mut m, "'");
    assert(m@ =~= msg_missing_key(n as nat, key@));
    m
}

fn err_invalid(n: usize, what: &str, key: &str, v: &Vec<char>, lo: usize, hi: usize) -> (m: String)
    requires
        n < usize::MAX,
        lo <= hi <= v@.len(),
    ensures
        m@ == line_prefix(n as nat) + what@ + key@ + "': "@ + v@.subrange(lo as int, hi as int),
{
    let mut m = String::new();
    push_line_prefix(&mut m, n);
    push_str(&mut m, what);
    push_str(&mut m, key);
    push_str(&mut m, "': ");
    crate::text::push_range(&mut m, v, lo, hi);
    assert(m@ =~= line_prefix(n as nat) + what@ + key@ + "': "@ + v@.subrange(lo as int, hi as int));
    m
}

fn get_str_exec(v: &Vec<char>, a: &AttrRanges, key: &str) -> (s: String)
    requires
        ranges_within(a@, v@.len() as int),
    ensures
        s@ == get_str(attr_views(v@, a@), key@),
{
    let k = str_to_chars(key);
    match lookup_exec(v, a, &k) {
        Some((lo, hi)) => string_from_range(v, lo, hi),
        None => String::new(),
    }
}

fn get_u32_exec(v: &Vec<char>, a: &AttrRanges, key: &str, n: usize) -> (r: Result<u32, String>)
    requires
        ranges_within(a@, v@.len() as int),
        n < usize::MAX,
    ensures
        match r {
            Ok(x) => get_u32_spec(attr_views(v@, a@), key@, n as nat) == Ok::<u32, Seq<char>>(x),
            Err(m) => get_u32_spec(attr_views(v@, a@), key@, n as nat) == Err::<u32, Seq<char>>(m@),
        },
{
    let k = str_to_chars(key);
    match lookup_exec(v, a, &k) {
        None => Err(err_missing_key(n, key)),
        Some((lo, hi)) => match parse_u32_range(v, lo, hi) {
            Some(x) => Ok(x),
            None => Err(err_invalid(n, "invalid u32 for '", key, v, lo, hi)),
        },
    }
}

fn get_i32_exec(v: &Vec<char>, a: &AttrRanges, key: &str, n: usize) -> (r: Result<i32, String>)
    requires
        ranges_within(a@, v@.len() as int),
        n < usize::MAX,
    ensures
        match r {
            Ok(x) => get_i32_spec(attr_views(v@, a@), key@, n as nat) == Ok::<i32, Seq<char>>(x),
            Err(m) => get_i32_spec(attr_views(v@, a@), key@, n as nat) == Err::<i32, Seq<char>>(m@),
        },
{
    let k = str_to_chars(key);
    match lookup_exec(v, a, &k) {
        None => Err(err_missing_key(n, key)),
        Some((lo, hi)) => match parse_i32_range(v, lo, hi) {
            Some(x) => Ok(x),
            None => Err(err_invalid(n, "invalid i32 for '", key, v, lo, hi)),
        },
    }
}

fn get_u32_or_exec(v: &Vec<char>, a: &AttrRanges, key: &str, default: u32) -> (x: u32)
    requires
        ranges_within(a@, v@.len() as int),
    ensures
        x == get_u32_or(attr_views(v@, a@), key@, default),
{
    let k = str_to_chars(key);
    match lookup_exec(v, a, &k) {
        None => default,
        Some((lo, hi)) => match parse_u32_range(v, lo, hi) {
            Some(x) => x,
            None => default,
        },
    }
}

/// The parts of `v[lo..hi].split(',')` as index ranges.
fn split_comma_exec(v: &Vec<char>, lo: usize, hi: usize) -> (parts: Vec<(usize, usize)>)
    requires
        lo <= hi <= v@.len(),
    ensures
        forall|i: int| 0 <= i < parts@.len() ==> (#[trigger] parts@[i]).0 <= parts@[i].1 <= hi,
        parts@.map_values(|p: (usize, usize)| v@.subrange(p.0 as int, p.1 as int)) == split_comma(
            v@.subrange(lo as int, hi as int),
        ),
{
    let mut parts: Vec<(usize, usize)> = Vec::new();
    let mut pos = lo;
    loop
        invariant
            lo <= pos <= hi <= v@.len(),
            forall|i: int| 0 <= i < parts@.len() ==> (#[trigger] parts@[i]).0 <= parts@[i].1 <= hi,
            parts@.map_values(|p: (usize, usize)| v@.subrange(p.0 as int, p.1 as int))
                + split_comma(v@.subrange(pos as int, hi as int)) == split_comma(
                v@.subrange(lo as int, hi as int),
            ),
        decreases hi - pos,
    {
        let ghost s = v@.subrange(pos as int, hi as int);
        let ghost p0 = parts@;
        let c = find_char_in(v, pos, hi, ',');
        parts.push((pos, c));
        assert(parts@.map_values(|p: (usize, usize)| v@.subrange(p.0 as int, p.1 as int))
            =~= p0.map_values(|p: (usize, usize)| v@.subrange(p.0 as int, p.1 as int)).push(
            v@.subrange(pos as int, c as int),
        ));
        if c == hi {
            assert(split_comma(s) =~= seq![s]);
            return parts;
        }
        assert(s.take(c - pos) =~= v@.subrange(pos as int, c as int));
        assert(s.skip(c - pos + 1) =~= v@.subrange(c + 1, hi as int));
        pos = c + 1;
    }
}

/// Parses a comma-separated list of `count` integers.
fn csv_exec(v: &Vec<char>, a: &AttrRanges, key: &str, n: usize, count: usize) -> (r: Result<
    Vec<i32>,
    String,
>)
    requires
        ranges_within(a@, v@.len() as int),
        n < usize::MAX,
    ensures
        match r {
            Ok(x) => csv_spec(attr_views(v@, a@), key@, n as nat, count as nat) == Ok::<
                Seq<i32>,
                Seq<char>,
            >(x@),
            Err(m) => csv_spec(attr_views(v@, a@), key@, n as nat, count as nat) == Err::<
                Seq<i32>,
                Seq<char>,
            >(m@),
        },
{
    let k = str_to_chars(key);
    let (lo, hi) = match lookup_exec(v, a, &k) {
        Some(r) => r,
        None => (0, 0),
    };
    assert(get_str(attr_views(v@, a@), key@) == v@.subrange(lo as int, hi as int));
    if lo == hi {
        let mut z: Vec<i32> = Vec::new();
        let mut i: usize = 0;
        while i < count
            invariant
                i <= count,
                z@ == Seq::new(i as nat, |j: int| 0i32),
            decreases count - i,
        {
            z.push(0);
            assert(z@ =~= Seq::new((i + 1) as nat, |j: int| 0i32));
            i = i + 1;
        }
        return Ok(z);
    }
    let parts = split_comma_exec(v, lo, hi);
    let ghost pv = parts@.map_values(|p: (usize, usize)| v@.subrange(p.0 as int, p.1 as int));
    if parts.len() != count {
        let mut m = String::new();
        push_line_prefix(&mut m, n);
        push_str(&mut m, "expected ");
        push_dec(&mut m, count as u64);
        push_str(&mut m, " values for '");
        push_str(&mut m, key);
        push_str(&mut m, "', got ");
        push_dec(&mut m, parts.len() as u64);
        assert(m@ =~= line_prefix(n as nat) + "expected "@ + dec(count as nat) + " values for '"@
            + key@ + "', got "@ + dec(pv.len()));
        return Err(m);
    }
    let mut out: Vec<i32> = Vec::new();
    let mut i: usize = 0;
    assert(pv.skip(0) =~= pv);
    assert(csv_spec(attr_views(v@, a@), key@, n as nat, count as nat) == parse_parts(pv, key@, n as nat));
    proof {
        match parse_parts(pv, key@, n as nat) {
            Ok(rest) => {
                assert(out@ + rest =~= rest);
            },
            Err(e) => {},
        }
    }
    while i < parts.len()
        invariant
            i <= parts@.len(),
            pv == parts@.map_values(|p: (usize, usize)| v@.subrange(p.0 as int, p.1 as int)),
            forall|j: int| 0 <= j < parts@.len() ==> (#[trigger] parts@[j]).0 <= parts@[j].1 <= hi,
            hi <= v@.len(),
            n < usize::MAX,
            csv_spec(attr_views(v@, a@), key@, n as nat, count as nat) == parse_parts(pv, key@, n as nat),
            parse_parts(pv, key@, n as nat) == match parse_parts(pv.skip(i as int), key@, n as nat) {
                Ok(rest) => Ok(out@ + rest),
                Err(e) => Err::<Seq<i32>, Seq<char>>(e),
            },
        decreases parts@.len() - i,
    {
        let (plo, phi) = parts[i];
        assert(pv.skip(i as int)[0] == v@.subrange(plo as int, phi as int));
        assert(pv.skip(i as int).drop_first() =~= pv.skip(i + 1));
        match parse_i32_range(v, plo, phi) {
            Some(x) => {
                let ghost o = out@;
                out.push(x);
                proof {
                    match parse_parts(pv.skip(i + 1), key@, n as nat) {
                        Ok(rest) => {
                            assert(o + (seq![x] + rest) =~= out@ + rest);
                        },
                        Err(e) => {},
                    }
                }
            },
            None => {
                let m = err_invalid(n, "invalid i32 in '", key, v, plo, phi);
                assert(parse_parts(pv.skip(i as int), key@, n as nat) == Err::<Seq<i32>, Seq<char>>(m@));
                return Err(m);
            },
        }
        i = i + 1;
    }
    assert(pv.skip(i as int) =~= Seq::<Seq<char>>::empty());
    assert(out@ + Seq::<i32>::empty() =~= out@);
    Ok(out)
}

} // verus!

verus! {

// ---------------------------------------------------------------------------
// Lines
// ---------------------------------------------------------------------------

/// `(tag, rest)` of a trimmed line: the tag ends at the first whitespace.
pub open spec fn split_tag(line: Seq<char>) -> (Seq<char>, Seq<char>) {
    match find_ws(line) {
        Some(p) => (line.take(p), trim_start(line.skip(p))),
        None => (line, seq![]),
    }
}

pub open spec fn info_from(a: Seq<(Seq<char>, Seq<char>)>, n: nat) -> Result<InfoView, Seq<char>> {
    match get_i32_spec(a, "size"@, n) {
        Err(e) => Err(e),
        Ok(size) => match get_u32_spec(a, "bold"@, n) {
            Err(e) => Err(e),
            Ok(bold) => match get_u32_spec(a, "italic"@, n) {
                Err(e) => Err(e),
                Ok(italic) => match csv_spec(a, "padding"@, n, 4) {
                    Err(e) => Err(e),
                    Ok(padding) => match csv_spec(a, "spacing"@, n, 2) {
                        Err(e) => Err(e),
                        Ok(spacing) => Ok(
                            InfoView {
                                face: get_str(a, "face"@),
                                size,
                                bold: bold != 0,
                                italic: italic != 0,
                                charset: get_str(a, "charset"@),
                                unicode: get_u32_or(a, "unicode"@, 0) != 0,
                                stretch_h: get_u32_or(a, "stretchH"@, 100),
                                smooth: get_u32_or(a, "smooth"@, 0) != 0,
                                aa: get_u32_or(a, "aa"@, 1),
                                padding,
                                spacing,
                            },
                        ),
                    },
                },
            },
        },
    }
}

pub open spec fn common_from(a: Seq<(Seq<char>, Seq<char>)>, n: nat) -> Result<
    BmFontCommon,
    Seq<char>,
> {
    match get_u32_spec(a, "lineHeight"@, n) {
        Err(e) => Err(e),
        Ok(line_height) => match get_u32_spec(a, "base"@, n) {
            Err(e) => Err(e),
            Ok(base) => match get_u32_spec(a, "scaleW"@, n) {
                Err(e) => Err(e),
                Ok(scale_w) => match get_u32_spec(a, "scaleH"@, n) {
                    Err(e) => Err(e),
                    Ok(scale_h) => match get_u32_spec(a, "pages"@, n) {
                        Err(e) => Err(e),
                        Ok(pages) => Ok(
                            BmFontCommon {
                                line_height,
                                base,
                                scale_w,
                                scale_h,
                                pages,
                                packed: get_u32_or(a, "packed"@, 0) != 0,
                            },
                        ),
                    },
                },
            },
        },
    }
}

pub open spec fn page_from(a: Seq<(Seq<char>, Seq<char>)>, n: nat) -> Result<PageView, Seq<char>> {
    match get_u32_spec(a, "id"@, n) {
        Err(e) => Err(e),
        Ok(id) => Ok(PageView { id, file: get_str(a, "file"@) }),
    }
}

pub open spec fn char_from(a: Seq<(Seq<char>, Seq<char>)>, n: nat) -> Result<BmFontChar, Seq<char>> {
    match get_u32_spec(a, "id"@, n) {
        Err(e) => Err(e),
        Ok(id) => match get_u32_spec(a, "x"@, n) {
            Err(e) => Err(e),
            Ok(x) => match get_u32_spec(a, "y"@, n) {
                Err(e) => Err(e),
                Ok(y) => match get_u32_spec(a, "width"@, n) {
                    Err(e) => Err(e),
                    Ok(width) => match get_u32_spec(a, "height"@, n) {
                        Err(e) => Err(e),
                        Ok(height) => match get_i32_spec(a, "xoffset"@, n) {
                            Err(e) => Err(e),
                            Ok(xoffset) => match get_i32_spec(a, "yoffset"@, n) {
                                Err(e) => Err(e),
                                Ok(yoffset) => match get_i32_spec(a, "xadvance"@, n) {
                                    Err(e) => Err(e),
                                    Ok(xadvance) => match get_u32_spec(a, "page"@, n) {
                                        Err(e) => Err(e),
                                        Ok(page) => Ok(
                                            BmFontChar {
                                                id,
                                                x,
                                                y,
                                                width,
                                                height,
                                                xoffset,
                                                yoffset,
                                                xadvance,
                                                page,
                                                chnl: get_u32_or(a, "chnl"@, 0),
                                            },
                                        ),
                                    },
                                },
                            },
                        },
                    },
                },
            },
        },
    }
}

pub open spec fn kerning_from(a: Seq<(Seq<char>, Seq<char>)>, n: nat) -> Result<
    BmFontKerning,
    Seq<char>,
> {
    match get_u32_spec(a, "first"@, n) {
        Err(e) => Err(e),
        Ok(first) => match get_u32_spec(a, "second"@, n) {
            Err(e) => Err(e),
            Ok(second) => match get_i32_spec(a, "amount"@, n) {
                Err(e) => Err(e),
                Ok(amount) => Ok(BmFontKerning { first, second, amount: amount as i16 }),
            },
        },
    }
}

/// What has been read so far from a `.fnt` text.
pub struct FntState {
    pub info: Option<InfoView>,
    pub common: Option<BmFontCommon>,
    pub pages: Seq<PageView>,
    pub chars: Seq<BmFontChar>,
    pub kernings: Seq<BmFontKerning>,
}

pub open spec fn empty_state() -> FntState {
    FntState { info: None, common: None, pages: seq![], chars: seq![], kernings: seq![] }
}

/// Reads one line (zero-based number `n`). Blank lines, `chars`/`kernings`
/// count lines and unknown tags change nothing; a later `info` or `common`
/// line replaces an earlier one.
pub open spec fn step_line(raw: Seq<char>, n: nat, st: FntState) -> Result<FntState, Seq<char>> {
    let line = trim(raw);
    if line.len() == 0 {
        Ok(st)
    } else {
        let tag = split_tag(line).0;
        let a = parse_attrs(split_tag(line).1);
        if tag == "info"@ {
            match info_from(a, n) {
                Err(e) => Err(e),
                Ok(i) => Ok(FntState { info: Some(i), ..st }),
            }
        } else if tag == "common"@ {
            match common_from(a, n) {
                Err(e) => Err(e),
                Ok(c) => Ok(FntState { common: Some(c), ..st }),
            }
        } else if tag == "page"@ {
            match page_from(a, n) {
                Err(e) => Err(e),
                Ok(p) => Ok(FntState { pages: st.pages.push(p), ..st }),
            }
        } else if tag == "char"@ {
            match char_from(a, n) {
                Err(e) => Err(e),
                Ok(c) => Ok(FntState { chars: st.chars.push(c), ..st }),
            }
        } else if tag == "kerning"@ {
            match kerning_from(a, n) {
                Err(e) => Err(e),
                Ok(k) => Ok(FntState { kernings: st.kernings.push(k), ..st }),
            }
        } else {
            Ok(st)
        }
    }
}

/// Reads the lines in order, numbered from `n`; the first error stops reading.
pub open spec fn read_lines(ls: Seq<Seq<char>>, n: nat, st: FntState) -> Result<FntState, Seq<char>>
    decreases ls.len(),
{
    if ls.len() == 0 {
        Ok(st)
    } else {
        match step_line(ls[0], n, st) {
            Err(e) => Err(e),
            Ok(st2) => read_lines(ls.drop_first(), n + 1, st2),
        }
    }
}

/// The BMFont that a `.fnt` text describes, or the message of the error it
/// raises. The text must hold an `info` and a `common` line.
pub open spec fn spec_parse_fnt(s: Seq<char>) -> Result<BmFontView, Seq<char>> {
    match read_lines(lines(s), 0, empty_state()) {
        Err(e) => Err(e),
        Ok(st) => match st.info {
            None => Err("missing 'info' line"@),
            Some(info) => match st.common {
                None => Err("missing 'common' line"@),
                Some(common) => Ok(
                    BmFontView {
                        info,
                        common,
                        pages: st.pages,
                        chars: st.chars,
                        kernings: st.kernings,
                    },
                ),
            },
        },
    }
}

} // verus!

verus! {

fn array4(x: Vec<i32>) -> (a: [i32; 4])
    requires
        x@.len() == 4,
    ensures
        a@ == x@,
{
    let a = [x[0], x[1], x[2], x[3]];
    assert(a@ =~= x@);
    a
}

fn array2(x: Vec<i32>) -> (a: [i32; 2])
    requires
        x@.len() == 2,
    ensures
        a@ == x@,
{
    let a = [x[0], x[1]];
    assert(a@ =~= x@);
    a
}

proof fn lemma_csv_len(a: Seq<(Seq<char>, Seq<char>)>, key: Seq<char>, n: nat, count: nat)
    ensures
        csv_spec(a, key, n, count) matches Ok(x) ==> x.len() == count,
{
    let raw = get_str(a, key);
    if raw.len() != 0 {
        let parts = split_comma(raw);
        if parts.len() == count {
            lemma_parse_parts_len(parts, key, n);
        }
    }
}

proof fn lemma_parse_parts_len(parts: Seq<Seq<char>>, key: Seq<char>, n: nat)
    ensures
        parse_parts(parts, key, n) matches Ok(x) ==> x.len() == parts.len(),
    decreases parts.len(),
{
    if parts.len() > 0 {
        lemma_parse_parts_len(parts.drop_first(), key, n);
    }
}

fn info_exec(v: &Vec<char>, a: &AttrRanges, n: usize) -> (r: Result<BmFontInfo, String>)
    requires
        ranges_within(a@, v@.len() as int),
        n < usize::MAX,
    ensures
        match r {
            Ok(x) => info_from(attr_views(v@, a@), n as nat) == Ok::<InfoView, Seq<char>>(x@),
            Err(m) => info_from(attr_views(v@, a@), n as nat) == Err::<InfoView, Seq<char>>(m@),
        },
{
    let ghost av = attr_views(v@, a@);
    let face = get_str_exec(v, a, "face");
    let size = match get_i32_exec(v, a, "size", n) {
        Ok(x) => x,
        Err(m) => return Err(m),
    };
    let bold = match get_u32_exec(v, a, "bold", n) {
        Ok(x) => x,
        Err(m) => return Err(m),
    };
    let italic = match get_u32_exec(v, a, "italic", n) {
        Ok(x) => x,
        Err(m) => return Err(m),
    };
    let charset = get_str_exec(v, a, "charset");
    let unicode = get_u32_or_exec(v, a, "unicode", 0);
    let stretch_h = get_u32_or_exec(v, a, "stretchH", 100);
    let smooth = get_u32_or_exec(v, a, "smooth", 0);
    let aa = get_u32_or_exec(v, a, "aa", 1);
    proof {
        lemma_csv_len(av, "padding"@, n as nat, 4);
        lemma_csv_len(av, "spacing"@, n as nat, 2);
    }
    let padding = match csv_exec(v, a, "padding", n, 4) {
        Ok(x) => array4(x),
        Err(m) => return Err(m),
    };
    let spacing = match csv_exec(v, a, "spacing", n, 2) {
        Ok(x) => array2(x),
        Err(m) => return Err(m),
    };
    Ok(
        BmFontInfo {
            face,
            size,
            bold: bold != 0,
            italic: italic != 0,
            charset,
            unicode: unicode != 0,
            stretch_h,
            smooth: smooth != 0,
            aa,
            padding,
            spacing,
        },
    )
}

fn common_exec(v: &Vec<char>, a: &AttrRanges, n: usize) -> (r: Result<BmFontCommon, String>)
    requires
        ranges_within(a@, v@.len() as int),
        n < usize::MAX,
    ensures
        match r {
            Ok(x) => common_from(attr_views(v@, a@), n as nat) == Ok::<BmFontCommon, Seq<char>>(x),
            Err(m) => common_from(attr_views(v@, a@), n as nat) == Err::<BmFontCommon, Seq<char>>(
                m@,
            ),
        },
{
    let line_height = match get_u32_exec(v, a, "lineHeight", n) {
        Ok(x) => x,
        Err(m) => return Err(m),
    };
    let base = match get_u32_exec(v, a, "base", n) {
        Ok(x) => x,
        Err(m) => return Err(m),
    };
    let scale_w = match get_u32_exec(v, a, "scaleW", n) {
        Ok(x) => x,
        Err(m) => return Err(m),
    };
    let scale_h = match get_u32_exec(v, a, "scaleH", n) {
        Ok(x) => x,
        Err(m) => return Err(m),
    };
    let pages = match get_u32_exec(v, a, "pages", n) {
        Ok(x) => x,
        Err(m) => return Err(m),
    };
    let packed = get_u32_or_exec(v, a, "packed", 0);
    Ok(BmFontCommon { line_height, base, scale_w, scale_h, pages, packed: packed != 0 })
}

fn page_exec(v: &Vec<char>, a: &AttrRanges, n: usize) -> (r: Result<BmFontPage, String>)
    requires
        ranges_within(a@, v@.len() as int),
        n < usize::MAX,
    ensures
        match r {
            Ok(x) => page_from(attr_views(v@, a@), n as nat) == Ok::<PageView, Seq<char>>(x@),
            Err(m) => page_from(attr_views(v@, a@), n as nat) == Err::<PageView, Seq<char>>(m@),
        },
{
    let id = match get_u32_exec(v, a, "id", n) {
        Ok(x) => x,
        Err(m) => return Err(m),
    };
    let file = get_str_exec(v, a, "file");
    Ok(BmFontPage { id, file })
}

fn char_exec(v: &Vec<char>, a: &AttrRanges, n: usize) -> (r: Result<BmFontChar, String>)
    requires
        ranges_within(a@, v@.len() as int),
        n < usize::MAX,
    ensures
        match r {
            Ok(x) => char_from(attr_views(v@, a@), n as nat) == Ok::<BmFontChar, Seq<char>>(x),
            Err(m) => char_from(attr_views(v@, a@), n as nat) == Err::<BmFontChar, Seq<char>>(m@),
        },
{
    let id = match get_u32_exec(v, a, "id", n) {
        Ok(x) => x,
        Err(m) => return Err(m),
    };
    let x = match get_u32_exec(v, a, "x", n) {
        Ok(x) => x,
        Err(m) => return Err(m),
    };
    let y = match get_u32_exec(v, a, "y", n) {
        Ok(x) => x,
        Err(m) => return Err(m),
    };
    let width = match get_u32_exec(v, a, "width", n) {
        Ok(x) => x,
        Err(m) => return Err(m),
    };
    let height = match get_u32_exec(v, a, "height", n) {
        Ok(x) => x,
        Err(m) => return Err(m),
    };
    let xoffset = match get_i32_exec(v, a, "xoffset", n) {
        Ok(x) => x,
        Err(m) => return Err(m),
    };
    let yoffset = match get_i32_exec(v, a, "yoffset", n) {
        Ok(x) => x,
        Err(m) => return Err(m),
    };
    let xadvance = match get_i32_exec(v, a, "xadvance", n) {
        Ok(x) => x,
        Err(m) => return Err(m),
    };
    let page = match get_u32_exec(v, a, "page", n) {
        Ok(x) => x,
        Err(m) => return Err(m),
    };
    let chnl = get_u32_or_exec(v, a, "chnl", 0);
    Ok(BmFontChar { id, x, y, width, height, xoffset, yoffset, xadvance, page, chnl })
}

fn kerning_exec(v: &Vec<char>, a: &AttrRanges, n: usize) -> (r: Result<BmFontKerning, String>)
    requires
        ranges_within(a@, v@.len() as int),
        n < usize::MAX,
    ensures
        match r {
            Ok(x) => kerning_from(attr_views(v@, a@), n as nat) == Ok::<BmFontKerning, Seq<char>>(
                x,
            ),
            Err(m) => kerning_from(attr_views(v@, a@), n as nat) == Err::<BmFontKerning, Seq<char>>(
                m@,
            ),
        },
{
    let first = match get_u32_exec(v, a, "first", n) {
        Ok(x) => x,
        Err(m) => return Err(m),
    };
    let second = match get_u32_exec(v, a, "second", n) {
        Ok(x) => x,
        Err(m) => return Err(m),
    };
    let amount = match get_i32_exec(v, a, "amount", n) {
        Ok(x) => x,
        Err(m) => return Err(m),
    };
    Ok(BmFontKerning { first, second, amount: amount as i16 })
}

/// The parser's state while it reads the lines of a `.fnt` text.
struct FntBuilder {
    info: Option<BmFontInfo>,
    common: Option<BmFontCommon>,
    pages: Vec<BmFontPage>,
    chars: Vec<BmFontChar>,
    kernings: Vec<BmFontKerning>,
}

impl FntBuilder {
    spec fn state(&self) -> FntState {
        FntState {
            info: match self.info {
                Some(i) => Some(i@),
                None => None,
            },
            common: self.common,
            pages: self.pages@.map_values(|p: BmFontPage| p@),
            chars: self.chars@,
            kernings: self.kernings@,
        }
    }
}

fn tag_is(v: &Vec<char>, lo: usize, hi: usize, t: &str) -> (b: bool)
    requires
        lo <= hi <= v@.len(),
    ensures
        b == (v@.subrange(lo as int, hi as int) == t@),
{
    let tc = str_to_chars(t);
    range_eq_str(v, lo, hi, &tc)
}

fn step_line_exec(b: &mut FntBuilder, v: &Vec<char>, lo: usize, hi: usize, n: usize) -> (r: Result<
    (),
    String,
>)
    requires
        lo <= hi <= v@.len(),
        n < usize::MAX,
    ensures
        match r {
            Ok(_) => step_line(v@.subrange(lo as int, hi as int), n as nat, old(b).state()) == Ok::<
                FntState,
                Seq<char>,
            >(final(b).state()),
            Err(m) => step_line(v@.subrange(lo as int, hi as int), n as nat, old(b).state())
                == Err::<FntState, Seq<char>>(m@),
        },
{
    let ghost raw = v@.subrange(lo as int, hi as int);
    let (a0, a1) = trim_range(v, lo, hi);
    if a0 == a1 {
        return Ok(());
    }
    let ghost line = v@.subrange(a0 as int, a1 as int);
    let p = find_ws_in(v, a0, a1);
    let rs = skip_ws(v, p, a1);
    proof {
        if p < a1 {
            assert(line.take(p - a0) =~= v@.subrange(a0 as int, p as int));
            assert(line.skip(p - a0) =~= v@.subrange(p as int, a1 as int));
        } else {
            assert(v@.subrange(a0 as int, p as int) =~= line);
            assert(v@.subrange(rs as int, a1 as int) =~= Seq::<char>::empty());
        }
    }
    assert(split_tag(line).0 == v@.subrange(a0 as int, p as int));
    assert(split_tag(line).1 == v@.subrange(rs as int, a1 as int));
    let a = parse_attrs_range(v, rs, a1);
    if tag_is(v, a0, p, "info") {
        match info_exec(v, &a, n) {
            Ok(i) => {
                b.info = Some(i);
                Ok(())
            },
            Err(m) => Err(m),
        }
    } else if tag_is(v, a0, p, "common") {
        match common_exec(v, &a, n) {
            Ok(c) => {
                b.common = Some(c);
                Ok(())
            },
            Err(m) => Err(m),
        }
    } else if tag_is(v, a0, p, "page") {
        match page_exec(v, &a, n) {
            Ok(pg) => {
                b.pages.push(pg);
                assert(b.pages@.map_values(|p: BmFontPage| p@) =~= old(b).pages@.map_values(
                    |p: BmFontPage| p@,
                ).push(pg@));
                Ok(())
            },
            Err(m) => Err(m),
        }
    } else if tag_is(v, a0, p, "char") {
        match char_exec(v, &a, n) {
            Ok(c) => {
                b.chars.push(c);
                Ok(())
            },
            Err(m) => Err(m),
        }
    } else if tag_is(v, a0, p, "kerning") {
        match kerning_exec(v, &a, n) {
            Ok(k) => {
                b.kernings.push(k);
                Ok(())
            },
            Err(m) => Err(m),
        }
    } else {
        Ok(())
    }
}

/// Parse a text `.fnt` file into a [`BmFont`] structure.
pub fn parse_fnt(input: &str) -> (r: Result<BmFont, FontbakeError>)
    ensures
        match r {
            Ok(b) => spec_parse_fnt(input@) == Ok::<BmFontView, Seq<char>>(b@),
            Err(FontbakeError::BmfontParse(m)) => spec_parse_fnt(input@) == Err::<
                BmFontView,
                Seq<char>,
            >(m@),
            Err(_) => false,
        },
{
    let v = str_to_chars(input);
    let mut b = FntBuilder {
        info: None,
        common: None,
        pages: Vec::new(),
        chars: Vec::new(),
        kernings: Vec::new(),
    };
    assert(b.pages@.map_values(|p: BmFontPage| p@) =~= Seq::<PageView>::empty());
    assert(b.state() == empty_state());
    let hi = v.len();
    assert(v@.subrange(0, hi as int) =~= input@);
    let mut pos: usize = 0;
    let mut n: usize = 0;
    while pos < hi
        invariant
            pos <= hi == v@.len(),
            n <= pos,
            read_lines(lines(input@), 0, empty_state()) == read_lines(
                lines(v@.subrange(pos as int, hi as int)),
                n as nat,
                b.state(),
            ),
        decreases hi - pos,
    {
        let (ls, le, next) = next_line(&v, pos, hi);
        let ghost ll = lines(v@.subrange(pos as int, hi as int));
        assert(ll[0] == v@.subrange(ls as int, le as int));
        assert(ll.drop_first() =~= lines(v@.subrange(next as int, hi as int)));
        match step_line_exec(&mut b, &v, ls, le, n) {
            Ok(_) => {},
            Err(m) => {
                return Err(FontbakeError::BmfontParse(m));
            },
        }
        pos = next;
        n = n + 1;
    }
    assert(lines(v@.subrange(pos as int, hi as int)) =~= Seq::<Seq<char>>::empty());
    let info = match b.info {
        Some(i) => i,
        None => {
            return Err(FontbakeError::BmfontParse(str_to_string("missing 'info' line")));
        },
    };
    let common = match b.common {
        Some(c) => c,
        None => {
            return Err(FontbakeError::BmfontParse(str_to_string("missing 'common' line")));
        },
    };
    Ok(BmFont { info, common, pages: b.pages, chars: b.chars, kernings: b.kernings })
}

/// A new `String` with the characters of `t`.
pub fn str_to_string(t: &str) -> (s: String)
    ensures
        s@ == t@,
{
    let mut s = String::new();
    push_str(&mut s, t);
    assert(s@ =~= t@);
    s
}

} // verus!

verus! {

// ---------------------------------------------------------------------------
// Glyphs cropped from atlas pages
// ---------------------------------------------------------------------------

/// What cropping a glyph's rectangle out of its atlas page comes to.
pub enum Crop {
    /// An index computation overflows its integer type (a panic).
    Overflow,
    /// The glyph names a page that was not loaded.
    MissingPage,
    /// A row of the rectangle ends past the page's pixels.
    OutOfBounds,
    /// The rectangle's RGBA bytes, row after row.
    Pixels(Seq<u8>),
}

/// Byte offset where row `r` of the glyph's rectangle starts on a page `pw` pixels wide.
pub open spec fn row_start(ch: BmFontChar, pw: u32, r: int) -> int {
    (ch.y + r) * (pw * 4) + ch.x * 4
}

pub open spec fn row_end(ch: BmFontChar, pw: u32, r: int) -> int {
    row_start(ch, pw, r) + ch.width * 4
}

/// The rows of the rectangle from row `r` on.
pub open spec fn crop_rows(ch: BmFontChar, pw: u32, px: Seq<u8>, r: nat) -> Crop
    decreases ch.height - r,
{
    if r >= ch.height {
        Crop::Pixels(seq![])
    } else if ch.y + r > u32::MAX || row_end(ch, pw, r as int) > usize::MAX {
        Crop::Overflow
    } else if row_end(ch, pw, r as int) > px.len() {
        Crop::OutOfBounds
    } else {
        match crop_rows(ch, pw, px, r + 1) {
            Crop::Pixels(rest) => Crop::Pixels(
                px.subrange(row_start(ch, pw, r as int), row_end(ch, pw, r as int)) + rest,
            ),
            other => other,
        }
    }
}

/// The glyph's bitmap, cut out of the page it names. An empty rectangle
/// gives an empty bitmap whatever page it names. Rows are found by byte
/// offset in the page's pixels, so only the byte range of each row is
/// checked: a rectangle that runs past the page's right edge takes the
/// next row's first pixels, as long as it stays within the page's bytes.
/// `pages` holds each page's width and RGBA bytes.
pub open spec fn crop(ch: BmFontChar, pages: Seq<(u32, Seq<u8>)>) -> Crop {
    if ch.width == 0 || ch.height == 0 {
        Crop::Pixels(seq![])
    } else if ch.page >= pages.len() {
        Crop::MissingPage
    } else if pages[ch.page as int].0 * 4 > usize::MAX || ch.width * ch.height * 4 > u32::MAX {
        Crop::Overflow
    } else {
        crop_rows(ch, pages[ch.page as int].0, pages[ch.page as int].1, 0)
    }
}

/// The width and bytes of each page.
pub open spec fn page_data(images: Seq<(u32, u32, &[u8])>) -> Seq<(u32, Seq<u8>)> {
    images.map_values(|t: (u32, u32, &[u8])| (t.0, t.2@))
}

pub open spec fn msg_missing_page(ch: BmFontChar, loaded: nat) -> Seq<char> {
    "char id="@ + dec(ch.id as nat) + " references page "@ + dec(ch.page as nat) + " but only "@
        + dec(loaded) + " pages loaded"@
}

pub open spec fn msg_out_of_bounds(ch: BmFontChar) -> Seq<char> {
    "char id="@ + dec(ch.id as nat) + " rect exceeds atlas page "@ + dec(ch.page as nat)
        + " bounds"@
}

/// The kerning pairs `(second, amount)` whose first character is `id`, in order.
pub open spec fn kernings_of(ks: Seq<BmFontKerning>, id: u32) -> Seq<(u32, i16)>
    decreases ks.len(),
{
    if ks.len() == 0 {
        seq![]
    } else {
        kernings_of(ks.drop_last(), id) + if ks.last().first == id {
            seq![(ks.last().second, ks.last().amount)]
        } else {
            seq![]
        }
    }
}

pub open spec fn imported_glyph(ch: BmFontChar, ks: Seq<BmFontKerning>, sid: Seq<char>, bitmap: Seq<
    u8,
>) -> GlyphView {
    GlyphView {
        codepoint: ch.id,
        source_kind: SourceKind::BitmapImport,
        source_id: sid,
        bitmap_rgba: bitmap,
        width: ch.width,
        height: ch.height,
        xoffset: ch.xoffset,
        yoffset: ch.yoffset,
        xadvance: ch.xadvance,
        page: ch.page,
        x: ch.x,
        y: ch.y,
        kernings: kernings_of(ks, ch.id),
    }
}

pub open spec fn with_prefix(pre: Seq<GlyphView>, r: Option<Result<Seq<GlyphView>, Seq<char>>>) -> Option<
    Result<Seq<GlyphView>, Seq<char>>,
> {
    match r {
        Some(Ok(rest)) => Some(Ok(pre + rest)),
        other => other,
    }
}

/// The glyphs imported from the characters `cs` in order, the message of
/// the first error, or `None` where an index computation overflows first.
pub open spec fn import_glyphs(
    cs: Seq<BmFontChar>,
    ks: Seq<BmFontKerning>,
    pages: Seq<(u32, Seq<u8>)>,
    sid: Seq<char>,
) -> Option<Result<Seq<GlyphView>, Seq<char>>>
    decreases cs.len(),
{
    if cs.len() == 0 {
        Some(Ok(seq![]))
    } else {
        match crop(cs[0], pages) {
            Crop::Overflow => None,
            Crop::MissingPage => Some(Err(msg_missing_page(cs[0], pages.len()))),
            Crop::OutOfBounds => Some(Err(msg_out_of_bounds(cs[0]))),
            Crop::Pixels(bm) => with_prefix(
                seq![imported_glyph(cs[0], ks, sid, bm)],
                import_glyphs(cs.drop_first(), ks, pages, sid),
            ),
        }
    }
}

pub open spec fn crop_with_prefix(pre: Seq<u8>, c: Crop) -> Crop {
    match c {
        Crop::Pixels(rest) => Crop::Pixels(pre + rest),
        other => other,
    }
}

fn err_missing_page(ch: &BmFontChar, loaded: usize) -> (m: String)
    ensures
        m@ == msg_missing_page(*ch, loaded as nat),
{
    let mut m = String::new();
    push_str(&mut m, "char id=");
    push_dec(&mut m, ch.id as u64);
    push_str(&mut m, " references page ");
    push_dec(&mut m, ch.page as u64);
    push_str(&mut m, " but only ");
    push_dec(&mut m, loaded as u64);
    push_str(&mut m, " pages loaded");
    assert(m@ =~= msg_missing_page(*ch, loaded as nat));
    m
}

fn err_out_of_bounds(ch: &BmFontChar) -> (m: String)
    ensures
        m@ == msg_out_of_bounds(*ch),
{
    let mut m = String::new();
    push_str(&mut m, "char id=");
    push_dec(&mut m, ch.id as u64);
    push_str(&mut m, " rect exceeds atlas page ");
    push_dec(&mut m, ch.page as u64);
    push_str(&mut m, " bounds");
    assert(m@ =~= msg_out_of_bounds(*ch));
    m
}

fn collect_kernings(ks: &Vec<BmFontKerning>, id: u32) -> (out: Vec<(u32, i16)>)
    ensures
        out@ == kernings_of(ks@, id),
{
    let mut out: Vec<(u32, i16)> = Vec::new();
    let mut k: usize = 0;
    while k < ks.len()
        invariant
            k <= ks@.len(),
            out@ == kernings_of(ks@.take(k as int), id),
        decreases ks@.len() - k,
    {
        assert(ks@.take(k + 1).drop_last() =~= ks@.take(k as int));
        if ks[k].first == id {
            out.push((ks[k].second, ks[k].amount));
        }
        assert(out@ =~= kernings_of(ks@.take(k + 1), id));
        k = k + 1;
    }
    assert(ks@.take(k as int) =~= ks@);
    out
}

/// The rows of a glyph's rectangle, or `None` where one runs past the pixels.
fn crop_pixels(ch: &BmFontChar, pw: u32, pixels: &[u8]) -> (r: Option<Vec<u8>>)
    requires
        pw * 4 <= usize::MAX,
        crop_rows(*ch, pw, pixels@, 0) != Crop::Overflow,
    ensures
        match r {
            Some(b) => crop_rows(*ch, pw, pixels@, 0) == Crop::Pixels(b@),
            None => crop_rows(*ch, pw, pixels@, 0) == Crop::OutOfBounds,
        },
{
    let stride = (pw as usize) * 4;
    let mut bitmap: Vec<u8> = Vec::new();
    let mut row: u32 = 0;
    while row < ch.height
        invariant
            row <= ch.height,
            stride == pw * 4,
            crop_rows(*ch, pw, pixels@, 0) != Crop::Overflow,
            crop_rows(*ch, pw, pixels@, 0) == crop_with_prefix(
                bitmap@,
                crop_rows(*ch, pw, pixels@, row as nat),
            ),
        decreases ch.height - row,
    {
        let ghost c = *ch;
        assert(c.y + row <= u32::MAX && row_end(c, pw, row as int) <= usize::MAX);
        let src_y = (ch.y + row) as usize;
        let src_x = ch.x as usize;
        assert(src_y * stride == (c.y + row) * (pw * 4));
        let start = src_y * stride + src_x * 4;
        let end = start + (ch.width as usize) * 4;
        assert(start == row_start(c, pw, row as int));
        assert(end == row_end(c, pw, row as int));
        if end > pixels.len() {
            return None;
        }
        let ghost before = bitmap@;
        let mut j = start;
        while j < end
            invariant
                start <= j <= end <= pixels@.len(),
                bitmap@ == before + pixels@.subrange(start as int, j as int),
            decreases end - j,
        {
            bitmap.push(pixels[j]);
            assert(pixels@.subrange(start as int, j + 1) =~= pixels@.subrange(start as int, j as int).push(
                pixels@[j as int],
            ));
            j = j + 1;
        }
        assert(before + (pixels@.subrange(start as int, end as int) + match crop_rows(
            c,
            pw,
            pixels@,
            (row + 1) as nat,
        ) {
            Crop::Pixels(rest) => rest,
            _ => seq![],
        }) =~= bitmap@ + match crop_rows(c, pw, pixels@, (row + 1) as nat) {
            Crop::Pixels(rest) => rest,
            _ => seq![],
        });
        row = row + 1;
    }
    assert(bitmap@ + seq![] =~= bitmap@);
    Some(bitmap)
}

/// Convert a parsed [`BmFont`] and its atlas pages into [`GlyphRecord`]s.
///
/// `page_images` holds `(width, height, rgba)` per page, indexed by page id.
/// Each glyph's bitmap is cropped from the page it names (row by row, by
/// byte offset: see [`crop`]); its kerning pairs are those whose first
/// character is the glyph.
pub fn bmfont_to_glyphs(
    bmfont: &BmFont,
    page_images: &[(u32, u32, &[u8])],
    source_id: &str,
) -> (r: Result<Vec<GlyphRecord>, FontbakeError>)
    requires
        import_glyphs(bmfont.chars@, bmfont.kernings@, page_data(page_images@), source_id@) is Some,
    ensures
        match r {
            Ok(gs) => import_glyphs(bmfont.chars@, bmfont.kernings@, page_data(page_images@), source_id@)
                == Some(Ok::<Seq<GlyphView>, Seq<char>>(gs@.map_values(|g: GlyphRecord| g@))),
            Err(FontbakeError::BmfontParse(m)) => import_glyphs(
                bmfont.chars@,
                bmfont.kernings@,
                page_data(page_images@),
                source_id@,
            ) == Some(Err::<Seq<GlyphView>, Seq<char>>(m@)),
            Err(_) => false,
        },
{
    let ghost cs = bmfont.chars@;
    let ghost ks = bmfont.kernings@;
    let ghost pages = page_data(page_images@);
    let ghost sid = source_id@;
    let mut glyphs: Vec<GlyphRecord> = Vec::new();
    let mut i: usize = 0;
    assert(cs.skip(0) =~= cs);
    assert(glyphs@.map_values(|g: GlyphRecord| g@) =~= Seq::<GlyphView>::empty());
    while i < bmfont.chars.len()
        invariant
            i <= cs.len(),
            cs == bmfont.chars@,
            ks == bmfont.kernings@,
            pages == page_data(page_images@),
            sid == source_id@,
            import_glyphs(cs, ks, pages, sid) is Some,
            import_glyphs(cs, ks, pages, sid) == with_prefix(
                glyphs@.map_values(|g: GlyphRecord| g@),
                import_glyphs(cs.skip(i as int), ks, pages, sid),
            ),
        decreases cs.len() - i,
    {
        let ch = &bmfont.chars[i];
        let ghost rest = cs.skip(i as int);
        assert(rest[0] == *ch);
        assert(rest.drop_first() =~= cs.skip(i + 1));
        let mut rec = GlyphRecord::new(ch.id, SourceKind::BitmapImport, str_to_string(source_id));
        rec.width = ch.width;
        rec.height = ch.height;
        rec.xoffset = ch.xoffset;
        rec.yoffset = ch.yoffset;
        rec.xadvance = ch.xadvance;
        rec.page = ch.page;
        rec.x = ch.x;
        rec.y = ch.y;
        rec.kernings = collect_kernings(&bmfont.kernings, ch.id);
        if ch.width > 0 && ch.height > 0 {
            let page_idx = ch.page as usize;
            if page_idx >= page_images.len() {
                return Err(FontbakeError::BmfontParse(err_missing_page(ch, page_images.len())));
            }
            let (pw, _ph, pixels) = page_images[page_idx];
            match crop_pixels(ch, pw, pixels) {
                Some(b) => {
                    rec.bitmap_rgba = b;
                },
                None => {
                    return Err(FontbakeError::BmfontParse(err_out_of_bounds(ch)));
                },
            }
        }
        assert(rec@ == imported_glyph(*ch, ks, sid, rec.bitmap_rgba@));
        let ghost pre = glyphs@.map_values(|g: GlyphRecord| g@);
        glyphs.push(rec);
        assert(glyphs@.map_values(|g: GlyphRecord| g@) =~= pre + seq![rec@]);
        assert(with_prefix(pre, with_prefix(seq![rec@], import_glyphs(cs.skip(i + 1), ks, pages, sid)))
            == with_prefix(pre + seq![rec@], import_glyphs(cs.skip(i + 1), ks, pages, sid))) by {
            match import_glyphs(cs.skip(i + 1), ks, pages, sid) {
                Some(Ok(r2)) => {
                    assert(pre + (seq![rec@] + r2) =~= pre + seq![rec@] + r2);
                },
                _ => {},
            }
        }
        i = i + 1;
    }
    assert(cs.skip(i as int) =~= Seq::<BmFontChar>::empty());
    assert(glyphs@.map_values(|g: GlyphRecord| g@) + seq![] =~= glyphs@.map_values(
        |g: GlyphRecord| g@,
    ));
    Ok(glyphs)
}

} // verus!
