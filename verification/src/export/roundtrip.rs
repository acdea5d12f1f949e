//! Reading back what the exporter writes.
//!
//! Every line that `export_fnt` writes is a tag followed by `key=value`
//! attributes. This module shows that the parser reads such a line back to
//! the same attributes, and from there that parsing an exported BMFont gives
//! the BMFont again.
use vstd::prelude::*;
use crate::export::bmfont_text::{
    attr, char_line, chars_text, common_line, count_line, csv_text, flag, info_line, kerning_line,
    kernings_text, nl, pad, page_line, pages_text, quoted, sp, spec_export_fnt,
};
use crate::model::{BmFontChar, BmFontCommon, BmFontKerning, BmFontView, InfoView, PageView};
use crate::num::{dec, dec_int, is_digit, lemma_dec, lemma_parse_i32_dec, lemma_parse_u32_dec};
use crate::source::bmfont_text::{
    char_from, common_from, csv_spec, empty_state, get_str, info_from, kerning_from, lookup,
    page_from, parse_attrs, parse_parts, read_lines, spec_parse_fnt, split_comma, split_tag,
    step_line, FntState,
};
use crate::text::{
    find_char, is_ws, lemma_find_char, lemma_find_char_at, lemma_find_ws_at, lines, trim,
    trim_start,
};

verus! {

// ---------------------------------------------------------------------------
// Attributes as the exporter writes them
// ---------------------------------------------------------------------------

/// An attribute as it is written: its key, its value, whether the value is
/// quoted, and the width the value is padded to with spaces.
pub struct Item {
    pub key: Seq<char>,
    pub val: Seq<char>,
    pub quoted: bool,
    pub width: nat,
}

/// The value as written after `=`.
pub open spec fn shown(it: Item) -> Seq<char> {
    if it.quoted {
        quoted(it.val)
    } else {
        pad(it.val, it.width)
    }
}

/// A space, then `key=value`.
pub open spec fn item_text(it: Item) -> Seq<char> {
    sp() + attr(it.key, shown(it))
}

pub open spec fn items_text(items: Seq<Item>) -> Seq<char>
    decreases items.len(),
{
    if items.len() == 0 {
        seq![]
    } else {
        item_text(items[0]) + items_text(items.drop_first())
    }
}

/// The padding spaces after a value.
pub open spec fn after(it: Item) -> Seq<char> {
    if it.quoted {
        seq![]
    } else {
        Seq::new(
            if it.val.len() < it.width {
                (it.width - it.val.len()) as nat
            } else {
                0
            },
            |i: int| ' ',
        )
    }
}

/// The pairs that the parser is to read back.
pub open spec fn pairs(items: Seq<Item>) -> Seq<(Seq<char>, Seq<char>)> {
    items.map_values(|it: Item| (it.key, it.val))
}

pub open spec fn all_ws(w: Seq<char>) -> bool {
    forall|i: int| 0 <= i < w.len() ==> is_ws(#[trigger] w[i])
}

/// No whitespace, no `=`, no `"`.
pub open spec fn word(s: Seq<char>) -> bool {
    &&& s.len() > 0
    &&& forall|i: int|
        0 <= i < s.len() ==> !is_ws(#[trigger] s[i]) && s[i] != '=' && s[i] != '"'
}

/// Text that may stand between double quotes on one line.
pub open spec fn quotable(s: Seq<char>) -> bool {
    forall|i: int| 0 <= i < s.len() ==> #[trigger] s[i] != '"' && s[i] != '\n'
}

pub open spec fn item_ok(it: Item) -> bool {
    &&& word(it.key)
    &&& if it.quoted {
        quotable(it.val)
    } else {
        word(it.val)
    }
}

pub open spec fn items_ok(items: Seq<Item>) -> bool {
    forall|i: int| 0 <= i < items.len() ==> item_ok(#[trigger] items[i])
}

// ---------------------------------------------------------------------------
// Trimming
// ---------------------------------------------------------------------------

proof fn lemma_trim_start_ws(w: Seq<char>, y: Seq<char>)
    requires
        all_ws(w),
    ensures
        trim_start(w + y) == trim_start(y),
    decreases w.len(),
{
    if w.len() > 0 {
        assert((w + y).drop_first() =~= w.drop_first() + y);
        lemma_trim_start_ws(w.drop_first(), y);
    } else {
        assert(w + y =~= y);
    }
}

proof fn lemma_trim_start_id(y: Seq<char>)
    requires
        y.len() == 0 || !is_ws(y[0]),
    ensures
        trim_start(y) == y,
{
}

proof fn lemma_trim_word(s: Seq<char>)
    requires
        word(s),
    ensures
        trim(s) == s,
{
    lemma_trim_start_id(s);
    assert(!is_ws(s.last()));
}

proof fn lemma_trim_start_idem(y: Seq<char>)
    ensures
        trim_start(trim_start(y)) == trim_start(y),
{
    let k = crate::text::lemma_trim_start(y);
    lemma_trim_start_id(y.skip(k));
}

/// The parser reads attributes from the text after leading whitespace only.
proof fn lemma_parse_attrs_trim(y: Seq<char>)
    ensures
        parse_attrs(trim_start(y)) == parse_attrs(y),
{
    lemma_trim_start_idem(y);
}

// ---------------------------------------------------------------------------
// Reading attributes back
// ---------------------------------------------------------------------------

proof fn lemma_shown(it: Item)
    ensures
        !it.quoted ==> shown(it) == it.val + after(it),
        all_ws(after(it)),
{
    if !it.quoted {
        assert(shown(it) =~= it.val + after(it));
    }
}

/// One attribute after some whitespace.
proof fn lemma_parse_item(w: Seq<char>, it: Item, tail: Seq<char>)
    requires
        all_ws(w),
        item_ok(it),
        tail.len() == 0 || is_ws(tail[0]),
    ensures
        parse_attrs(w + attr(it.key, shown(it)) + tail) == seq![(it.key, it.val)] + parse_attrs(
            after(it) + tail,
        ),
{
    let x = w + attr(it.key, shown(it)) + tail;
    let t = it.key + seq!['='] + shown(it) + tail;
    assert(x =~= w + t);
    lemma_trim_start_ws(w, t);
    lemma_trim_start_id(t);
    assert(trim_start(x) == t);
    let eq = it.key.len() as int;
    lemma_find_char_at(t, '=', eq);
    assert(t.take(eq) =~= it.key);
    lemma_trim_word(it.key);
    let rest = t.skip(eq + 1);
    assert(rest =~= shown(it) + tail);
    lemma_shown(it);
    if it.quoted {
        let r2 = rest.drop_first();
        assert(r2 =~= it.val + seq!['"'] + tail);
        let end = it.val.len() as int;
        lemma_find_char_at(r2, '"', end);
        assert(r2.take(end) =~= it.val);
        assert(r2.skip(end + 1) =~= tail);
        assert(after(it) + tail =~= tail);
    } else {
        let end = it.val.len() as int;
        assert(rest =~= it.val + (after(it) + tail));
        assert(rest[0] == it.val[0]);
        if (after(it) + tail).len() > 0 {
            assert(is_ws(rest[end]));
            lemma_find_ws_at(rest, end);
            assert(rest.take(end) =~= it.val);
            assert(rest.skip(end) =~= after(it) + tail);
        } else {
            lemma_find_ws_at(rest, rest.len() as int);
            assert(rest =~= it.val);
            assert(after(it) + tail =~= Seq::<char>::empty());
            assert(seq![(it.key, it.val)] + parse_attrs(after(it) + tail) =~= seq![(it.key, it.val)]);
        }
    }
}

/// A run of attributes after some whitespace reads back to its pairs.
pub proof fn lemma_parse_items(w: Seq<char>, items: Seq<Item>)
    requires
        all_ws(w),
        items_ok(items),
    ensures
        parse_attrs(w + items_text(items)) == pairs(items),
    decreases items.len(),
{
    if items.len() == 0 {
        assert(w + items_text(items) =~= w + seq![]);
        lemma_trim_start_ws(w, seq![]);
        assert(pairs(items) =~= seq![]);
    } else {
        let it = items[0];
        let tail = items_text(items.drop_first());
        assert(items_ok(items.drop_first())) by {
            assert forall|i: int| 0 <= i < items.drop_first().len() implies item_ok(
                #[trigger] items.drop_first()[i],
            ) by {
                assert(items.drop_first()[i] == items[i + 1]);
            }
        }
        assert(item_ok(items[0]));
        let w2 = w + sp();
        assert(all_ws(w2)) by {
            assert forall|i: int| 0 <= i < w2.len() implies is_ws(#[trigger] w2[i]) by {
                if i < w.len() {
                    assert(w2[i] == w[i]);
                }
            }
        }
        assert(w + items_text(items) =~= w2 + attr(it.key, shown(it)) + tail);
        if items.drop_first().len() > 0 {
            assert(tail[0] == ' ');
        }
        lemma_parse_item(w2, it, tail);
        lemma_shown(it);
        lemma_parse_items(after(it), items.drop_first());
        assert(pairs(items) =~= seq![(it.key, it.val)] + pairs(items.drop_first()));
    }
}

// ---------------------------------------------------------------------------
// Lines
// ---------------------------------------------------------------------------

pub proof fn lemma_items_text_push(s: Seq<Item>, it: Item)
    ensures
        items_text(s.push(it)) == items_text(s) + item_text(it),
    decreases s.len(),
{
    if s.len() == 0 {
        let e = s.push(it).drop_first();
        assert(e.len() == 0);
        assert(items_text(e) =~= Seq::<char>::empty());
        assert(s.push(it)[0] == it);
        assert(items_text(s.push(it)) =~= item_text(it) + items_text(e));
        assert(items_text(s) + item_text(it) =~= item_text(it));
    } else {
        assert(s.push(it).drop_first() =~= s.drop_first().push(it));
        lemma_items_text_push(s.drop_first(), it);
        assert(items_text(s.push(it)) =~= item_text(s[0]) + (items_text(s.drop_first()) + item_text(
            it,
        )));
    }
}

proof fn lemma_items_ok_tail(items: Seq<Item>)
    requires
        items_ok(items),
        items.len() > 0,
    ensures
        items_ok(items.drop_first()),
        item_ok(items[0]),
{
    assert forall|i: int| 0 <= i < items.drop_first().len() implies item_ok(
        #[trigger] items.drop_first()[i],
    ) by {
        assert(items.drop_first()[i] == items[i + 1]);
    }
}

/// No line break in written attributes.
proof fn lemma_items_no_nl(items: Seq<Item>)
    requires
        items_ok(items),
    ensures
        forall|i: int| 0 <= i < items_text(items).len() ==> #[trigger] items_text(items)[i] != '\n',
    decreases items.len(),
{
    if items.len() > 0 {
        lemma_items_ok_tail(items);
        lemma_items_no_nl(items.drop_first());
        let it = items[0];
        let a = item_text(it);
        assert forall|i: int| 0 <= i < a.len() implies #[trigger] a[i] != '\n' by {
            let k = it.key.len() as int;
            if 1 <= i < 1 + k {
                assert(a[i] == it.key[i - 1]);
            } else if i > k + 1 {
                if it.quoted {
                    if i > k + 2 && i < a.len() - 1 {
                        assert(a[i] == it.val[i - k - 3]);
                    }
                } else {
                    if i < k + 2 + it.val.len() {
                        assert(a[i] == it.val[i - k - 2]);
                    }
                }
            }
        }
        let t = items_text(items.drop_first());
        assert forall|i: int| 0 <= i < items_text(items).len() implies #[trigger] items_text(
            items,
        )[i] != '\n' by {
            if i < a.len() {
                assert(items_text(items)[i] == a[i]);
            } else {
                assert(items_text(items)[i] == t[i - a.len()]);
            }
        }
    }
}

/// A tag followed by attributes, the last of them not padded.
pub open spec fn line_ok(tag: Seq<char>, items: Seq<Item>) -> bool {
    &&& word(tag)
    &&& items_ok(items)
    &&& items.len() > 0
    &&& after(items.last()).len() == 0
}

proof fn lemma_line_last(items: Seq<Item>)
    requires
        items_ok(items),
        items.len() > 0,
        after(items.last()).len() == 0,
    ensures
        items_text(items).len() > 0,
        !is_ws(items_text(items).last()),
        items_text(items)[0] == ' ',
{
    let init = items.drop_last();
    let it = items.last();
    assert(init.push(it) =~= items);
    lemma_items_text_push(init, it);
    assert(item_ok(items[items.len() - 1]));
    lemma_shown(it);
    let a = item_text(it);
    assert(items_text(items).last() == a.last());
    if !it.quoted {
        assert(after(it) =~= Seq::<char>::empty());
        assert(a.last() == it.val.last());
    }
    if init.len() > 0 {
        assert(items_text(items)[0] == items_text(init)[0]);
    }
}

/// What the parser sees of a written line.
pub proof fn lemma_read_line(tag: Seq<char>, items: Seq<Item>)
    requires
        line_ok(tag, items),
    ensures
        ({
            let l = tag + items_text(items);
            &&& l.len() > 0
            &&& !is_ws(l.last())
            &&& forall|i: int| 0 <= i < l.len() ==> #[trigger] l[i] != '\n'
            &&& trim(l) == l
            &&& crate::source::bmfont_text::split_tag(l).0 == tag
            &&& parse_attrs(crate::source::bmfont_text::split_tag(l).1) == pairs(items)
        }),
{
    let l = tag + items_text(items);
    lemma_line_last(items);
    assert(l.last() == items_text(items).last());
    lemma_trim_start_id(l);
    assert(trim_start(l) == l);
    assert(trim(l) == l);
    lemma_items_no_nl(items);
    assert forall|i: int| 0 <= i < l.len() implies #[trigger] l[i] != '\n' by {
        if i < tag.len() {
            assert(l[i] == tag[i]);
        } else {
            assert(l[i] == items_text(items)[i - tag.len()]);
        }
    }
    let p = tag.len() as int;
    assert(l[p] == ' ');
    lemma_find_ws_at(l, p);
    assert(l.take(p) =~= tag);
    assert(l.skip(p) =~= items_text(items));
    lemma_parse_attrs_trim(items_text(items));
    lemma_parse_items(seq![], items);
    assert(seq![] + items_text(items) =~= items_text(items));
}

/// `str::lines` of a line, its line break and the rest.
pub proof fn lemma_lines_cons(l: Seq<char>, s: Seq<char>)
    requires
        forall|i: int| 0 <= i < l.len() ==> #[trigger] l[i] != '\n',
        l.len() > 0,
        l.last() != '\r',
    ensures
        crate::text::lines(l + seq!['\n'] + s) == seq![l] + crate::text::lines(s),
{
    let x = l + seq!['\n'] + s;
    lemma_find_char_at(x, '\n', l.len() as int);
    assert(x.take(l.len() as int) =~= l);
    assert(x.skip(l.len() + 1int) =~= s);
}

/// The value of the first pair with a given key.
pub proof fn lemma_lookup_pairs(items: Seq<Item>, j: int)
    requires
        0 <= j < items.len(),
        forall|i: int| 0 <= i < j ==> (#[trigger] items[i]).key != items[j].key,
    ensures
        crate::source::bmfont_text::lookup(pairs(items), items[j].key) == Some(items[j].val),
    decreases j,
{
    if j > 0 {
        assert(pairs(items).drop_first() =~= pairs(items.drop_first()));
        assert forall|i: int| 0 <= i < j - 1 implies (#[trigger] items.drop_first()[i]).key
            != items.drop_first()[j - 1].key by {
            assert(items.drop_first()[i] == items[i + 1]);
        }
        assert(items[0].key != items[j].key);
        lemma_lookup_pairs(items.drop_first(), j - 1);
    }
}

// ---------------------------------------------------------------------------
// Numbers
// ---------------------------------------------------------------------------

/// Digits, minus signs and commas.
pub open spec fn numeric(s: Seq<char>) -> bool {
    forall|i: int| 0 <= i < s.len() ==> is_digit(#[trigger] s[i]) || s[i] == '-' || s[i] == ','
}

proof fn lemma_numeric_word(s: Seq<char>)
    requires
        numeric(s),
        s.len() > 0,
    ensures
        word(s),
{
    assert forall|i: int| 0 <= i < s.len() implies !is_ws(#[trigger] s[i]) && s[i] != '=' && s[i]
        != '"' by {
        assert(is_digit(s[i]) || s[i] == '-' || s[i] == ',');
    }
}

proof fn lemma_numeric_dec_int(v: int)
    ensures
        numeric(dec_int(v)),
        dec_int(v).len() > 0,
        forall|i: int| 0 <= i < dec_int(v).len() ==> #[trigger] dec_int(v)[i] != ',',
{
    if v < 0 {
        lemma_dec((-v) as nat);
        let s = dec_int(v);
        assert forall|i: int| 0 <= i < s.len() implies (is_digit(#[trigger] s[i]) || s[i] == '-')
            && s[i] != ',' by {
            if i > 0 {
                assert(s[i] == dec((-v) as nat)[i - 1]);
                assert(is_digit(dec((-v) as nat)[i - 1]));
            }
        }
    } else {
        lemma_dec(v as nat);
        let s = dec_int(v);
        assert forall|i: int| 0 <= i < s.len() implies is_digit(#[trigger] s[i]) && s[i] != ',' by {
            assert(is_digit(dec(v as nat)[i]));
        }
    }
}

proof fn lemma_numeric_csv(v: Seq<i32>)
    ensures
        numeric(csv_text(v)),
        v.len() > 0 ==> csv_text(v).len() > 0,
    decreases v.len(),
{
    if v.len() == 1 {
        lemma_numeric_dec_int(v[0] as int);
    } else if v.len() > 1 {
        lemma_numeric_csv(v.drop_last());
        lemma_numeric_dec_int(v.last() as int);
        let a = csv_text(v.drop_last());
        let b = dec_int(v.last() as int);
        let s = csv_text(v);
        assert(s == a + seq![','] + b);
        assert forall|i: int| 0 <= i < s.len() implies is_digit(#[trigger] s[i]) || s[i] == '-'
            || s[i] == ',' by {
            if i < a.len() {
                assert(s[i] == a[i]);
            } else if i > a.len() {
                assert(s[i] == b[i - a.len() - 1]);
            }
        }
    }
}

proof fn lemma_split_comma_none(s: Seq<char>)
    requires
        forall|i: int| 0 <= i < s.len() ==> #[trigger] s[i] != ',',
    ensures
        split_comma(s) == seq![s],
{
    lemma_find_char_at(s, ',', s.len() as int);
}

proof fn lemma_split_comma_join(s: Seq<char>, t: Seq<char>)
    ensures
        split_comma(s + seq![','] + t) == split_comma(s) + split_comma(t),
    decreases s.len(),
{
    let x = s + seq![','] + t;
    lemma_find_char(s, ',');
    match find_char(s, ',') {
        None => {
            lemma_find_char_at(x, ',', s.len() as int);
            assert(x.take(s.len() as int) =~= s);
            assert(x.skip(s.len() + 1int) =~= t);
            lemma_split_comma_none(s);
        },
        Some(i) => {
            lemma_find_char_at(x, ',', i);
            assert(x.take(i) =~= s.take(i));
            assert(x.skip(i + 1) =~= s.skip(i + 1) + seq![','] + t);
            lemma_split_comma_join(s.skip(i + 1), t);
            assert(split_comma(x) =~= split_comma(s) + split_comma(t));
        },
    }
}

proof fn lemma_split_csv(v: Seq<i32>)
    requires
        v.len() > 0,
    ensures
        split_comma(csv_text(v)) == v.map_values(|x: i32| dec_int(x as int)),
    decreases v.len(),
{
    lemma_numeric_dec_int(v.last() as int);
    lemma_split_comma_none(dec_int(v.last() as int));
    if v.len() == 1 {
        assert(v.map_values(|x: i32| dec_int(x as int)) =~= seq![dec_int(v[0] as int)]);
    } else {
        lemma_split_csv(v.drop_last());
        lemma_split_comma_join(csv_text(v.drop_last()), dec_int(v.last() as int));
        assert(v.map_values(|x: i32| dec_int(x as int)) =~= v.drop_last().map_values(
            |x: i32| dec_int(x as int),
        ) + seq![dec_int(v.last() as int)]);
    }
}

proof fn lemma_parse_parts_dec(v: Seq<i32>, key: Seq<char>, n: nat)
    ensures
        parse_parts(v.map_values(|x: i32| dec_int(x as int)), key, n) == Ok::<Seq<i32>, Seq<char>>(
            v,
        ),
    decreases v.len(),
{
    if v.len() > 0 {
        let m = v.map_values(|x: i32| dec_int(x as int));
        lemma_parse_i32_dec(v[0]);
        assert(m.drop_first() =~= v.drop_first().map_values(|x: i32| dec_int(x as int)));
        lemma_parse_parts_dec(v.drop_first(), key, n);
        assert(seq![v[0]] + v.drop_first() =~= v);
    } else {
        assert(v =~= seq![]);
    }
}

/// A written list of integers reads back.
pub proof fn lemma_csv_spec(a: Seq<(Seq<char>, Seq<char>)>, key: Seq<char>, n: nat, v: Seq<i32>)
    requires
        get_str(a, key) == csv_text(v),
        v.len() > 0,
    ensures
        csv_spec(a, key, n, v.len()) == Ok::<Seq<i32>, Seq<char>>(v),
{
    lemma_numeric_csv(v);
    lemma_split_csv(v);
    lemma_parse_parts_dec(v, key, n);
}

// ---------------------------------------------------------------------------
// The info line
// ---------------------------------------------------------------------------

pub open spec fn quoted_item(key: Seq<char>, val: Seq<char>) -> Item {
    Item { key, val, quoted: true, width: 0 }
}

pub open spec fn plain_item(key: Seq<char>, val: Seq<char>, width: nat) -> Item {
    Item { key, val, quoted: false, width }
}

pub proof fn lemma_items_text_last(s: Seq<Item>)
    requires
        s.len() > 0,
    ensures
        items_text(s) == items_text(s.drop_last()) + item_text(s.last()),
{
    assert(s.drop_last().push(s.last()) =~= s);
    lemma_items_text_push(s.drop_last(), s.last());
}

pub open spec fn info_items(i: InfoView) -> Seq<Item> {
    Seq::empty().push(quoted_item("face"@, i.face)).push(plain_item("size"@, dec_int(i.size as int), 0)).push(
        plain_item("bold"@, flag(i.bold), 0),
    ).push(plain_item("italic"@, flag(i.italic), 0)).push(quoted_item("charset"@, i.charset)).push(
        plain_item("unicode"@, flag(i.unicode), 0),
    ).push(plain_item("stretchH"@, dec(i.stretch_h as nat), 0)).push(
        plain_item("smooth"@, flag(i.smooth), 0),
    ).push(plain_item("aa"@, dec(i.aa as nat), 0)).push(plain_item("padding"@, csv_text(i.padding), 0)).push(
        plain_item("spacing"@, csv_text(i.spacing), 0),
    )
}

proof fn lemma_pad0(s: Seq<char>)
    ensures
        pad(s, 0) == s,
{
    assert(pad(s, 0) =~= s);
}

#[verifier::rlimit(100)]
pub proof fn lemma_info_line(i: InfoView)
    ensures
        info_line(i) == "info"@ + items_text(info_items(i)) + nl(),
{
    let s11 = info_items(i);
    let s10 = s11.drop_last();
    let s9 = s10.drop_last();
    let s8 = s9.drop_last();
    let s7 = s8.drop_last();
    let s6 = s7.drop_last();
    let s5 = s6.drop_last();
    let s4 = s5.drop_last();
    let s3 = s4.drop_last();
    let s2 = s3.drop_last();
    let s1 = s2.drop_last();
    let s0 = s1.drop_last();
    lemma_items_text_last(s11);
    lemma_items_text_last(s10);
    lemma_items_text_last(s9);
    lemma_items_text_last(s8);
    lemma_items_text_last(s7);
    lemma_items_text_last(s6);
    lemma_items_text_last(s5);
    lemma_items_text_last(s4);
    lemma_items_text_last(s3);
    lemma_items_text_last(s2);
    lemma_items_text_last(s1);
    assert(items_text(s0) =~= Seq::<char>::empty());
    lemma_pad0(dec_int(i.size as int));
    lemma_pad0(flag(i.bold));
    lemma_pad0(flag(i.italic));
    lemma_pad0(flag(i.unicode));
    lemma_pad0(dec(i.stretch_h as nat));
    lemma_pad0(flag(i.smooth));
    lemma_pad0(dec(i.aa as nat));
    lemma_pad0(csv_text(i.padding));
    lemma_pad0(csv_text(i.spacing));
    reveal(info_line);
    assert(info_line(i) =~= "info"@ + items_text(info_items(i)) + nl());
}

proof fn lemma_numeric_dec(n: nat)
    ensures
        word(dec(n)),
{
    lemma_numeric_dec_int(n as int);
    lemma_numeric_word(dec(n));
}

proof fn lemma_word_int(v: int)
    ensures
        word(dec_int(v)),
{
    lemma_numeric_dec_int(v);
    lemma_numeric_word(dec_int(v));
}

proof fn lemma_word_csv(v: Seq<i32>)
    requires
        v.len() > 0,
    ensures
        word(csv_text(v)),
{
    lemma_numeric_csv(v);
    lemma_numeric_word(csv_text(v));
}

proof fn lemma_flag(b: bool)
    ensures
        word(flag(b)),
        crate::num::parse_u32(flag(b)) == Some(if b { 1u32 } else { 0u32 }),
{
    lemma_numeric_dec(if b { 1 } else { 0 });
    lemma_parse_u32_dec(if b { 1u32 } else { 0u32 });
}

/// The info line is well formed and reads back to the info it was written from.
#[verifier::rlimit(100)]
pub proof fn lemma_info_read(i: InfoView, n: nat)
    requires
        quotable(i.face),
        quotable(i.charset),
        i.padding.len() == 4,
        i.spacing.len() == 2,
    ensures
        line_ok("info"@, info_items(i)),
        info_from(pairs(info_items(i)), n) == Ok::<InfoView, Seq<char>>(i),
{
    reveal_strlit("info");
    reveal_strlit("face");
    reveal_strlit("size");
    reveal_strlit("bold");
    reveal_strlit("italic");
    reveal_strlit("charset");
    reveal_strlit("unicode");
    reveal_strlit("stretchH");
    reveal_strlit("smooth");
    reveal_strlit("aa");
    reveal_strlit("padding");
    reveal_strlit("spacing");
    let s = info_items(i);
    let a = pairs(s);
    lemma_word_int(i.size as int);
    lemma_flag(i.bold);
    lemma_flag(i.italic);
    lemma_flag(i.unicode);
    lemma_flag(i.smooth);
    lemma_numeric_dec(i.stretch_h as nat);
    lemma_numeric_dec(i.aa as nat);
    lemma_word_csv(i.padding);
    lemma_word_csv(i.spacing);
    assert(items_ok(s)) by {
        assert forall|k: int| 0 <= k < s.len() implies item_ok(#[trigger] s[k]) by {
            assert(0 <= k < 11);
        }
    }
    assert(word("info"@));
    assert("face"@[0] == 'f' && "size"@[0] == 's' && "bold"@[0] == 'b' && "italic"@[0] == 'i'
        && "charset"@[0] == 'c' && "unicode"@[0] == 'u' && "stretchH"@[0] == 's' && "smooth"@[0]
        == 's' && "aa"@[0] == 'a' && "padding"@[0] == 'p' && "spacing"@[0] == 's');
    assert("size"@[1] == 'i' && "stretchH"@[1] == 't' && "smooth"@[1] == 'm' && "spacing"@[1]
        == 'p');
    lemma_lookup_pairs(s, 0);
    lemma_lookup_pairs(s, 1);
    lemma_lookup_pairs(s, 2);
    lemma_lookup_pairs(s, 3);
    lemma_lookup_pairs(s, 4);
    lemma_lookup_pairs(s, 5);
    lemma_lookup_pairs(s, 6);
    lemma_lookup_pairs(s, 7);
    lemma_lookup_pairs(s, 8);
    lemma_lookup_pairs(s, 9);
    lemma_lookup_pairs(s, 10);
    lemma_parse_i32_dec(i.size);
    lemma_parse_u32_dec(i.stretch_h);
    lemma_parse_u32_dec(i.aa);
    lemma_csv_spec(a, "padding"@, n, i.padding);
    lemma_csv_spec(a, "spacing"@, n, i.spacing);
}

// ---------------------------------------------------------------------------
// The other lines
// ---------------------------------------------------------------------------

pub open spec fn common_items(c: BmFontCommon) -> Seq<Item> {
    Seq::empty().push(plain_item("lineHeight"@, dec(c.line_height as nat), 0)).push(
        plain_item("base"@, dec(c.base as nat), 0),
    ).push(plain_item("scaleW"@, dec(c.scale_w as nat), 0)).push(
        plain_item("scaleH"@, dec(c.scale_h as nat), 0),
    ).push(plain_item("pages"@, dec(c.pages as nat), 0)).push(plain_item("packed"@, flag(c.packed), 0))
}

pub proof fn lemma_common_line(c: BmFontCommon)
    ensures
        common_line(c) == "common"@ + items_text(common_items(c)) + nl(),
{
    let s6 = common_items(c);
    let s5 = s6.drop_last();
    let s4 = s5.drop_last();
    let s3 = s4.drop_last();
    let s2 = s3.drop_last();
    let s1 = s2.drop_last();
    let s0 = s1.drop_last();
    lemma_items_text_last(s6);
    lemma_items_text_last(s5);
    lemma_items_text_last(s4);
    lemma_items_text_last(s3);
    lemma_items_text_last(s2);
    lemma_items_text_last(s1);
    assert(items_text(s0) =~= Seq::<char>::empty());
    lemma_pad0(dec(c.line_height as nat));
    lemma_pad0(dec(c.base as nat));
    lemma_pad0(dec(c.scale_w as nat));
    lemma_pad0(dec(c.scale_h as nat));
    lemma_pad0(dec(c.pages as nat));
    lemma_pad0(flag(c.packed));
    reveal(common_line);
    assert(common_line(c) =~= "common"@ + items_text(common_items(c)) + nl());
}

#[verifier::rlimit(50)]
pub proof fn lemma_common_read(c: BmFontCommon, n: nat)
    ensures
        line_ok("common"@, common_items(c)),
        common_from(pairs(common_items(c)), n) == Ok::<BmFontCommon, Seq<char>>(c),
{
    reveal_strlit("common");
    reveal_strlit("lineHeight");
    reveal_strlit("base");
    reveal_strlit("scaleW");
    reveal_strlit("scaleH");
    reveal_strlit("pages");
    reveal_strlit("packed");
    let s = common_items(c);
    lemma_numeric_dec(c.line_height as nat);
    lemma_numeric_dec(c.base as nat);
    lemma_numeric_dec(c.scale_w as nat);
    lemma_numeric_dec(c.scale_h as nat);
    lemma_numeric_dec(c.pages as nat);
    lemma_flag(c.packed);
    assert(items_ok(s)) by {
        assert forall|k: int| 0 <= k < s.len() implies item_ok(#[trigger] s[k]) by {
            assert(0 <= k < 6);
        }
    }
    assert("lineHeight"@[0] == 'l' && "base"@[0] == 'b' && "scaleW"@[0] == 's' && "scaleH"@[0]
        == 's' && "pages"@[0] == 'p' && "packed"@[0] == 'p');
    assert("scaleW"@[5] == 'W' && "scaleH"@[5] == 'H');
    lemma_lookup_pairs(s, 0);
    lemma_lookup_pairs(s, 1);
    lemma_lookup_pairs(s, 2);
    lemma_lookup_pairs(s, 3);
    lemma_lookup_pairs(s, 4);
    lemma_lookup_pairs(s, 5);
    lemma_parse_u32_dec(c.line_height);
    lemma_parse_u32_dec(c.base);
    lemma_parse_u32_dec(c.scale_w);
    lemma_parse_u32_dec(c.scale_h);
    lemma_parse_u32_dec(c.pages);
}

pub open spec fn page_items(p: PageView) -> Seq<Item> {
    Seq::empty().push(plain_item("id"@, dec(p.id as nat), 0)).push(quoted_item("file"@, p.file))
}

pub proof fn lemma_page_line(p: PageView)
    ensures
        page_line(p) == "page"@ + items_text(page_items(p)) + nl(),
{
    let s2 = page_items(p);
    let s1 = s2.drop_last();
    let s0 = s1.drop_last();
    lemma_items_text_last(s2);
    lemma_items_text_last(s1);
    assert(items_text(s0) =~= Seq::<char>::empty());
    lemma_pad0(dec(p.id as nat));
    reveal(page_line);
    assert(page_line(p) =~= "page"@ + items_text(page_items(p)) + nl());
}

pub proof fn lemma_page_read(p: PageView, n: nat)
    requires
        quotable(p.file),
    ensures
        line_ok("page"@, page_items(p)),
        page_from(pairs(page_items(p)), n) == Ok::<PageView, Seq<char>>(p),
{
    reveal_strlit("page");
    reveal_strlit("id");
    reveal_strlit("file");
    let s = page_items(p);
    lemma_numeric_dec(p.id as nat);
    assert(items_ok(s)) by {
        assert forall|k: int| 0 <= k < s.len() implies item_ok(#[trigger] s[k]) by {
            assert(0 <= k < 2);
        }
    }
    lemma_lookup_pairs(s, 0);
    lemma_lookup_pairs(s, 1);
    lemma_parse_u32_dec(p.id);
}

pub open spec fn char_items(c: BmFontChar) -> Seq<Item> {
    Seq::empty().push(plain_item("id"@, dec(c.id as nat), 7)).push(plain_item("x"@, dec(c.x as nat), 5)).push(
        plain_item("y"@, dec(c.y as nat), 5),
    ).push(plain_item("width"@, dec(c.width as nat), 5)).push(
        plain_item("height"@, dec(c.height as nat), 5),
    ).push(plain_item("xoffset"@, dec_int(c.xoffset as int), 4)).push(
        plain_item("yoffset"@, dec_int(c.yoffset as int), 4),
    ).push(plain_item("xadvance"@, dec_int(c.xadvance as int), 4)).push(
        plain_item("page"@, dec(c.page as nat), 4),
    ).push(plain_item("chnl"@, dec(c.chnl as nat), 0))
}

#[verifier::rlimit(100)]
pub proof fn lemma_char_line(c: BmFontChar)
    ensures
        char_line(c) == "char"@ + items_text(char_items(c)) + nl(),
{
    let s10 = char_items(c);
    let s9 = s10.drop_last();
    let s8 = s9.drop_last();
    let s7 = s8.drop_last();
    let s6 = s7.drop_last();
    let s5 = s6.drop_last();
    let s4 = s5.drop_last();
    let s3 = s4.drop_last();
    let s2 = s3.drop_last();
    let s1 = s2.drop_last();
    let s0 = s1.drop_last();
    lemma_items_text_last(s10);
    lemma_items_text_last(s9);
    lemma_items_text_last(s8);
    lemma_items_text_last(s7);
    lemma_items_text_last(s6);
    lemma_items_text_last(s5);
    lemma_items_text_last(s4);
    lemma_items_text_last(s3);
    lemma_items_text_last(s2);
    lemma_items_text_last(s1);
    assert(items_text(s0) =~= Seq::<char>::empty());
    lemma_pad0(dec(c.chnl as nat));
    reveal(char_line);
    assert(char_line(c) =~= "char"@ + items_text(char_items(c)) + nl());
}

#[verifier::rlimit(100)]
pub proof fn lemma_char_read(c: BmFontChar, n: nat)
    ensures
        line_ok("char"@, char_items(c)),
        char_from(pairs(char_items(c)), n) == Ok::<BmFontChar, Seq<char>>(c),
{
    reveal_strlit("char");
    reveal_strlit("id");
    reveal_strlit("x");
    reveal_strlit("y");
    reveal_strlit("width");
    reveal_strlit("height");
    reveal_strlit("xoffset");
    reveal_strlit("yoffset");
    reveal_strlit("xadvance");
    reveal_strlit("page");
    reveal_strlit("chnl");
    let s = char_items(c);
    lemma_numeric_dec(c.id as nat);
    lemma_numeric_dec(c.x as nat);
    lemma_numeric_dec(c.y as nat);
    lemma_numeric_dec(c.width as nat);
    lemma_numeric_dec(c.height as nat);
    lemma_word_int(c.xoffset as int);
    lemma_word_int(c.yoffset as int);
    lemma_word_int(c.xadvance as int);
    lemma_numeric_dec(c.page as nat);
    lemma_numeric_dec(c.chnl as nat);
    assert(items_ok(s)) by {
        assert forall|k: int| 0 <= k < s.len() implies item_ok(#[trigger] s[k]) by {
            assert(0 <= k < 10);
        }
    }
    assert("id"@[0] == 'i' && "x"@[0] == 'x' && "y"@[0] == 'y' && "width"@[0] == 'w'
        && "height"@[0] == 'h' && "xoffset"@[0] == 'x' && "yoffset"@[0] == 'y' && "xadvance"@[0]
        == 'x' && "page"@[0] == 'p' && "chnl"@[0] == 'c');
    lemma_lookup_pairs(s, 0);
    lemma_lookup_pairs(s, 1);
    lemma_lookup_pairs(s, 2);
    lemma_lookup_pairs(s, 3);
    lemma_lookup_pairs(s, 4);
    lemma_lookup_pairs(s, 5);
    lemma_lookup_pairs(s, 6);
    lemma_lookup_pairs(s, 7);
    lemma_lookup_pairs(s, 8);
    lemma_lookup_pairs(s, 9);
    lemma_parse_u32_dec(c.id);
    lemma_parse_u32_dec(c.x);
    lemma_parse_u32_dec(c.y);
    lemma_parse_u32_dec(c.width);
    lemma_parse_u32_dec(c.height);
    lemma_parse_i32_dec(c.xoffset);
    lemma_parse_i32_dec(c.yoffset);
    lemma_parse_i32_dec(c.xadvance);
    lemma_parse_u32_dec(c.page);
    lemma_parse_u32_dec(c.chnl);
}

pub open spec fn kerning_items(k: BmFontKerning) -> Seq<Item> {
    Seq::empty().push(plain_item("first"@, dec(k.first as nat), 0)).push(
        plain_item("second"@, dec(k.second as nat), 0),
    ).push(plain_item("amount"@, dec_int(k.amount as int), 0))
}

pub proof fn lemma_kerning_line(k: BmFontKerning)
    ensures
        kerning_line(k) == "kerning"@ + items_text(kerning_items(k)) + nl(),
{
    let s3 = kerning_items(k);
    let s2 = s3.drop_last();
    let s1 = s2.drop_last();
    let s0 = s1.drop_last();
    lemma_items_text_last(s3);
    lemma_items_text_last(s2);
    lemma_items_text_last(s1);
    assert(items_text(s0) =~= Seq::<char>::empty());
    lemma_pad0(dec(k.first as nat));
    lemma_pad0(dec(k.second as nat));
    lemma_pad0(dec_int(k.amount as int));
    reveal(kerning_line);
    assert(kerning_line(k) =~= "kerning"@ + items_text(kerning_items(k)) + nl());
}

pub proof fn lemma_kerning_read(k: BmFontKerning, n: nat)
    ensures
        line_ok("kerning"@, kerning_items(k)),
        kerning_from(pairs(kerning_items(k)), n) == Ok::<BmFontKerning, Seq<char>>(k),
{
    reveal_strlit("kerning");
    reveal_strlit("first");
    reveal_strlit("second");
    reveal_strlit("amount");
    let s = kerning_items(k);
    lemma_numeric_dec(k.first as nat);
    lemma_numeric_dec(k.second as nat);
    lemma_word_int(k.amount as int);
    assert(items_ok(s)) by {
        assert forall|j: int| 0 <= j < s.len() implies item_ok(#[trigger] s[j]) by {
            assert(0 <= j < 3);
        }
    }
    assert("first"@[0] == 'f' && "second"@[0] == 's' && "amount"@[0] == 'a');
    lemma_lookup_pairs(s, 0);
    lemma_lookup_pairs(s, 1);
    lemma_lookup_pairs(s, 2);
    lemma_parse_u32_dec(k.first);
    lemma_parse_u32_dec(k.second);
    lemma_parse_i32_dec(k.amount as i32);
}

pub open spec fn count_items(n: nat) -> Seq<Item> {
    seq![plain_item("count"@, dec(n), 0)]
}

pub proof fn lemma_count_line(tag: Seq<char>, n: nat)
    ensures
        count_line(tag, n) == tag + items_text(count_items(n)) + nl(),
        word("count"@) ==> items_ok(count_items(n)) && after(count_items(n).last()).len() == 0,
{
    let s = count_items(n);
    assert(s.drop_first() =~= Seq::<Item>::empty());
    assert(items_text(s.drop_first()) =~= Seq::<char>::empty());
    lemma_pad0(dec(n));
    assert(count_line(tag, n) =~= tag + items_text(count_items(n)) + nl());
    lemma_numeric_dec(n);
}

// ---------------------------------------------------------------------------
// Reading a written file
// ---------------------------------------------------------------------------

/// Reading a written line and what follows it.
proof fn lemma_read_cons(tag: Seq<char>, items: Seq<Item>, rest: Seq<char>, n: nat, st: FntState)
    requires
        line_ok(tag, items),
    ensures
        read_lines(lines(tag + items_text(items) + nl() + rest), n, st) == match step_line(
            tag + items_text(items),
            n,
            st,
        ) {
            Err(e) => Err(e),
            Ok(st2) => read_lines(lines(rest), n + 1, st2),
        },
{
    let l = tag + items_text(items);
    lemma_read_line(tag, items);
    assert(is_ws('\r'));
    lemma_lines_cons(l, rest);
    let ls = lines(l + nl() + rest);
    assert(ls[0] == l);
    assert(ls.drop_first() =~= lines(rest));
}

proof fn lemma_tags()
    ensures
        "info"@ != "common"@,
        "info"@ != "page"@,
        "info"@ != "char"@,
        "info"@ != "kerning"@,
        "common"@ != "page"@,
        "common"@ != "char"@,
        "common"@ != "kerning"@,
        "page"@ != "char"@,
        "page"@ != "kerning"@,
        "char"@ != "kerning"@,
        "chars"@ != "info"@,
        "chars"@ != "common"@,
        "chars"@ != "page"@,
        "chars"@ != "char"@,
        "chars"@ != "kerning"@,
        "kernings"@ != "info"@,
        "kernings"@ != "common"@,
        "kernings"@ != "page"@,
        "kernings"@ != "char"@,
        "kernings"@ != "kerning"@,
        word("count"@),
{
    reveal_strlit("info");
    reveal_strlit("common");
    reveal_strlit("page");
    reveal_strlit("char");
    reveal_strlit("kerning");
    reveal_strlit("chars");
    reveal_strlit("kernings");
    reveal_strlit("count");
    assert("info"@[0] == 'i' && "page"@[0] == 'p' && "char"@[0] == 'c' && "kerning"@[0] == 'k'
        && "common"@[0] == 'c' && "chars"@[0] == 'c' && "kernings"@[0] == 'k');
    assert("common"@[1] == 'o' && "char"@[1] == 'h' && "chars"@[1] == 'h');
    assert("common"@.len() == 6 && "char"@.len() == 4 && "chars"@.len() == 5 && "kerning"@.len()
        == 7 && "kernings"@.len() == 8);
}

proof fn lemma_read_info(i: InfoView, rest: Seq<char>, n: nat, st: FntState)
    requires
        quotable(i.face),
        quotable(i.charset),
        i.padding.len() == 4,
        i.spacing.len() == 2,
    ensures
        read_lines(lines(info_line(i) + rest), n, st) == read_lines(
            lines(rest),
            n + 1,
            FntState { info: Some(i), ..st },
        ),
{
    lemma_info_line(i);
    lemma_info_read(i, n);
    lemma_read_line("info"@, info_items(i));
    lemma_read_cons("info"@, info_items(i), rest, n, st);
}

proof fn lemma_read_common(c: BmFontCommon, rest: Seq<char>, n: nat, st: FntState)
    ensures
        read_lines(lines(common_line(c) + rest), n, st) == read_lines(
            lines(rest),
            n + 1,
            FntState { common: Some(c), ..st },
        ),
{
    lemma_common_line(c);
    lemma_common_read(c, n);
    lemma_read_line("common"@, common_items(c));
    lemma_read_cons("common"@, common_items(c), rest, n, st);
    lemma_tags();
}

proof fn lemma_read_count(tag: Seq<char>, k: nat, rest: Seq<char>, n: nat, st: FntState)
    requires
        tag == "chars"@ || tag == "kernings"@,
    ensures
        read_lines(lines(count_line(tag, k) + rest), n, st) == read_lines(lines(rest), n + 1, st),
{
    lemma_tags();
    reveal_strlit("chars");
    reveal_strlit("kernings");
    lemma_count_line(tag, k);
    assert(word(tag));
    lemma_read_line(tag, count_items(k));
    lemma_read_cons(tag, count_items(k), rest, n, st);
}

proof fn lemma_read_pages(ps: Seq<PageView>, rest: Seq<char>, n: nat, st: FntState)
    requires
        forall|k: int| 0 <= k < ps.len() ==> quotable(#[trigger] ps[k].file),
    ensures
        read_lines(lines(pages_text(ps) + rest), n, st) == read_lines(
            lines(rest),
            n + ps.len(),
            FntState { pages: st.pages + ps, ..st },
        ),
    decreases ps.len(),
{
    if ps.len() == 0 {
        assert(pages_text(ps) + rest =~= rest);
        assert(st.pages + ps =~= st.pages);
    } else {
        let init = ps.drop_last();
        let p = ps.last();
        assert(pages_text(ps) + rest =~= pages_text(init) + (page_line(p) + rest));
        assert forall|k: int| 0 <= k < init.len() implies quotable(#[trigger] init[k].file) by {
            assert(init[k] == ps[k]);
        }
        lemma_read_pages(init, page_line(p) + rest, n, st);
        let st1 = FntState { pages: st.pages + init, ..st };
        assert(quotable(ps[ps.len() - 1].file));
        lemma_page_line(p);
        lemma_page_read(p, n + init.len());
        lemma_read_line("page"@, page_items(p));
        assert(page_line(p) + rest =~= "page"@ + items_text(page_items(p)) + nl() + rest);
        lemma_read_cons("page"@, page_items(p), rest, n + init.len(), st1);
        lemma_tags();
        assert(st.pages + init.push(p) =~= st.pages + ps);
        assert((st.pages + init).push(p) =~= st.pages + ps);
    }
}

proof fn lemma_read_chars(cs: Seq<BmFontChar>, rest: Seq<char>, n: nat, st: FntState)
    ensures
        read_lines(lines(chars_text(cs) + rest), n, st) == read_lines(
            lines(rest),
            n + cs.len(),
            FntState { chars: st.chars + cs, ..st },
        ),
    decreases cs.len(),
{
    if cs.len() == 0 {
        assert(chars_text(cs) + rest =~= rest);
        assert(st.chars + cs =~= st.chars);
    } else {
        let init = cs.drop_last();
        let c = cs.last();
        assert(chars_text(cs) + rest =~= chars_text(init) + (char_line(c) + rest));
        lemma_read_chars(init, char_line(c) + rest, n, st);
        let st1 = FntState { chars: st.chars + init, ..st };
        lemma_char_line(c);
        lemma_char_read(c, n + init.len());
        lemma_read_line("char"@, char_items(c));
        assert(char_line(c) + rest =~= "char"@ + items_text(char_items(c)) + nl() + rest);
        lemma_read_cons("char"@, char_items(c), rest, n + init.len(), st1);
        lemma_tags();
        assert((st.chars + init).push(c) =~= st.chars + cs);
    }
}

proof fn lemma_read_kernings(ks: Seq<BmFontKerning>, rest: Seq<char>, n: nat, st: FntState)
    ensures
        read_lines(lines(kernings_text(ks) + rest), n, st) == read_lines(
            lines(rest),
            n + ks.len(),
            FntState { kernings: st.kernings + ks, ..st },
        ),
    decreases ks.len(),
{
    if ks.len() == 0 {
        assert(kernings_text(ks) + rest =~= rest);
        assert(st.kernings + ks =~= st.kernings);
    } else {
        let init = ks.drop_last();
        let k = ks.last();
        assert(kernings_text(ks) + rest =~= kernings_text(init) + (kerning_line(k) + rest));
        lemma_read_kernings(init, kerning_line(k) + rest, n, st);
        let st1 = FntState { kernings: st.kernings + init, ..st };
        lemma_kerning_line(k);
        lemma_kerning_read(k, n + init.len());
        lemma_read_line("kerning"@, kerning_items(k));
        assert(kerning_line(k) + rest =~= "kerning"@ + items_text(kerning_items(k)) + nl() + rest);
        lemma_read_cons("kerning"@, kerning_items(k), rest, n + init.len(), st1);
        lemma_tags();
        assert((st.kernings + init).push(k) =~= st.kernings + ks);
    }
}

/// Parsing the text that `export_fnt` writes gives back the same BMFont,
/// provided the face name, the charset and the page file names hold no
/// double quote and no line break.
pub proof fn lemma_fnt_roundtrip(b: BmFontView)
    requires
        b.info.padding.len() == 4,
        b.info.spacing.len() == 2,
        quotable(b.info.face),
        quotable(b.info.charset),
        forall|k: int| 0 <= k < b.pages.len() ==> quotable(#[trigger] b.pages[k].file),
    ensures
        spec_parse_fnt(spec_export_fnt(b)) == Ok::<BmFontView, Seq<char>>(b),
{
    let r6 = kernings_text(b.kernings);
    let r5 = count_line("kernings"@, b.kernings.len()) + r6;
    let r4 = chars_text(b.chars) + r5;
    let r3 = count_line("chars"@, b.chars.len()) + r4;
    let r2 = pages_text(b.pages) + r3;
    let r1 = common_line(b.common) + r2;
    assert(spec_export_fnt(b) =~= info_line(b.info) + r1);
    let st0 = empty_state();
    lemma_read_info(b.info, r1, 0, st0);
    let st1 = FntState { info: Some(b.info), ..st0 };
    lemma_read_common(b.common, r2, 1, st1);
    let st2 = FntState { common: Some(b.common), ..st1 };
    lemma_read_pages(b.pages, r3, 2, st2);
    let n3: nat = 2 + b.pages.len();
    let st3 = FntState { pages: st2.pages + b.pages, ..st2 };
    lemma_read_count("chars"@, b.chars.len(), r4, n3, st3);
    lemma_read_chars(b.chars, r5, n3 + 1, st3);
    let n4: nat = n3 + 1 + b.chars.len();
    let st4 = FntState { chars: st3.chars + b.chars, ..st3 };
    lemma_read_count("kernings"@, b.kernings.len(), r6, n4, st4);
    assert(r6 =~= r6 + seq![]);
    lemma_read_kernings(b.kernings, seq![], n4 + 1, st4);
    let st5 = FntState { kernings: st4.kernings + b.kernings, ..st4 };
    assert(lines(seq![]) =~= Seq::<Seq<char>>::empty());
    assert(st5.pages =~= b.pages);
    assert(st5.chars =~= b.chars);
    assert(st5.kernings =~= b.kernings);
}

} // verus!
