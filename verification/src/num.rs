//! Decimal integers: the text that `Display` writes for an integer, and the
//! integers that `str::parse` reads back.
use vstd::prelude::*;
use crate::text::{find_char, find_char_in, string_push};

verus! {

pub open spec fn is_digit(c: char) -> bool {
    '0' <= c && c <= '9'
}

pub open spec fn digit_val(c: char) -> nat {
    (c as int - '0' as int) as nat
}

pub open spec fn digit_char(d: nat) -> char {
    ('0' as int + d) as char
}

pub open spec fn all_digits(s: Seq<char>) -> bool {
    forall|i: int| 0 <= i < s.len() ==> is_digit(#[trigger] s[i])
}

/// The value of a string of decimal digits.
pub open spec fn digits_value(s: Seq<char>) -> nat
    decreases s.len(),
{
    if s.len() == 0 {
        0
    } else {
        digits_value(s.drop_last()) * 10 + digit_val(s.last())
    }
}

/// The digits that `Display` writes for a natural number.
pub open spec fn dec(n: nat) -> Seq<char>
    decreases n,
{
    if n < 10 {
        seq![digit_char(n)]
    } else {
        dec(n / 10).push(digit_char(n % 10))
    }
}

/// The text that `Display` writes for an integer.
pub open spec fn dec_int(v: int) -> Seq<char> {
    if v < 0 {
        seq!['-'] + dec((-v) as nat)
    } else {
        dec(v as nat)
    }
}

/// `str::parse::<u32>`.
pub open spec fn parse_u32(s: Seq<char>) -> Option<u32> {
    let d = if s.len() > 0 && s[0] == '+' {
        s.drop_first()
    } else {
        s
    };
    if d.len() > 0 && all_digits(d) && digits_value(d) <= u32::MAX {
        Some(digits_value(d) as u32)
    } else {
        None
    }
}

/// `str::parse::<i32>`.
pub open spec fn parse_i32(s: Seq<char>) -> Option<i32> {
    if s.len() > 0 && s[0] == '-' {
        let d = s.drop_first();
        if d.len() > 0 && all_digits(d) && digits_value(d) <= 0x8000_0000 {
            Some((-(digits_value(d) as int)) as i32)
        } else {
            None
        }
    } else {
        let d = if s.len() > 0 && s[0] == '+' {
            s.drop_first()
        } else {
            s
        };
        if d.len() > 0 && all_digits(d) && digits_value(d) <= i32::MAX {
            Some(digits_value(d) as i32)
        } else {
            None
        }
    }
}

pub proof fn lemma_digits_value_prefix(s: Seq<char>, k: int)
    requires
        0 <= k <= s.len(),
    ensures
        digits_value(s.take(k)) <= digits_value(s),
    decreases s.len(),
{
    if k < s.len() {
        assert(s.drop_last().take(k) =~= s.take(k));
        lemma_digits_value_prefix(s.drop_last(), k);
    } else {
        assert(s.take(k) =~= s);
    }
}

proof fn lemma_digits_value_step(s: Seq<char>, k: int)
    requires
        0 <= k < s.len(),
    ensures
        digits_value(s.take(k + 1)) == digits_value(s.take(k)) * 10 + digit_val(s[k]),
{
    assert(s.take(k + 1).drop_last() =~= s.take(k));
}

/// Reads an unsigned decimal of `v[lo..hi]` (digits only) not above `limit`.
fn read_digits(v: &Vec<char>, lo: usize, hi: usize, limit: u64) -> (r: Option<u64>)
    requires
        lo <= hi <= v@.len(),
        limit <= 0x1_0000_0000,
    ensures
        ({
            let d = v@.subrange(lo as int, hi as int);
            match r {
                Some(x) => d.len() > 0 && all_digits(d) && digits_value(d) <= limit && x
                    == digits_value(d),
                None => !(d.len() > 0 && all_digits(d) && digits_value(d) <= limit),
            }
        }),
{
    let ghost d = v@.subrange(lo as int, hi as int);
    if lo == hi {
        return None;
    }
    let mut acc: u64 = 0;
    let mut i = lo;
    while i < hi
        invariant
            lo <= i <= hi <= v@.len(),
            d == v@.subrange(lo as int, hi as int),
            limit <= 0x1_0000_0000,
            all_digits(d.take(i - lo)),
            acc == digits_value(d.take(i - lo)),
            acc <= limit,
        decreases hi - i,
    {
        let c = v[i];
        if !('0' <= c && c <= '9') {
            assert(!is_digit(d[i - lo]));
            return None;
        }
        proof {
            lemma_digits_value_step(d, i - lo);
        }
        let dv = (c as u32 - '0' as u32) as u64;
        let next = acc * 10 + dv;
        if next > limit {
            proof {
                lemma_digits_value_prefix(d, i - lo + 1);
            }
            return None;
        }
        acc = next;
        assert(all_digits(d.take(i + 1 - lo))) by {
            assert forall|j: int| 0 <= j < i + 1 - lo implies is_digit(#[trigger] d.take(i + 1 - lo)[j]) by {
                if j < i - lo {
                    assert(d.take(i + 1 - lo)[j] == d.take(i - lo)[j]);
                }
            }
        }
        i = i + 1;
    }
    assert(d.take(hi - lo) =~= d);
    Some(acc)
}

/// `v[lo..hi].parse::<u32>()`.
pub fn parse_u32_range(v: &Vec<char>, lo: usize, hi: usize) -> (r: Option<u32>)
    requires
        lo <= hi <= v@.len(),
    ensures
        r == parse_u32(v@.subrange(lo as int, hi as int)),
{
    let ghost s = v@.subrange(lo as int, hi as int);
    let start = if lo < hi && v[lo] == '+' {
        lo + 1
    } else {
        lo
    };
    assert(s.len() > 0 && s[0] == '+' ==> s.drop_first() =~= v@.subrange(start as int, hi as int));
    assert(!(s.len() > 0 && s[0] == '+') ==> s =~= v@.subrange(start as int, hi as int));
    match read_digits(v, start, hi, 0xFFFF_FFFF) {
        Some(x) => Some(x as u32),
        None => None,
    }
}

/// `v[lo..hi].parse::<i32>()`.
pub fn parse_i32_range(v: &Vec<char>, lo: usize, hi: usize) -> (r: Option<i32>)
    requires
        lo <= hi <= v@.len(),
    ensures
        r == parse_i32(v@.subrange(lo as int, hi as int)),
{
    let ghost s = v@.subrange(lo as int, hi as int);
    if lo < hi && v[lo] == '-' {
        assert(s.drop_first() =~= v@.subrange(lo + 1, hi as int));
        match read_digits(v, lo + 1, hi, 0x8000_0000) {
            Some(x) => {
                let n = x as i64;
                Some((-n) as i32)
            },
            None => None,
        }
    } else {
        let start = if lo < hi && v[lo] == '+' {
            lo + 1
        } else {
            lo
        };
        assert(s.len() > 0 && s[0] == '+' ==> s.drop_first() =~= v@.subrange(start as int, hi as int));
        assert(!(s.len() > 0 && s[0] == '+') ==> s =~= v@.subrange(start as int, hi as int));
        match read_digits(v, start, hi, 0x7FFF_FFFF) {
            Some(x) => Some(x as i32),
            None => None,
        }
    }
}

/// The digits of `n` read back to `n`.
pub proof fn lemma_dec(n: nat)
    ensures
        dec(n).len() > 0,
        all_digits(dec(n)),
        digits_value(dec(n)) == n,
    decreases n,
{
    if n < 10 {
        let s = dec(n);
        assert(s.drop_last() =~= Seq::<char>::empty());
        assert(digit_val(digit_char(n)) == n);
        assert(digits_value(s) == digits_value(s.drop_last()) * 10 + digit_val(s.last()));
    } else {
        lemma_dec(n / 10);
        let s = dec(n);
        assert(s.drop_last() =~= dec(n / 10));
        assert(digit_val(digit_char(n % 10)) == n % 10);
        assert(s.last() == digit_char(n % 10));
        assert(digits_value(s) == digits_value(s.drop_last()) * 10 + digit_val(s.last()));
        assert((n / 10) * 10 + n % 10 == n) by (nonlinear_arith);
        assert forall|i: int| 0 <= i < s.len() implies is_digit(#[trigger] s[i]) by {
            if i < s.len() - 1 {
                assert(s[i] == dec(n / 10)[i]);
            }
        }
    }
}

/// `str::parse::<u32>` reads back what `Display` writes.
pub proof fn lemma_parse_u32_dec(n: u32)
    ensures
        parse_u32(dec(n as nat)) == Some(n),
{
    lemma_dec(n as nat);
    assert(is_digit(dec(n as nat)[0]));
}

/// `str::parse::<i32>` reads back what `Display` writes.
pub proof fn lemma_parse_i32_dec(v: i32)
    ensures
        parse_i32(dec_int(v as int)) == Some(v),
{
    if v < 0 {
        lemma_dec((-v) as nat);
        assert(dec_int(v as int).drop_first() =~= dec((-v) as nat));
    } else {
        lemma_dec(v as nat);
        assert(is_digit(dec(v as nat)[0]));
    }
}

// ---------------------------------------------------------------------------
// Writing
// ---------------------------------------------------------------------------

fn digit_to_char(d: u32) -> (c: char)
    requires
        d < 10,
    ensures
        c == digit_char(d as nat),
{
    match d {
        0 => '0',
        1 => '1',
        2 => '2',
        3 => '3',
        4 => '4',
        5 => '5',
        6 => '6',
        7 => '7',
        8 => '8',
        _ => '9',
    }
}

/// Appends the decimal digits of `n`.
pub fn push_dec(out: &mut String, n: u64)
    ensures
        final(out)@ == old(out)@ + dec(n as nat),
    decreases n,
{
    if n >= 10 {
        push_dec(out, n / 10);
    }
    let d = (n % 10) as u32;
    let c = digit_to_char(d);
    assert(c == digit_char((n % 10) as nat));
    string_push(out, c);
    assert(out@ == old(out)@ + dec(n as nat)) by {
        if n < 10 {
            assert(dec(n as nat) =~= seq![digit_char(n as nat)]);
        }
    }
}

/// Appends the decimal text of a signed integer.
pub fn push_int(out: &mut String, v: i64)
    requires
        v > i64::MIN,
    ensures
        final(out)@ == old(out)@ + dec_int(v as int),
{
    if v < 0 {
        string_push(out, '-');
        push_dec(out, (-v) as u64);
        assert(out@ =~= old(out)@ + dec_int(v as int));
    } else {
        push_dec(out, v as u64);
    }
}

} // verus!

verus! {

pub open spec fn hex_char(d: nat) -> char {
    if d < 10 {
        digit_char(d)
    } else {
        ('A' as int + (d - 10)) as char
    }
}

/// Upper-case hexadecimal digits of `n`.
pub open spec fn hex(n: nat) -> Seq<char>
    decreases n,
{
    if n < 16 {
        seq![hex_char(n)]
    } else {
        hex(n / 16).push(hex_char(n % 16))
    }
}

/// `{:04X}`: upper-case hexadecimal, zero-padded to four digits.
pub open spec fn hex4(n: nat) -> Seq<char> {
    Seq::new(
        if hex(n).len() < 4 {
            (4 - hex(n).len()) as nat
        } else {
            0
        },
        |i: int| '0',
    ) + hex(n)
}

fn hex_to_char(d: u32) -> (c: char)
    requires
        d < 16,
    ensures
        c == hex_char(d as nat),
{
    match d {
        0 => '0',
        1 => '1',
        2 => '2',
        3 => '3',
        4 => '4',
        5 => '5',
        6 => '6',
        7 => '7',
        8 => '8',
        9 => '9',
        10 => 'A',
        11 => 'B',
        12 => 'C',
        13 => 'D',
        14 => 'E',
        _ => 'F',
    }
}

fn hex_len(n: u32) -> (r: u32)
    ensures
        r == hex(n as nat).len(),
        r <= n / 16 + 1,
    decreases n,
{
    if n < 16 {
        1
    } else {
        hex_len(n / 16) + 1
    }
}

fn push_hex(out: &mut String, n: u32)
    ensures
        final(out)@ == old(out)@ + hex(n as nat),
    decreases n,
{
    if n >= 16 {
        push_hex(out, n / 16);
    }
    let c = hex_to_char(n % 16);
    string_push(out, c);
    assert(out@ == old(out)@ + hex(n as nat)) by {
        if n < 16 {
            assert(hex(n as nat) =~= seq![hex_char(n as nat)]);
        }
    }
}

/// Appends `{:04X}` of `n`.
pub fn push_hex4(out: &mut String, n: u32)
    ensures
        final(out)@ == old(out)@ + hex4(n as nat),
{
    let len = hex_len(n);
    let pad = if len < 4 {
        4 - len
    } else {
        0
    };
    let mut i: u32 = 0;
    while i < pad
        invariant
            i <= pad,
            pad == (if hex(n as nat).len() < 4 {
                (4 - hex(n as nat).len()) as nat
            } else {
                0nat
            }),
            out@ == old(out)@ + Seq::new(i as nat, |j: int| '0'),
        decreases pad - i,
    {
        string_push(out, '0');
        assert(out@ =~= old(out)@ + Seq::new((i + 1) as nat, |j: int| '0'));
        i = i + 1;
    }
    push_hex(out, n);
    assert(out@ =~= old(out)@ + hex4(n as nat));
}

} // verus!

verus! {

// ---------------------------------------------------------------------------
// Floating-point literals
// ---------------------------------------------------------------------------

/// ASCII lower case.
pub open spec fn lower(c: char) -> char {
    if 'A' <= c && c <= 'Z' {
        ((c as int) + 32) as char
    } else {
        c
    }
}

/// `s`, lower-cased, is `w`.
pub open spec fn eq_ignore_case(s: Seq<char>, w: Seq<char>) -> bool {
    &&& s.len() == w.len()
    &&& forall|i: int| 0 <= i < s.len() ==> lower(#[trigger] s[i]) == w[i]
}

/// Drops one leading `+` or `-`.
pub open spec fn strip_sign(s: Seq<char>) -> Seq<char> {
    if s.len() > 0 && (s[0] == '+' || s[0] == '-') {
        s.drop_first()
    } else {
        s
    }
}

/// `Digit+ | Digit+ '.' Digit* | Digit* '.' Digit+`
pub open spec fn mantissa_text(m: Seq<char>) -> bool {
    match find_char(m, '.') {
        None => m.len() > 0 && all_digits(m),
        Some(d) => all_digits(m.take(d)) && all_digits(m.skip(d + 1)) && m.len() > 1,
    }
}

/// `Sign? Digit+`
pub open spec fn exponent_text(x: Seq<char>) -> bool {
    strip_sign(x).len() > 0 && all_digits(strip_sign(x))
}

/// The first `e` or `E`.
pub open spec fn find_exp(s: Seq<char>) -> Option<int> {
    match (find_char(s, 'e'), find_char(s, 'E')) {
        (Some(a), Some(b)) => Some(
            if a < b {
                a
            } else {
                b
            },
        ),
        (Some(a), None) => Some(a),
        (None, Some(b)) => Some(b),
        (None, None) => None,
    }
}

/// `Mantissa Exp?`
pub open spec fn number_text(s: Seq<char>) -> bool {
    match find_exp(s) {
        None => mantissa_text(s),
        Some(e) => mantissa_text(s.take(e)) && exponent_text(s.skip(e + 1)),
    }
}

/// The text that `str::parse::<f32>` accepts: an optional sign, then `inf`,
/// `infinity`, `nan` (in any case) or a decimal number with an optional
/// exponent. No whitespace is allowed.
pub open spec fn f32_text(s: Seq<char>) -> bool {
    let t = strip_sign(s);
    ||| eq_ignore_case(t, "inf"@)
    ||| eq_ignore_case(t, "infinity"@)
    ||| eq_ignore_case(t, "nan"@)
    ||| number_text(t)
}

fn digits_in(v: &Vec<char>, lo: usize, hi: usize) -> (b: bool)
    requires
        lo <= hi <= v@.len(),
    ensures
        b == all_digits(v@.subrange(lo as int, hi as int)),
{
    let mut i = lo;
    while i < hi
        invariant
            lo <= i <= hi <= v@.len(),
            forall|j: int| lo <= j < i ==> is_digit(#[trigger] v@[j]),
        decreases hi - i,
    {
        if !('0' <= v[i] && v[i] <= '9') {
            assert(!is_digit(v@.subrange(lo as int, hi as int)[i - lo]));
            return false;
        }
        i = i + 1;
    }
    assert forall|j: int| 0 <= j < hi - lo implies is_digit(#[trigger] v@.subrange(lo as int, hi as int)[j]) by {
        assert(v@.subrange(lo as int, hi as int)[j] == v@[lo + j]);
    }
    true
}

/// Whether `c`, lower-cased, is `w`.
fn lower_is(c: char, w: char) -> (b: bool)
    ensures
        b == (lower(c) == w),
{
    let cu = c as u32;
    let wu = w as u32;
    if 65 <= cu && cu <= 90 {
        assert(lower(c) as u32 == cu + 32);
        cu + 32 == wu
    } else {
        c == w
    }
}

fn eq_ignore_case_in(v: &Vec<char>, lo: usize, hi: usize, w: &str) -> (b: bool)
    requires
        lo <= hi <= v@.len(),
    ensures
        b == eq_ignore_case(v@.subrange(lo as int, hi as int), w@),
{
    let wc = crate::text::str_to_chars(w);
    if hi - lo != wc.len() {
        return false;
    }
    let mut i: usize = 0;
    while i < wc.len()
        invariant
            hi - lo == wc@.len(),
            lo <= hi <= v@.len(),
            wc@ == w@,
            i <= wc@.len(),
            forall|j: int| 0 <= j < i ==> lower(#[trigger] v@[lo + j]) == wc@[j],
        decreases wc@.len() - i,
    {
        if !lower_is(v[lo + i], wc[i]) {
            assert(lower(v@.subrange(lo as int, hi as int)[i as int]) != w@[i as int]);
            return false;
        }
        i = i + 1;
    }
    assert forall|j: int| 0 <= j < hi - lo implies lower(#[trigger] v@.subrange(lo as int, hi as int)[j]) == w@[j] by {
        assert(v@.subrange(lo as int, hi as int)[j] == v@[lo + j]);
    }
    true
}

fn mantissa_in(v: &Vec<char>, lo: usize, hi: usize) -> (b: bool)
    requires
        lo <= hi <= v@.len(),
    ensures
        b == mantissa_text(v@.subrange(lo as int, hi as int)),
{
    let ghost m = v@.subrange(lo as int, hi as int);
    let d = find_char_in(v, lo, hi, '.');
    if d == hi {
        lo < hi && digits_in(v, lo, hi)
    } else {
        assert(m.take(d - lo) =~= v@.subrange(lo as int, d as int));
        assert(m.skip(d - lo + 1) =~= v@.subrange(d + 1, hi as int));
        digits_in(v, lo, d) && digits_in(v, d + 1, hi) && hi - lo > 1
    }
}

fn exponent_in(v: &Vec<char>, lo: usize, hi: usize) -> (b: bool)
    requires
        lo <= hi <= v@.len(),
    ensures
        b == exponent_text(v@.subrange(lo as int, hi as int)),
{
    let ghost x = v@.subrange(lo as int, hi as int);
    let start = if lo < hi && (v[lo] == '+' || v[lo] == '-') {
        lo + 1
    } else {
        lo
    };
    assert(strip_sign(x) =~= v@.subrange(start as int, hi as int));
    start < hi && digits_in(v, start, hi)
}

/// Whether `v[lo..hi]` parses as an `f32`.
pub fn f32_text_in(v: &Vec<char>, lo: usize, hi: usize) -> (b: bool)
    requires
        lo <= hi <= v@.len(),
    ensures
        b == f32_text(v@.subrange(lo as int, hi as int)),
{
    let ghost s = v@.subrange(lo as int, hi as int);
    let start = if lo < hi && (v[lo] == '+' || v[lo] == '-') {
        lo + 1
    } else {
        lo
    };
    let ghost t = v@.subrange(start as int, hi as int);
    assert(strip_sign(s) =~= t);
    if eq_ignore_case_in(v, start, hi, "inf") || eq_ignore_case_in(v, start, hi, "infinity")
        || eq_ignore_case_in(v, start, hi, "nan") {
        return true;
    }
    let a = find_char_in(v, start, hi, 'e');
    let b = find_char_in(v, start, hi, 'E');
    let e = if a < b {
        a
    } else {
        b
    };
    if e == hi {
        mantissa_in(v, start, hi)
    } else {
        assert(find_exp(t) == Some((e - start) as int));
        assert(t.take(e - start) =~= v@.subrange(start as int, e as int));
        assert(t.skip(e - start + 1) =~= v@.subrange(e + 1, hi as int));
        mantissa_in(v, start, e) && exponent_in(v, e + 1, hi)
    }
}

} // verus!
