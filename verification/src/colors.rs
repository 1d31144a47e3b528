//! Colours written as `#RGB`, `#RRGGBB` or `#RRGGBBAA` string values.

use vstd::prelude::*;
use vstd::utf8::encode_utf8;
use crate::hover::{range_of, span_to_range, TextRange};
use crate::parser::Document;
use crate::span::{LineIndex, Span};
use crate::text::{chars_of, push_all, push_lit, slice_of, string_from, to_chars, trim, trimmed};
use crate::value::{dict_get, Dict, KeyMap, Value, ValueModel};

verus! {

/// A colour as four channel bytes.
#[derive(Debug, Clone, Copy, PartialEq, Eq, Structural)]
pub struct Rgba {
    pub red: u8,
    pub green: u8,
    pub blue: u8,
    pub alpha: u8,
}

/// The digit value of an ASCII hex digit.
pub open spec fn hex_val(b: u8) -> Option<int> {
    if 48 <= b <= 57 {
        Some(b - 48)
    } else if 97 <= b <= 102 {
        Some(b - 87)
    } else if 65 <= b <= 70 {
        Some(b - 55)
    } else {
        None
    }
}

/// `u8::from_str_radix` in base 16 of the two bytes `x`, `y`: two hex
/// digits, or `+` and one hex digit.
pub open spec fn byte_pair(x: u8, y: u8) -> Option<u8> {
    if x == 43 {
        match hex_val(y) {
            Some(v) => Some(v as u8),
            None => None,
        }
    } else {
        match (hex_val(x), hex_val(y)) {
            (Some(a), Some(b)) => Some((16 * a + b) as u8),
            _ => None,
        }
    }
}

/// The hex text after `#` in the trimmed string.
pub open spec fn color_hex(s: Seq<char>) -> Option<Seq<char>> {
    let t = trim(s);
    if t.len() > 0 && t[0] == '#' {
        Some(t.skip(1))
    } else {
        None
    }
}

/// The colour of hex text given by its UTF-8 bytes: three digits (each
/// doubled), six, or eight with alpha; alpha is 255 when absent.
pub open spec fn rgba_of(h: Seq<u8>) -> Option<Rgba> {
    if h.len() == 3 {
        match (byte_pair(h[0], h[0]), byte_pair(h[1], h[1]), byte_pair(h[2], h[2])) {
            (Some(r), Some(g), Some(b)) => Some(Rgba { red: r, green: g, blue: b, alpha: 255 }),
            _ => None,
        }
    } else if h.len() == 6 {
        match (byte_pair(h[0], h[1]), byte_pair(h[2], h[3]), byte_pair(h[4], h[5])) {
            (Some(r), Some(g), Some(b)) => Some(Rgba { red: r, green: g, blue: b, alpha: 255 }),
            _ => None,
        }
    } else if h.len() == 8 {
        match (byte_pair(h[0], h[1]), byte_pair(h[2], h[3]), byte_pair(h[4], h[5]), byte_pair(h[6], h[7])) {
            (Some(r), Some(g), Some(b), Some(a)) => Some(Rgba { red: r, green: g, blue: b, alpha: a }),
            _ => None,
        }
    } else {
        None
    }
}

pub open spec fn color_model(s: Seq<char>) -> Option<Rgba> {
    match color_hex(s) {
        Some(hex) => rgba_of(encode_utf8(hex)),
        None => None,
    }
}

/// Byte `i` of `h` does not fall inside a multi-byte character.
pub open spec fn cut_ok(h: Seq<u8>, i: int) -> bool {
    i <= 0 || i >= h.len() || !(0x80 <= h[i] < 0xC0)
}

/// Each place where the hex text is cut, up to the first channel that does
/// not read, lies between characters.
pub open spec fn cuts_ok(h: Seq<u8>) -> bool {
    if h.len() == 3 {
        cut_ok(h, 1) && (byte_pair(h[0], h[0]) is Some ==> cut_ok(h, 2))
    } else if h.len() == 6 {
        cut_ok(h, 2) && (byte_pair(h[0], h[1]) is Some ==> cut_ok(h, 4))
    } else if h.len() == 8 {
        cut_ok(h, 2) && (byte_pair(h[0], h[1]) is Some ==> cut_ok(h, 4) && (byte_pair(h[2], h[3]) is Some
            ==> cut_ok(h, 6)))
    } else {
        true
    }
}

/// The string can be read as a colour without cutting a character.
pub open spec fn color_safe(s: Seq<char>) -> bool {
    match color_hex(s) {
        Some(hex) => cuts_ok(encode_utf8(hex)),
        None => true,
    }
}

fn hex_digit(b: u8) -> (r: Option<u8>)
    ensures
        match hex_val(b) {
            Some(v) => r == Some(v as u8),
            None => r is None,
        },
{
    if 48 <= b && b <= 57 {
        Some(b - 48)
    } else if 97 <= b && b <= 102 {
        Some(b - 87)
    } else if 65 <= b && b <= 70 {
        Some(b - 55)
    } else {
        None
    }
}

fn read_pair(x: u8, y: u8) -> (r: Option<u8>)
    ensures
        r == byte_pair(x, y),
{
    if x == 43 {
        hex_digit(y)
    } else {
        match (hex_digit(x), hex_digit(y)) {
            (Some(a), Some(b)) => Some(16 * a + b),
            _ => None,
        }
    }
}

fn hex_bytes(s: &str) -> (r: Option<Vec<u8>>)
    ensures
        match color_hex(s@) {
            Some(hex) => r is Some && r->0@ == encode_utf8(hex),
            None => r is None,
        },
{
    let c = to_chars(s);
    let t = trimmed(c.as_slice());
    if t.len() == 0 || t[0] != '#' {
        return None;
    }
    let rest = slice_of(t.as_slice(), 1, t.len());
    assert(rest@ =~= t@.skip(1));
    let rs = string_from(rest.as_slice());
    let b = rs.as_str().as_bytes();
    Some(vstd::slice::slice_to_vec(b))
}

/// The colour a string spells, if it is one.
pub fn parse_color(s: &str) -> (r: Option<Rgba>)
    requires
        color_safe(s@),
    ensures
        r == color_model(s@),
{
    let hb = hex_bytes(s);
    match hb {
        None => None,
        Some(h) => {
            if h.len() == 3 {
                match (read_pair(h[0], h[0]), read_pair(h[1], h[1]), read_pair(h[2], h[2])) {
                    (Some(r), Some(g), Some(b)) => Some(Rgba { red: r, green: g, blue: b, alpha: 255 }),
                    _ => None,
                }
            } else if h.len() == 6 {
                match (read_pair(h[0], h[1]), read_pair(h[2], h[3]), read_pair(h[4], h[5])) {
                    (Some(r), Some(g), Some(b)) => Some(Rgba { red: r, green: g, blue: b, alpha: 255 }),
                    _ => None,
                }
            } else if h.len() == 8 {
                match (read_pair(h[0], h[1]), read_pair(h[2], h[3]), read_pair(h[4], h[5]), read_pair(h[6], h[7])) {
                    (Some(r), Some(g), Some(b), Some(a)) => Some(Rgba { red: r, green: g, blue: b, alpha: a }),
                    _ => None,
                }
            } else {
                None
            }
        },
    }
}

/// Whether `parse_color` may be given `s`.
pub fn color_readable(s: &str) -> (r: bool)
    ensures
        r == color_safe(s@),
{
    match hex_bytes(s) {
        None => true,
        Some(h) => {
            let ok = |i: usize| -> (b: bool)
                requires
                    0 < i < h@.len(),
                ensures
                    b == cut_ok(h@, i as int),
                { !(0x80 <= h[i] && h[i] < 0xC0) };
            if h.len() == 3 {
                ok(1) && (read_pair(h[0], h[0]).is_none() || ok(2))
            } else if h.len() == 6 {
                ok(2) && (read_pair(h[0], h[1]).is_none() || ok(4))
            } else if h.len() == 8 {
                ok(2) && (read_pair(h[0], h[1]).is_none() || (ok(4) && (read_pair(h[2], h[3]).is_none() || ok(6))))
            } else {
                true
            }
        },
    }
}

// ── Writing a colour ────────────────────────────────────────────────────────

pub open spec fn hex_char(d: int) -> char {
    if d < 10 {
        (48 + d) as char
    } else {
        (55 + d) as char
    }
}

/// Two upper-case hex digits.
pub open spec fn hex2(v: u8) -> Seq<char> {
    seq![hex_char((v / 16) as int), hex_char((v % 16) as int)]
}

/// `#RRGGBB`, with `AA` added when the colour is not opaque.
pub open spec fn hex_text(c: Rgba) -> Seq<char> {
    seq!['#'] + hex2(c.red) + hex2(c.green) + hex2(c.blue) + (if c.alpha == 255 {
        Seq::empty()
    } else {
        hex2(c.alpha)
    })
}

/// The hex text in double quotes.
pub open spec fn color_text(c: Rgba) -> Seq<char> {
    seq!['"'] + hex_text(c) + seq!['"']
}

proof fn lemma_hex_char(d: int)
    requires
        0 <= d < 16,
    ensures
        '0' <= hex_char(d) <= '\u{7f}',
        (hex_char(d) as u8) != 43,
        hex_val(hex_char(d) as u8) == Some(d),
        !crate::text::is_ws(hex_char(d)),
{
    if d < 10 {
        assert(((48 + d) as char) as u32 == 48 + d);
        assert((((48 + d) as char) as u8) == 48 + d);
    } else {
        assert(((55 + d) as char) as u32 == 55 + d);
        assert((((55 + d) as char) as u8) == 55 + d);
    }
}

proof fn lemma_hex2(v: u8)
    ensures
        hex2(v).len() == 2,
        byte_pair(hex2(v)[0] as u8, hex2(v)[1] as u8) == Some(v),
        vstd::utf8::is_ascii_chars(hex2(v)),
        !crate::text::is_ws(hex2(v)[1]),
{
    lemma_hex_char((v / 16) as int);
    lemma_hex_char((v % 16) as int);
}

/// A colour written out as hex text reads back as the same colour.
pub proof fn law_color_text_reads_back(c: Rgba)
    ensures
        color_model(hex_text(c)) == Some(c),
{
    let s = hex_text(c);
    lemma_hex2(c.red);
    lemma_hex2(c.green);
    lemma_hex2(c.blue);
    lemma_hex2(c.alpha);
    let d = s.skip(1);
    let tail = if c.alpha == 255 {
        Seq::<char>::empty()
    } else {
        hex2(c.alpha)
    };
    assert(d =~= hex2(c.red) + hex2(c.green) + hex2(c.blue) + tail);
    assert(!crate::text::is_ws(s[0]));
    assert(s.last() == d.last());
    assert(!crate::text::is_ws(s.last()));
    assert(crate::text::ws_prefix_len(s) == 0);
    assert(s.skip(0) =~= s);
    assert(crate::text::ws_suffix_len(s) == 0);
    assert(s.take(s.len() as int) =~= s);
    assert(trim(s) == s);
    assert(vstd::utf8::is_ascii_chars(d));
    vstd::utf8::is_ascii_chars_encode_utf8(d);
    let h = encode_utf8(d);
    assert(h[0] == d[0] as u8 && h[1] == d[1] as u8);
    assert(h[2] == d[2] as u8 && h[3] == d[3] as u8);
    assert(h[4] == d[4] as u8 && h[5] == d[5] as u8);
    assert(d[0] == hex2(c.red)[0] && d[1] == hex2(c.red)[1]);
    assert(d[2] == hex2(c.green)[0] && d[3] == hex2(c.green)[1]);
    assert(d[4] == hex2(c.blue)[0] && d[5] == hex2(c.blue)[1]);
    if c.alpha != 255 {
        assert(h[6] == d[6] as u8 && h[7] == d[7] as u8);
        assert(d[6] == hex2(c.alpha)[0] && d[7] == hex2(c.alpha)[1]);
    }
}

fn hex_digit_char(d: u8) -> (c: char)
    requires
        d < 16,
    ensures
        c == hex_char(d as int),
{
    if d < 10 {
        (48 + d) as char
    } else {
        (55 + d) as char
    }
}

fn push_hex2(out: &mut Vec<char>, v: u8)
    ensures
        final(out)@ == old(out)@ + hex2(v),
{
    out.push(hex_digit_char(v / 16));
    out.push(hex_digit_char(v % 16));
}

/// The colour as a quoted hex string.
pub fn format_color_hex(c: &Rgba) -> (r: String)
    ensures
        r@ == color_text(*c),
{
    let mut out: Vec<char> = Vec::new();
    out.push('"');
    out.push('#');
    push_hex2(&mut out, c.red);
    push_hex2(&mut out, c.green);
    push_hex2(&mut out, c.blue);
    if c.alpha != 255 {
        push_hex2(&mut out, c.alpha);
    }
    out.push('"');
    assert(out@ =~= color_text(*c));
    string_from(out.as_slice())
}

// ── Colours in a document ───────────────────────────────────────────────────

/// A colour found in the document, over its value's range.
#[derive(Debug, Clone, Copy, PartialEq, Eq, Structural)]
pub struct ColorInformation {
    pub range: TextRange,
    pub color: Rgba,
}

/// Every string value reads safely.
pub open spec fn colors_safe_in(v: ValueModel) -> bool
    decreases v,
{
    match v {
        ValueModel::Str(s) => color_safe(s),
        ValueModel::Dict(d) => entries_safe(d),
        _ => true,
    }
}

pub open spec fn entries_safe(d: Seq<(Seq<char>, ValueModel)>) -> bool
    decreases d,
{
    if d.len() == 0 {
        true
    } else {
        proof {
            assert(decreases_to!(d => d[d.len() - 1]));
        }
        entries_safe(d.subrange(0, d.len() - 1)) && colors_safe_in(d[d.len() - 1].1)
    }
}

/// The colours under a value whose dotted key is `key`: a colour string
/// whose value span is recorded, and those inside a dict's entries in key
/// order.
pub open spec fn colors_in(idx: LineIndex, spans: Seq<(Seq<char>, Span)>, v: ValueModel, key: Seq<char>) -> Seq<
    ColorInformation,
>
    decreases v,
{
    match v {
        ValueModel::Str(s) => match color_model(s) {
            Some(c) => match dict_get(spans, key) {
                Some(sp) => seq![ColorInformation { range: range_of(idx, sp), color: c }],
                None => Seq::empty(),
            },
            None => Seq::empty(),
        },
        ValueModel::Dict(d) => entries_colors(idx, spans, d, key),
        _ => Seq::empty(),
    }
}

pub open spec fn entries_colors(
    idx: LineIndex,
    spans: Seq<(Seq<char>, Span)>,
    d: Seq<(Seq<char>, ValueModel)>,
    prefix: Seq<char>,
) -> Seq<ColorInformation>
    decreases d,
{
    if d.len() == 0 {
        Seq::empty()
    } else {
        proof {
            assert(decreases_to!(d => d[d.len() - 1]));
        }
        entries_colors(idx, spans, d.subrange(0, d.len() - 1), prefix) + colors_in(
            idx,
            spans,
            d[d.len() - 1].1,
            prefix + "."@ + d[d.len() - 1].0,
        )
    }
}

/// Top-level keys start the dotted paths.
pub open spec fn top_colors(idx: LineIndex, spans: Seq<(Seq<char>, Span)>, d: Seq<(Seq<char>, ValueModel)>) -> Seq<
    ColorInformation,
>
    decreases d.len(),
{
    if d.len() == 0 {
        Seq::empty()
    } else {
        top_colors(idx, spans, d.drop_last()) + colors_in(idx, spans, d.last().1, d.last().0)
    }
}

fn safe_value(v: &Value) -> (r: bool)
    ensures
        r == colors_safe_in(v.model()),
    decreases v,
{
    match v {
        Value::String(s) => color_readable(s.as_str()),
        Value::Dict(d) => {
            let ghost m = d.model();
            proof {
                d.lemma_model();
            }
            let mut i: usize = 0;
            assert(m.take(0) =~= Seq::<(Seq<char>, ValueModel)>::empty());
            while i < d.entries.len()
                invariant
                    *v == Value::Dict(*d),
                    m == d.model(),
                    m.len() == d.entries@.len(),
                    i <= m.len(),
                    entries_safe(m.take(i as int)),
                decreases m.len() - i,
            {
                proof {
                    assert(decreases_to!(v => v->Dict_0));
                    assert(decreases_to!(v->Dict_0 => v->Dict_0.entries));
                    assert(decreases_to!(v->Dict_0.entries => v->Dict_0.entries[i as int]));
                    assert(decreases_to!(v->Dict_0.entries[i as int] => v->Dict_0.entries[i as int].1));
                    d.lemma_model();
                }
                let ghost t = m.take(i + 1);
                assert(t.subrange(0, t.len() - 1) =~= m.take(i as int));
                assert(t[t.len() - 1] == m[i as int]);
                if !safe_value(&d.entries[i].1) {
                    proof {
                        assert(!entries_safe(t));
                        lemma_entries_safe_prefix(m, i + 1, m.len() as int);
                        assert(m.take(m.len() as int) =~= m);
                    }
                    return false;
                }
                i = i + 1;
            }
            assert(m.take(i as int) =~= m);
            true
        },
        _ => true,
    }
}

proof fn lemma_entries_safe_prefix(m: Seq<(Seq<char>, ValueModel)>, i: int, j: int)
    requires
        0 <= i <= j <= m.len(),
        !entries_safe(m.take(i)),
    ensures
        !entries_safe(m.take(j)),
    decreases j - i,
{
    if i < j {
        let t = m.take(i + 1);
        assert(t.subrange(0, t.len() - 1) =~= m.take(i));
        lemma_entries_safe_prefix(m, i + 1, j);
    }
}

/// Whether `document_colors` may be given the document: every string value
/// reads safely as a colour.
pub fn colors_ok(doc: &Document) -> (r: bool)
    ensures
        r == entries_safe(doc@.config),
{
    let v = Value::Dict(Dict { entries: clone_entries(&doc.config) });
    safe_value(&v)
}

fn clone_entries(d: &Dict) -> (r: Vec<(String, Value)>)
    ensures
        (Dict { entries: r }).model() == d.model(),
{
    let mut out: Vec<(String, Value)> = Vec::new();
    let mut i: usize = 0;
    proof {
        d.lemma_model();
    }
    while i < d.entries.len()
        invariant
            i <= d.entries@.len(),
            out@.len() == i,
            forall|q: int| 0 <= q < i ==> (#[trigger] out@[q]).0@ == d.entries@[q].0@ && out@[q].1.model()
                == d.entries@[q].1.model(),
        decreases d.entries@.len() - i,
    {
        out.push((d.entries[i].0.clone(), crate::value::clone_value(&d.entries[i].1)));
        i = i + 1;
    }
    proof {
        d.lemma_model();
        assert((Dict { entries: out }).model() =~= d.model());
    }
    out
}

fn walk(
    v: &Value,
    key: &[char],
    spans: &KeyMap<Span>,
    idx: &LineIndex,
    out: &mut Vec<ColorInformation>,
)
    requires
        colors_safe_in(v.model()),
    ensures
        final(out)@ == old(out)@ + colors_in(*idx, spans.model(), v.model(), key@),
    decreases v,
{
    let ghost start = out@;
    match v {
        Value::String(s) => {
            match parse_color(s.as_str()) {
                Some(c) => {
                    let ks = string_from(key);
                    match spans.get(ks.as_str()) {
                        Some(sp) => {
                            out.push(ColorInformation { range: span_to_range(*sp, idx), color: c });
                        },
                        None => {},
                    }
                },
                None => {},
            }
            assert(out@ =~= start + colors_in(*idx, spans.model(), v.model(), key@));
        },
        Value::Dict(d) => {
            let ghost m = d.model();
            proof {
                d.lemma_model();
            }
            let mut i: usize = 0;
            assert(m.take(0) =~= Seq::<(Seq<char>, ValueModel)>::empty());
            assert(out@ =~= start + entries_colors(*idx, spans.model(), m.take(0), key@));
            while i < d.entries.len()
                invariant
                    *v == Value::Dict(*d),
                    m == d.model(),
                    m.len() == d.entries@.len(),
                    i <= m.len(),
                    entries_safe(m),
                    out@ == start + entries_colors(*idx, spans.model(), m.take(i as int), key@),
                decreases m.len() - i,
            {
                proof {
                    assert(decreases_to!(v => v->Dict_0));
                    assert(decreases_to!(v->Dict_0 => v->Dict_0.entries));
                    assert(decreases_to!(v->Dict_0.entries => v->Dict_0.entries[i as int]));
                    assert(decreases_to!(v->Dict_0.entries[i as int] => v->Dict_0.entries[i as int].1));
                    d.lemma_model();
                    lemma_entries_safe_at(m, i as int);
                }
                let t = Ghost(m.take(i + 1));
                assert(t@.subrange(0, t@.len() - 1) =~= m.take(i as int));
                assert(t@[t@.len() - 1] == m[i as int]);
                let mut next: Vec<char> = Vec::new();
                push_all(&mut next, key);
                push_lit(&mut next, ".");
                push_all(&mut next, chars_of(&d.entries[i].0).as_slice());
                walk(&d.entries[i].1, next.as_slice(), spans, idx, out);
                assert(out@ =~= start + entries_colors(*idx, spans.model(), t@, key@));
                i = i + 1;
            }
            assert(m.take(i as int) =~= m);
        },
        _ => {
            assert(out@ =~= start + colors_in(*idx, spans.model(), v.model(), key@));
        },
    }
}

proof fn lemma_entries_safe_at(m: Seq<(Seq<char>, ValueModel)>, i: int)
    requires
        entries_safe(m),
        0 <= i < m.len(),
    ensures
        colors_safe_in(m[i].1),
    decreases m.len(),
{
    let p = m.subrange(0, m.len() - 1);
    if i < m.len() - 1 {
        assert(p[i] == m[i]);
        lemma_entries_safe_at(p, i);
    }
}

/// The colours written in the document's string values.
pub fn document_colors(doc: &Document, idx: &LineIndex) -> (r: Vec<ColorInformation>)
    requires
        entries_safe(doc@.config),
    ensures
        r@ == top_colors(*idx, doc@.value_spans, doc@.config),
{
    let ghost m = doc@.config;
    proof {
        doc.config.lemma_model();
    }
    let mut out: Vec<ColorInformation> = Vec::new();
    let mut i: usize = 0;
    assert(m.take(0) =~= Seq::<(Seq<char>, ValueModel)>::empty());
    while i < doc.config.len()
        invariant
            m == doc@.config,
            m.len() == doc.config.model().len(),
            i <= m.len(),
            entries_safe(m),
            out@ == top_colors(*idx, doc@.value_spans, m.take(i as int)),
        decreases m.len() - i,
    {
        let k = doc.config.key_at(i);
        let v = doc.config.value_at(i);
        assert(m[i as int] == (k@, v.model()));
        proof {
            lemma_entries_safe_at(m, i as int);
        }
        walk(v, chars_of(k).as_slice(), &doc.value_spans, idx, &mut out);
        assert(m.take(i + 1).drop_last() =~= m.take(i as int));
        i = i + 1;
    }
    assert(m.take(i as int) =~= m);
    out
}

} // verus!
