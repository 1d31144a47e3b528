//! What the dumper writes of a whole document, parsed again: documents with
//! top-level entries, `[section]`s of entries, `[vars]` and annotations.

use vstd::prelude::*;
use crate::annotation::{AnnModel, ArgModel};
use crate::dumper::{fmt_ann, fmt_value};
use crate::reannotate::{ann_name, arg_reads_back, arg_text};
use crate::host::{HostQuery, HostReply};
use crate::lexer::{LineKind, LineModel, TokModel};
use crate::parser::{p1_from, p2_from, set_path, touch_path, DocModel, P2Model};
use crate::value_parser::{sp_parse, Ctx};
use crate::roundtrip::{
    bare_key, flat_config, keys_ascending, lemma_key_lt_asym, lemma_key_lt_irrefl, lemma_line_chars,
    lemma_line_token, lemma_lines_pass, line_of, written_value,
};
use crate::text::{is_ws, trim};
use crate::value::{dict_find_from, dict_insert, dict_put, key_lt, ValueModel};

verus! {

// ── Sorted tables built one key at a time ───────────────────────────────────

/// Keys strictly ascending.
pub open spec fn ascending<V>(m: Seq<(Seq<char>, V)>) -> bool {
    forall|i: int, j: int| 0 <= i < j < m.len() ==> key_lt(#[trigger] m[i].0, #[trigger] m[j].0)
}

/// The entries of `m` from `i` on whose index `p` picks, in order.
pub open spec fn sel_from<V>(m: Seq<(Seq<char>, V)>, p: spec_fn(int) -> bool, i: int) -> Seq<(Seq<char>, V)>
    decreases m.len() - i,
{
    if i < 0 || i >= m.len() {
        Seq::empty()
    } else {
        (if p(i) {
            seq![m[i]]
        } else {
            Seq::empty()
        }) + sel_from(m, p, i + 1)
    }
}

/// `x` is an entry of `m` at or after `i` that `p` picks.
pub open spec fn picked<V>(m: Seq<(Seq<char>, V)>, p: spec_fn(int) -> bool, i: int, x: (Seq<char>, V)) -> bool {
    exists|a: int| i <= a < m.len() && p(a) && #[trigger] m[a] == x
}

/// Every entry of a selection is picked.
proof fn lemma_sel_members<V>(m: Seq<(Seq<char>, V)>, p: spec_fn(int) -> bool, i: int)
    requires
        0 <= i,
    ensures
        forall|t: int| 0 <= t < sel_from(m, p, i).len() ==> picked(m, p, i, #[trigger] sel_from(m, p, i)[t]),
    decreases m.len() - i,
{
    if i < m.len() {
        lemma_sel_members(m, p, i + 1);
        let s = sel_from(m, p, i);
        let r = sel_from(m, p, i + 1);
        assert forall|t: int| 0 <= t < s.len() implies picked(m, p, i, #[trigger] s[t]) by {
            if p(i) {
                if t == 0 {
                    assert(s[0] == m[i]);
                } else {
                    assert(s[t] == r[t - 1]);
                    assert(picked(m, p, i + 1, r[t - 1]));
                }
            } else {
                assert(s =~= r);
                assert(picked(m, p, i + 1, r[t]));
            }
        }
    }
}

/// A key that `p` does not pick is not found in the selection.
proof fn lemma_sel_absent<V>(m: Seq<(Seq<char>, V)>, p: spec_fn(int) -> bool, j: int, i: int, f: int)
    requires
        ascending(m),
        0 <= j < m.len(),
        !p(j),
        0 <= i,
        0 <= f,
    ensures
        dict_find_from(sel_from(m, p, i), m[j].0, f) is None,
    decreases sel_from(m, p, i).len() - f,
{
    let s = sel_from(m, p, i);
    if f < s.len() {
        lemma_sel_members(m, p, i);
        assert(picked(m, p, i, s[f]));
        let a = choose|a: int| i <= a < m.len() && p(a) && #[trigger] m[a] == s[f];
        assert(a != j);
        if a < j {
            assert(key_lt(m[a].0, m[j].0));
            lemma_key_lt_irrefl(m[j].0);
        } else {
            assert(key_lt(m[j].0, m[a].0));
            lemma_key_lt_irrefl(m[j].0);
        }
        lemma_sel_absent(m, p, j, i, f + 1);
    }
}

/// Inserting a key that `p` did not pick puts it where `m` has it.
proof fn lemma_sel_insert<V>(m: Seq<(Seq<char>, V)>, p: spec_fn(int) -> bool, j: int, w: V, i: int)
    requires
        ascending(m),
        0 <= i <= j < m.len(),
        !p(j),
    ensures
        dict_insert(sel_from(m, p, i), m[j].0, w) == sel_from(
            m.update(j, (m[j].0, w)),
            |a: int| a == j || p(a),
            i,
        ),
    decreases j - i,
{
    let k = m[j].0;
    let m2 = m.update(j, (k, w));
    let p2 = |a: int| a == j || p(a);
    lemma_sel_same(m, m2, p, p2, j + 1);
    if i < j {
        assert(m2[i] == m[i]);
        lemma_sel_insert(m, p, j, w, i + 1);
        if p(i) {
            assert(key_lt(m[i].0, k));
            lemma_key_lt_irrefl(k);
            lemma_key_lt_asym(m[i].0, k);
            let r = sel_from(m, p, i + 1);
            assert(sel_from(m, p, i) =~= seq![m[i]] + r);
            assert((seq![m[i]] + r).drop_first() =~= r);
            assert(dict_insert(seq![m[i]] + r, k, w) == seq![m[i]] + dict_insert(r, k, w));
        } else {
            assert(sel_from(m, p, i) =~= sel_from(m, p, i + 1));
            assert(sel_from(m2, p2, i) =~= sel_from(m2, p2, i + 1));
        }
    } else {
        let r = sel_from(m, p, j + 1);
        assert(sel_from(m, p, j) =~= r);
        assert(sel_from(m2, p2, j) =~= seq![(k, w)] + sel_from(m2, p2, j + 1));
        if r.len() > 0 {
            lemma_sel_members(m, p, j + 1);
            assert(picked(m, p, j + 1, r[0]));
            let a = choose|a: int| j + 1 <= a < m.len() && p(a) && #[trigger] m[a] == r[0];
            assert(key_lt(k, m[a].0));
            lemma_key_lt_irrefl(k);
            assert(r[0].0 != k);
        }
    }
}

/// Two tables that agree from `i` on, and two choices that agree there,
/// select alike.
proof fn lemma_sel_same<V>(
    m1: Seq<(Seq<char>, V)>,
    m2: Seq<(Seq<char>, V)>,
    p1: spec_fn(int) -> bool,
    p2: spec_fn(int) -> bool,
    i: int,
)
    requires
        m1.len() == m2.len(),
        0 <= i,
        forall|a: int| i <= a < m1.len() ==> m1[a] == m2[a] && p1(a) == p2(a),
    ensures
        sel_from(m1, p1, i) == sel_from(m2, p2, i),
    decreases m1.len() - i,
{
    if i < m1.len() {
        lemma_sel_same(m1, m2, p1, p2, i + 1);
    }
}

/// Putting a key that `p` did not pick adds it, in key order.
pub proof fn lemma_sel_put_new<V>(m: Seq<(Seq<char>, V)>, p: spec_fn(int) -> bool, j: int, w: V)
    requires
        ascending(m),
        0 <= j < m.len(),
        !p(j),
    ensures
        dict_put(sel_from(m, p, 0), m[j].0, w) == sel_from(m.update(j, (m[j].0, w)), |a: int| a == j || p(a), 0),
{
    lemma_sel_absent(m, p, j, 0, 0);
    lemma_sel_insert(m, p, j, w, 0);
}

/// Putting a key that `p` picked replaces its value in place; before that,
/// the key holds its value in `m`.
pub proof fn lemma_sel_put_old<V>(m: Seq<(Seq<char>, V)>, p: spec_fn(int) -> bool, j: int, w: V, i: int)
    requires
        ascending(m),
        0 <= i <= j < m.len(),
        p(j),
    ensures
        crate::value::dict_get(sel_from(m, p, i), m[j].0) == Some(m[j].1),
        dict_put(sel_from(m, p, i), m[j].0, w) == sel_from(m.update(j, (m[j].0, w)), p, i),
    decreases j - i,
{
    let k = m[j].0;
    let m2 = m.update(j, (k, w));
    lemma_sel_same(m, m2, p, p, j + 1);
    if i < j {
        assert(m2[i] == m[i]);
        lemma_sel_put_old(m, p, j, w, i + 1);
        let r = sel_from(m, p, i + 1);
        let r2 = sel_from(m2, p, i + 1);
        if p(i) {
            assert(key_lt(m[i].0, k));
            lemma_key_lt_irrefl(k);
            let s1 = seq![m[i]] + r;
            assert(sel_from(m, p, i) =~= s1);
            assert(sel_from(m2, p, i) =~= seq![m[i]] + r2);
            assert(s1.drop_first() =~= r);
            crate::value::lemma_dict_find_shift(s1, k, 0);
            crate::value::lemma_dict_find_from_bound(r, k, 0);
            let pos = dict_find_from(r, k, 0)->0;
            assert(dict_find_from(s1, k, 0) == Some(pos + 1));
            assert(s1.update(pos + 1, (k, w)) =~= seq![m[i]] + r.update(pos, (k, w)));
        } else {
            assert(sel_from(m, p, i) =~= r);
            assert(sel_from(m2, p, i) =~= r2);
        }
    } else {
        let r = sel_from(m, p, j + 1);
        let s1 = seq![m[j]] + r;
        assert(sel_from(m, p, j) =~= s1);
        assert(sel_from(m2, p, j) =~= seq![(k, w)] + r);
        assert(dict_find_from(s1, k, 0) == Some(0int));
        assert(s1.update(0, (k, w)) =~= seq![(k, w)] + r);
    }
}

// ── Lines of a written document ────────────────────────────────────────────

/// A line the dumper writes: blank, `[vars]`, a `[section]` header, a
/// `key = value` entry, an annotation, or a block dict's `key = #{`
/// opening, indented `  key = value` entries and `}#` close.
pub enum DLine {
    Blank,
    VarsHead,
    Head(Seq<char>),
    Entry(Seq<char>, ValueModel),
    Ann(Seq<char>, ArgModel),
    Open(Seq<char>),
    Inner(Seq<char>, ValueModel),
    Close,
}

/// An annotation with this name and argument (its spans play no part in
/// what is written).
pub open spec fn ann_of(name: Seq<char>, arg: ArgModel) -> AnnModel {
    AnnModel {
        name,
        arg,
        span: crate::span::Span::dummy_spec(),
        name_span: crate::span::Span::dummy_spec(),
        arg_span: None,
        list_item_spans: Seq::empty(),
    }
}

/// An annotation written on one line that the comment scanner reads whole
/// (a `#` outside a quoted stretch would start a comment).
pub open spec fn ann_line_ok<H: Fn(HostQuery) -> HostReply>(h: H, n: Seq<char>, a: ArgModel) -> bool {
    &&& forall|q: int| 0 <= q < arg_text(h, a).len() ==> #[trigger] arg_text(h, a)[q] != '\n'
    &&& crate::lexer::comment_cut(fmt_ann(h, ann_of(n, a)), 0, false, false) == fmt_ann(h, ann_of(n, a)).len()
}

pub open spec fn dline_text<H: Fn(HostQuery) -> HostReply>(h: H, l: DLine) -> Seq<char> {
    match l {
        DLine::Blank => Seq::empty(),
        DLine::VarsHead => "[vars]"@,
        DLine::Head(k) => seq!['['] + k + seq![']'],
        DLine::Entry(k, v) => line_of(h, (k, v)),
        DLine::Ann(n, a) => fmt_ann(h, ann_of(n, a)),
        DLine::Open(k) => k + " = #{"@,
        DLine::Inner(k, v) => crate::roundtrip::iline_of(h, (k, v)),
        DLine::Close => "}#"@,
    }
}

/// A line that reads back as what it was written for.
pub open spec fn dline_ok<H: Fn(HostQuery) -> HostReply>(h: H, l: DLine) -> bool {
    match l {
        DLine::Head(k) => bare_key(k) && k != "vars"@,
        DLine::Entry(k, v) => bare_key(k) && written_value(v),
        DLine::Ann(n, a) => ann_name(n) && arg_reads_back(h, a) && ann_line_ok(h, n, a),
        DLine::Open(k) => bare_key(k),
        DLine::Inner(k, v) => bare_key(k) && written_value(v),
        _ => true,
    }
}

/// A line of the kinds a document without block dicts has.
pub open spec fn plain_ok<H: Fn(HostQuery) -> HostReply>(h: H, l: DLine) -> bool {
    dline_ok(h, l) && !(l is Open) && !(l is Inner) && !(l is Close)
}

/// Each line followed by a newline.
pub open spec fn dtext<H: Fn(HostQuery) -> HostReply>(h: H, ls: Seq<DLine>) -> Seq<char>
    decreases ls.len(),
{
    if ls.len() == 0 {
        Seq::empty()
    } else {
        dtext(h, ls.drop_last()) + dline_text(h, ls.last()) + seq!['\n']
    }
}

pub open spec fn dpos<H: Fn(HostQuery) -> HostReply>(h: H, ls: Seq<DLine>, i: int) -> int {
    dtext(h, ls.take(i)).len() as int
}

proof fn lemma_dtext_step<H: Fn(HostQuery) -> HostReply>(h: H, ls: Seq<DLine>, i: int)
    requires
        0 <= i < ls.len(),
    ensures
        dtext(h, ls.take(i + 1)) == dtext(h, ls.take(i)) + dline_text(h, ls[i]) + seq!['\n'],
{
    let t = ls.take(i + 1);
    assert(t.drop_last() =~= ls.take(i));
    assert(t.last() == ls[i]);
}

proof fn lemma_dtext_prefix<H: Fn(HostQuery) -> HostReply>(h: H, ls: Seq<DLine>, i: int, j: int)
    requires
        0 <= i <= j <= ls.len(),
    ensures
        dpos(h, ls, i) <= dpos(h, ls, j),
        dtext(h, ls.take(j)).take(dpos(h, ls, i)) == dtext(h, ls.take(i)),
    decreases j - i,
{
    if i < j {
        lemma_dtext_prefix(h, ls, i, j - 1);
        lemma_dtext_step(h, ls, j - 1);
        let a = dtext(h, ls.take(j - 1));
        let l = dpos(h, ls, i);
        assert((a + dline_text(h, ls[j - 1]) + seq!['\n']).take(l) =~= a.take(l));
    } else {
        assert(dtext(h, ls.take(j)).take(dpos(h, ls, j)) =~= dtext(h, ls.take(j)));
    }
}

proof fn lemma_dline_at<H: Fn(HostQuery) -> HostReply>(h: H, ls: Seq<DLine>, i: int)
    requires
        0 <= i < ls.len(),
    ensures
        dpos(h, ls, i + 1) == dpos(h, ls, i) + dline_text(h, ls[i]).len() + 1,
        dpos(h, ls, i + 1) <= dtext(h, ls).len(),
        dtext(h, ls).subrange(dpos(h, ls, i), dpos(h, ls, i) + dline_text(h, ls[i]).len()) == dline_text(h, ls[i]),
        dtext(h, ls)[dpos(h, ls, i) + dline_text(h, ls[i]).len()] == '\n',
{
    lemma_dtext_step(h, ls, i);
    lemma_dtext_prefix(h, ls, i + 1, ls.len() as int);
    assert(ls.take(ls.len() as int) =~= ls);
    let t = dtext(h, ls);
    let p = dtext(h, ls.take(i + 1));
    let a = dpos(h, ls, i);
    let l = dline_text(h, ls[i]);
    assert(t.take(dpos(h, ls, i + 1)) == p);
    assert(t.subrange(a, a + l.len()) =~= p.subrange(a, a + l.len()));
    assert(p.subrange(a, a + l.len()) =~= l);
    assert(t[a + l.len()] == p[a + l.len()]);
}

/// The text of a line that reads back: no newline in it, and when it is
/// not empty, it starts and ends with a character that is not whitespace.
proof fn lemma_dline_chars<H: Fn(HostQuery) -> HostReply>(h: H, l: DLine)
    requires
        dline_ok(h, l),
    ensures
        forall|q: int| 0 <= q < dline_text(h, l).len() ==> #[trigger] dline_text(h, l)[q] != '\n',
        dline_text(h, l).len() > 0 ==> !is_ws(dline_text(h, l).last()) && dline_text(h, l).last() != '\r',
        (dline_text(h, l).len() == 0) == (l is Blank),
{
    reveal_strlit("[vars]");
    match l {
        DLine::Entry(k, v) => {
            lemma_line_chars(h, (k, v));
        },
        DLine::Head(k) => {
            let t = seq!['['] + k + seq![']'];
            assert forall|q: int| 0 <= q < t.len() implies #[trigger] t[q] != '\n' by {
                if 0 < q < t.len() - 1 {
                    assert(t[q] == k[q - 1]);
                    assert(crate::lexer::is_bare_key_char(k[q - 1]));
                }
            }
        },
        DLine::Ann(n, a) => {
            crate::reannotate::lemma_ann_line(h, ann_of(n, a));
        },
        DLine::Open(k) => {
            crate::roundtrip::lemma_open_token(k);
        },
        DLine::Inner(k, v) => {
            crate::roundtrip::lemma_iline_token(h, (k, v));
        },
        DLine::Close => {
            crate::roundtrip::lemma_close_token();
        },
        _ => {},
    }
}

/// The physical lines of written lines are those lines.
proof fn lemma_dlines_of<H: Fn(HostQuery) -> HostReply>(h: H, ls: Seq<DLine>, i: int, ln: u32)
    requires
        forall|q: int| 0 <= q < ls.len() ==> dline_ok(h, #[trigger] ls[q]),
        0 <= i <= ls.len(),
    ensures
        ({
            let r = crate::lexer::lines_from(dtext(h, ls), dpos(h, ls, i), dpos(h, ls, i), ln);
            &&& r.len() == ls.len() - i
            &&& forall|q: int| 0 <= q < r.len() ==> (#[trigger] r[q]).text == dline_text(h, ls[i + q])
        }),
    decreases ls.len() - i,
{
    let t = dtext(h, ls);
    if i < ls.len() {
        lemma_dline_at(h, ls, i);
        assert(dline_ok(h, ls[i]));
        lemma_dline_chars(h, ls[i]);
        let a = dpos(h, ls, i);
        let l = dline_text(h, ls[i]);
        assert forall|q: int| a <= q < a + l.len() implies #[trigger] t[q] != '\n' by {
            assert(t[q] == t.subrange(a, a + l.len())[q - a]);
        }
        lemma_lines_pass(t, a, l.len() as int, a, ln);
        let e = a + l.len();
        if l.len() > 0 {
            assert(t[e - 1] == l.last());
        }
        let next = vstd::wrapping::u32_specs::wrapping_add(ln, 1);
        lemma_dlines_of(h, ls, i + 1, next);
        let r = crate::lexer::lines_from(t, a, a, ln);
        let rest = crate::lexer::lines_from(t, e + 1, e + 1, next);
        assert(r[0].text =~= t.subrange(a, e));
        assert(r == seq![r[0]] + rest);
        assert forall|q: int| 0 <= q < r.len() implies (#[trigger] r[q]).text == dline_text(h, ls[i + q]) by {
            if q > 0 {
                assert(r[q] == rest[q - 1]);
            }
        }
    } else {
        assert(ls.take(i) =~= ls);
    }
}

/// The token the lexer makes of a written line.
pub open spec fn tok_fits<H: Fn(HostQuery) -> HostReply>(h: H, t: TokModel, l: DLine) -> bool {
    match l {
        DLine::Blank => t.kind == LineKind::Blank,
        DLine::VarsHead => t.kind == LineKind::Vars,
        DLine::Head(k) => t.kind == LineKind::Section && t.section == k,
        DLine::Entry(k, v) => t.kind == LineKind::Kv && t.key == k && t.value == fmt_value(h, v),
        DLine::Ann(n, a) => t.kind == LineKind::Annotation && t.annotation_text == fmt_ann(h, ann_of(n, a)),
        DLine::Open(k) => t.kind == LineKind::BlockOpen && t.key == k,
        DLine::Inner(k, v) => t.kind == LineKind::Kv && t.key == k && t.value == fmt_value(h, v),
        DLine::Close => t.kind == LineKind::BlockClose,
    }
}

proof fn lemma_head_token(k: Seq<char>)
    requires
        bare_key(k),
        k != "vars"@,
    ensures
        ({
            let l = seq!['['] + k + seq![']'];
            &&& crate::lexer::strip_comment(l) == l
            &&& trim(l) == l
            &&& l != "[vars]"@
            &&& crate::lexer::match_section(l) == Some(k)
        }),
{
    reveal_strlit("[vars]");
    let l = seq!['['] + k + seq![']'];
    assert forall|q: int| 0 <= q < l.len() implies #[trigger] l[q] != '\\' && l[q] != '"' && l[q] != '#' by {
        if 0 < q < l.len() - 1 {
            assert(l[q] == k[q - 1]);
            assert(crate::lexer::is_bare_key_char(k[q - 1]));
        }
    }
    assert(l.subrange(0, l.len() as int) =~= l);
    crate::roundtrip::lemma_cut_quiet(l, l, 0, 0);
    assert(l.take(l.len() as int) =~= l);
    assert(crate::text::ws_suffix_len(l) == 0);
    assert(crate::text::ws_prefix_len(l) == 0);
    assert(l.skip(0) =~= l);
    assert(crate::lexer::strip_comment(l) == l);
    assert(trim(l) == l);
    if l =~= "[vars]"@ {
        reveal_strlit("vars");
        assert("[vars]"@ =~= seq!['[', 'v', 'a', 'r', 's', ']']);
        assert(k.len() == 4);
        assert(k =~= l.subrange(1, 5));
        assert(k =~= "vars"@);
    }
    let inner = l.subrange(1, l.len() - 1);
    assert(inner =~= k);
    assert(crate::text::ws_suffix_len(k) == 0) by {
        assert(crate::lexer::is_bare_key_char(k.last()));
    }
    assert(crate::text::ws_prefix_len(k) == 0) by {
        assert(crate::lexer::is_bare_key_char(k[0]));
    }
    assert(k.skip(0) =~= k);
    assert(k.take(k.len() as int) =~= k);
    assert(trim(k) == k);
    assert(!k.contains('[')) by {
        if k.contains('[') {
            let q = choose|q: int| 0 <= q < k.len() && k[q] == '[';
            assert(crate::lexer::is_bare_key_char(k[q]));
        }
    }
    assert(!k.contains(']')) by {
        if k.contains(']') {
            let q = choose|q: int| 0 <= q < k.len() && k[q] == ']';
            assert(crate::lexer::is_bare_key_char(k[q]));
        }
    }
}

/// The lexer reads each written line as one token of its kind.
proof fn lemma_lex_dlines<H: Fn(HostQuery) -> HostReply>(
    h: H,
    ls: Seq<DLine>,
    lines: Seq<LineModel>,
    i: int,
)
    requires
        forall|q: int| 0 <= q < ls.len() ==> dline_ok(h, #[trigger] ls[q]),
        lines.len() == ls.len(),
        forall|q: int| 0 <= q < lines.len() ==> (#[trigger] lines[q]).text == dline_text(h, ls[q]),
        0 <= i <= ls.len(),
    ensures
        ({
            let ts = crate::lexer::lex_from(lines, i);
            &&& ts.len() == ls.len() - i
            &&& forall|q: int| 0 <= q < ts.len() ==> tok_fits(h, #[trigger] ts[q], ls[i + q])
        }),
    decreases ls.len() - i,
{
    if i < ls.len() {
        reveal_strlit("[vars]");
        let st = crate::lexer::lex_step(lines, i);
        assert(lines[i].text == dline_text(h, ls[i]));
        assert(dline_ok(h, ls[i]));
        match ls[i] {
            DLine::Entry(k, v) => {
                lemma_line_token(h, (k, v));
            },
            DLine::Head(k) => {
                lemma_head_token(k);
            },
            DLine::VarsHead => {
                let l = "[vars]"@;
                assert(l =~= seq!['[', 'v', 'a', 'r', 's', ']']);
                assert forall|q: int| 0 <= q < l.len() implies #[trigger] l[q] != '\\' && l[q] != '"' && l[q] != '#' by {}
                assert(l.subrange(0, l.len() as int) =~= l);
                crate::roundtrip::lemma_cut_quiet(l, l, 0, 0);
                assert(l.take(l.len() as int) =~= l);
                assert(crate::text::ws_suffix_len(l) == 0);
                assert(crate::text::ws_prefix_len(l) == 0);
                assert(l.skip(0) =~= l);
                assert(crate::lexer::strip_comment(l) == l);
                assert(trim(l) == l);
            },
            DLine::Blank => {
                let l = Seq::<char>::empty();
                assert(l.take(0) =~= l);
                assert(crate::lexer::strip_comment(l) =~= l);
                assert(trim(l) =~= l);
            },
            DLine::Ann(n, a) => {
                let an = ann_of(n, a);
                let l = fmt_ann(h, an);
                crate::reannotate::lemma_ann_line(h, an);
                assert(l.take(l.len() as int) =~= l);
                assert(crate::text::ws_suffix_len(l) == 0);
                assert(crate::lexer::strip_comment(l) == l);
                assert("[vars]"@[0] == '[');
                assert(l != "[vars]"@);
                assert(crate::lexer::match_section(l) is None);
            },
            DLine::Open(k) => {
                crate::roundtrip::lemma_open_token(k);
            },
            DLine::Inner(k, v) => {
                crate::roundtrip::lemma_iline_token(h, (k, v));
                crate::roundtrip::lemma_line_token(h, (k, v));
            },
            DLine::Close => {
                crate::roundtrip::lemma_close_token();
            },
        }
        assert(st.1 == i + 1);
        assert(tok_fits(h, st.0, ls[i]));
        lemma_lex_dlines(h, ls, lines, i + 1);
        let ts = crate::lexer::lex_from(lines, i);
        let rest = crate::lexer::lex_from(lines, i + 1);
        assert(ts == seq![st.0] + rest);
        assert forall|q: int| 0 <= q < ts.len() implies tok_fits(h, #[trigger] ts[q], ls[i + q]) by {
            if q > 0 {
                assert(ts[q] == rest[q - 1]);
            }
        }
    }
}

/// The tokens of written lines.
proof fn lemma_tokens_dtext<H: Fn(HostQuery) -> HostReply>(h: H, ls: Seq<DLine>)
    requires
        forall|q: int| 0 <= q < ls.len() ==> dline_ok(h, #[trigger] ls[q]),
    ensures
        crate::lexer::tokens_of(dtext(h, ls)).len() == ls.len(),
        forall|q: int|
            0 <= q < ls.len() ==> tok_fits(h, #[trigger] crate::lexer::tokens_of(dtext(h, ls))[q], ls[q]),
{
    assert(ls.take(0) =~= Seq::<DLine>::empty());
    assert(dpos(h, ls, 0) == 0);
    lemma_dlines_of(h, ls, 0, 1);
    let lines = crate::lexer::physical_lines(dtext(h, ls));
    assert forall|q: int| 0 <= q < lines.len() implies (#[trigger] lines[q]).text == dline_text(h, ls[q]) by {
        assert(lines[q].text == dline_text(h, ls[0 + q]));
    }
    lemma_lex_dlines(h, ls, lines, 0);
    let ts = crate::lexer::tokens_of(dtext(h, ls));
    assert forall|q: int| 0 <= q < ls.len() implies tok_fits(h, #[trigger] ts[q], ls[q]) by {
        assert(tok_fits(h, ts[q], ls[0 + q]));
    }
}

// ── The two passes over written lines ──────────────────────────────────────

/// Pass 1 over written lines: whether inside `[vars]`, and the variables.
pub open spec fn step1(st: (bool, Seq<(Seq<char>, ValueModel)>), l: DLine) -> (bool, Seq<(Seq<char>, ValueModel)>) {
    match l {
        DLine::VarsHead => (true, st.1),
        DLine::Head(_) => (false, st.1),
        DLine::Entry(k, v) => if st.0 {
            (true, dict_put(st.1, k, v))
        } else {
            st
        },
        DLine::Inner(k, v) => if st.0 {
            (true, dict_put(st.1, k, v))
        } else {
            st
        },
        _ => st,
    }
}

pub open spec fn g1_from(ls: Seq<DLine>, i: int, st: (bool, Seq<(Seq<char>, ValueModel)>)) -> (
    bool,
    Seq<(Seq<char>, ValueModel)>,
)
    decreases ls.len() - i,
{
    if i < 0 || i >= ls.len() {
        st
    } else {
        g1_from(ls, i + 1, step1(st, ls[i]))
    }
}

/// Pass 2 over written lines: whether inside `[vars]`, the current section,
/// and the configuration.
pub open spec fn step2(
    st: (bool, Seq<Seq<char>>, Seq<(Seq<char>, ValueModel)>),
    l: DLine,
) -> (bool, Seq<Seq<char>>, Seq<(Seq<char>, ValueModel)>) {
    match l {
        DLine::VarsHead => (true, st.1, st.2),
        DLine::Head(k) => (false, seq![k], touch_path(st.2, seq![k])),
        DLine::Entry(k, v) => if st.0 {
            st
        } else {
            (false, st.1, set_path(st.2, st.1, k, v))
        },
        DLine::Open(k) => if st.0 {
            st
        } else {
            (false, st.1.push(k), set_path(st.2, st.1, k, ValueModel::Dict(Seq::empty())))
        },
        DLine::Inner(k, v) => if st.0 {
            st
        } else {
            (false, st.1, set_path(st.2, st.1, k, v))
        },
        DLine::Close => (st.0, st.1.drop_last(), st.2),
        _ => st,
    }
}

/// One line's effect on the `[vars]` flag and the open block flag, `None`
/// when the line may not stand there: a block opens outside `[vars]`,
/// holds only indented entries, and closes before any other line.
pub open spec fn wf_step(l: DLine, iv: bool, b: bool) -> Option<(bool, bool)> {
    match l {
        DLine::Open(_) => if b || iv {
            None
        } else {
            Some((iv, true))
        },
        DLine::Inner(_, _) => if b {
            Some((iv, true))
        } else {
            None
        },
        DLine::Close => if b {
            Some((iv, false))
        } else {
            None
        },
        DLine::VarsHead => if b {
            None
        } else {
            Some((true, false))
        },
        DLine::Head(_) => if b {
            None
        } else {
            Some((false, false))
        },
        _ => if b {
            None
        } else {
            Some((iv, false))
        },
    }
}

/// Where a run of lines leaves the two flags of [`wf_step`].
pub open spec fn wf_end(ls: Seq<DLine>, i: int, iv: bool, b: bool) -> Option<(bool, bool)>
    decreases ls.len() - i,
{
    if i < 0 || i >= ls.len() {
        Some((iv, b))
    } else {
        match wf_step(ls[i], iv, b) {
            Some(n) => wf_end(ls, i + 1, n.0, n.1),
            None => None,
        }
    }
}

proof fn lemma_wf_shift(a: Seq<DLine>, b: Seq<DLine>, j: int, iv: bool, bb: bool)
    requires
        0 <= j <= b.len(),
    ensures
        wf_end(a + b, a.len() + j, iv, bb) == wf_end(b, j, iv, bb),
    decreases b.len() - j,
{
    if j < b.len() {
        assert((a + b)[a.len() + j] == b[j]);
        match wf_step(b[j], iv, bb) {
            Some(n) => lemma_wf_shift(a, b, j + 1, n.0, n.1),
            None => {},
        }
    }
}

proof fn lemma_wf_concat(a: Seq<DLine>, b: Seq<DLine>, i: int, iv: bool, bb: bool)
    requires
        0 <= i <= a.len(),
    ensures
        wf_end(a + b, i, iv, bb) == match wf_end(a, i, iv, bb) {
            Some(e) => wf_end(b, 0, e.0, e.1),
            None => None,
        },
    decreases a.len() - i,
{
    if i < a.len() {
        assert((a + b)[i] == a[i]);
        match wf_step(a[i], iv, bb) {
            Some(n) => lemma_wf_concat(a, b, i + 1, n.0, n.1),
            None => {},
        }
    } else {
        lemma_wf_shift(a, b, 0, iv, bb);
    }
}

proof fn lemma_wf_one(l: DLine, iv: bool, b: bool)
    ensures
        wf_end(seq![l], 0, iv, b) == wf_step(l, iv, b),
{
    let x = seq![l];
    assert(x[0] == l);
    match wf_step(l, iv, b) {
        Some(n) => {
            assert(wf_end(x, 1, n.0, n.1) == Some(n));
        },
        None => {},
    }
}

proof fn lemma_wf_push(a: Seq<DLine>, l: DLine, iv: bool, b: bool)
    ensures
        wf_end(a.push(l), 0, iv, b) == match wf_end(a, 0, iv, b) {
            Some(e) => wf_step(l, e.0, e.1),
            None => None,
        },
{
    assert(a.push(l) =~= a + seq![l]);
    lemma_wf_concat(a, seq![l], 0, iv, b);
    match wf_end(a, 0, iv, b) {
        Some(e) => lemma_wf_one(l, e.0, e.1),
        None => {},
    }
}

/// Every block of the lines from `i` on is closed by their end.
pub open spec fn closed_from(ls: Seq<DLine>, i: int, iv: bool, b: bool) -> bool {
    wf_end(ls, i, iv, b) matches Some(e) && !e.1
}

/// Pass 2's state as the line model sees it: inside a block, the block's
/// entries so far stand in the configuration under the block's key.
pub open spec fn abs2(s: P2Model, d: DocModel) -> (bool, Seq<Seq<char>>, Seq<(Seq<char>, ValueModel)>) {
    if s.in_block {
        (
            s.in_vars,
            s.section.push(s.block_key),
            set_path(d.config, s.section, s.block_key, ValueModel::Dict(s.block_data)),
        )
    } else {
        (s.in_vars, s.section, d.config)
    }
}

/// Putting an entry into the dict under `k` at `sec`, via the longer path.
proof fn lemma_set_path_nested(
    cfg: Seq<(Seq<char>, ValueModel)>,
    sec: Seq<Seq<char>>,
    k: Seq<char>,
    a: Seq<(Seq<char>, ValueModel)>,
    ik: Seq<char>,
    v: ValueModel,
)
    ensures
        set_path(set_path(cfg, sec, k, ValueModel::Dict(a)), sec.push(k), ik, v) == set_path(
            cfg,
            sec,
            k,
            ValueModel::Dict(dict_put(a, ik, v)),
        ),
    decreases sec.len(),
{
    let x = set_path(cfg, sec, k, ValueModel::Dict(a));
    let p = sec.push(k);
    if sec.len() == 0 {
        assert(p =~= seq![k]);
        let e = Seq::<Seq<char>>::empty();
        assert(p.drop_first() =~= e);
        assert(x == dict_put(cfg, k, ValueModel::Dict(a)));
        crate::value::law_dict_put_get(cfg, k, ValueModel::Dict(a), k);
        assert(crate::value::dict_get(x, k) == Some(ValueModel::Dict(a)));
        assert(set_path(a, e, ik, v) == dict_put(a, ik, v));
        assert(set_path(x, p, ik, v) == dict_put(x, k, ValueModel::Dict(set_path(a, p.drop_first(), ik, v))));
        crate::value::lemma_put_put(cfg, k, ValueModel::Dict(a), ValueModel::Dict(dict_put(a, ik, v)));
        assert(set_path(cfg, sec, k, ValueModel::Dict(dict_put(a, ik, v))) == dict_put(
            cfg,
            k,
            ValueModel::Dict(dict_put(a, ik, v)),
        ));
    } else {
        let s0 = sec[0];
        let rest = sec.drop_first();
        let c0 = match crate::value::dict_get(cfg, s0) {
            Some(ValueModel::Dict(d)) => d,
            _ => Seq::empty(),
        };
        lemma_set_path_nested(c0, rest, k, a, ik, v);
        assert(p[0] == s0);
        assert(p.drop_first() =~= rest.push(k));
        let inner = set_path(c0, rest, k, ValueModel::Dict(a));
        assert(x == dict_put(cfg, s0, ValueModel::Dict(inner)));
        crate::value::law_dict_put_get(cfg, s0, ValueModel::Dict(inner), s0);
        assert(crate::value::dict_get(x, s0) == Some(ValueModel::Dict(inner)));
        assert(set_path(x, p, ik, v) == dict_put(x, s0, ValueModel::Dict(set_path(inner, p.drop_first(), ik, v))));
        crate::value::lemma_put_put(
            cfg,
            s0,
            ValueModel::Dict(inner),
            ValueModel::Dict(set_path(inner, rest.push(k), ik, v)),
        );
        assert(set_path(cfg, sec, k, ValueModel::Dict(dict_put(a, ik, v))) == dict_put(
            cfg,
            s0,
            ValueModel::Dict(set_path(c0, rest, k, ValueModel::Dict(dict_put(a, ik, v)))),
        ));
    }
}

pub open spec fn g2_from(ls: Seq<DLine>, i: int, st: (bool, Seq<Seq<char>>, Seq<(Seq<char>, ValueModel)>)) -> (
    bool,
    Seq<Seq<char>>,
    Seq<(Seq<char>, ValueModel)>,
)
    decreases ls.len() - i,
{
    if i < 0 || i >= ls.len() {
        st
    } else {
        g2_from(ls, i + 1, step2(st, ls[i]))
    }
}

proof fn lemma_bare_trim(k: Seq<char>)
    requires
        bare_key(k),
    ensures
        trim(k) == k,
        crate::lexer::unquote(k) == k,
{
    assert(crate::lexer::is_bare_key_char(k.last()));
    assert(crate::lexer::is_bare_key_char(k[0]));
    assert(crate::text::ws_suffix_len(k) == 0);
    assert(crate::text::ws_prefix_len(k) == 0);
    assert(k.skip(0) =~= k);
    assert(k.take(k.len() as int) =~= k);
}

proof fn lemma_split_bare(k: Seq<char>, i: int, prev: char)
    requires
        bare_key(k),
        0 <= i <= k.len(),
    ensures
        crate::lexer::split_path_from(k, i, k.take(i), false, prev) == seq![k],
    decreases k.len() - i,
{
    if i < k.len() {
        assert(crate::lexer::is_bare_key_char(k[i]));
        assert(k.take(i).push(k[i]) =~= k.take(i + 1));
        lemma_split_bare(k, i + 1, k[i]);
    } else {
        assert(k.take(i) =~= k);
        lemma_bare_trim(k);
    }
}

/// A bare section name is a one-part path.
proof fn lemma_section_path_bare(k: Seq<char>)
    requires
        bare_key(k),
    ensures
        crate::lexer::section_path(k) == seq![k],
{
    assert(k.take(0) =~= Seq::<char>::empty());
    lemma_split_bare(k, 0, '\0');
}

/// Pass 1 over the tokens of written lines is [`g1_from`].
proof fn lemma_p1_lines<E: Fn(&str) -> Option<String>, H: Fn(HostQuery) -> HostReply>(
    c: Ctx<E, H>,
    ls: Seq<DLine>,
    ts: Seq<TokModel>,
    i: int,
    iv: bool,
    d: DocModel,
)
    requires
        forall|q: int| 0 <= q < ls.len() ==> dline_ok(c.host, #[trigger] ls[q]),
        ts.len() == ls.len(),
        forall|q: int| 0 <= q < ts.len() ==> tok_fits(c.host, #[trigger] ts[q], ls[q]),
        0 <= i <= ls.len(),
    ensures
        p1_from(c, ts, i, iv, d).vars == g1_from(ls, i, (iv, d.vars)).1,
        p1_from(c, ts, i, iv, d).diagnostics == d.diagnostics,
        p1_from(c, ts, i, iv, d).config == d.config,
        p1_from(c, ts, i, iv, d).meta == d.meta,
    decreases ls.len() - i,
{
    if i < ls.len() {
        let t = ts[i];
        assert(tok_fits(c.host, t, ls[i]));
        assert(dline_ok(c.host, ls[i]));
        let st = crate::parser::p1_step(c, t, iv, d);
        match ls[i] {
            DLine::Entry(k, v) => {
                if iv {
                    let cv = crate::parser::with_vars(c, d.vars);
                    crate::roundtrip::law_written_value_reads_back(cv, t.value_span, v);
                    assert(sp_parse(cv, t.value_span, t.value).result == Ok::<ValueModel, crate::error::ErrModel>(v));
                    assert(st.0 == true);
                    assert(st.1.vars == dict_put(d.vars, k, v));
                    assert(st.1.diagnostics == d.diagnostics);
                } else {
                    assert(st == (iv, d));
                }
            },
            DLine::Inner(k, v) => {
                if iv {
                    let cv = crate::parser::with_vars(c, d.vars);
                    crate::roundtrip::law_written_value_reads_back(cv, t.value_span, v);
                    assert(sp_parse(cv, t.value_span, t.value).result == Ok::<ValueModel, crate::error::ErrModel>(v));
                    assert(st.0 == true);
                    assert(st.1.vars == dict_put(d.vars, k, v));
                    assert(st.1.diagnostics == d.diagnostics);
                } else {
                    assert(st == (iv, d));
                }
            },
            _ => {},
        }
        assert(st.0 == step1((iv, d.vars), ls[i]).0);
        assert(st.1.vars == step1((iv, d.vars), ls[i]).1);
        assert(st.1.config == d.config);
        assert(st.1.meta == d.meta);
        assert(st.1.diagnostics == d.diagnostics);
        lemma_p1_lines(c, ls, ts, i + 1, st.0, st.1);
    }
}

/// Pass 2 over the tokens of written lines is [`g2_from`].
#[verifier::spinoff_prover]
#[verifier::rlimit(40)]
proof fn lemma_p2_lines<E: Fn(&str) -> Option<String>, H: Fn(HostQuery) -> HostReply>(
    c: Ctx<E, H>,
    ls: Seq<DLine>,
    ts: Seq<TokModel>,
    i: int,
    s: P2Model,
    d: DocModel,
)
    requires
        forall|q: int| 0 <= q < ls.len() ==> dline_ok(c.host, #[trigger] ls[q]),
        ts.len() == ls.len(),
        forall|q: int| 0 <= q < ts.len() ==> tok_fits(c.host, #[trigger] ts[q], ls[q]),
        0 <= i <= ls.len(),
        closed_from(ls, i, s.in_vars, s.in_block),
        s.in_block ==> !s.in_vars,
    ensures
        p2_from(c, ts, i, s, d).config == g2_from(ls, i, abs2(s, d)).2,
        p2_from(c, ts, i, s, d).diagnostics == d.diagnostics,
        p2_from(c, ts, i, s, d).vars == d.vars,
    decreases ls.len() - i,
{
    if i < ls.len() {
        let t = ts[i];
        assert(tok_fits(c.host, t, ls[i]));
        assert(dline_ok(c.host, ls[i]));
        let st = crate::parser::p2_step(c, t, s, d);
        let g = step2(abs2(s, d), ls[i]);
        if s.in_block {
            match ls[i] {
                DLine::Inner(k, v) => {
                    crate::roundtrip::lemma_iline_token(c.host, (k, v));
                    let w = fmt_value(c.host, v);
                    crate::roundtrip::lemma_written_value_shape(c.host, v);
                    assert(crate::text::trim_end(w) == w) by {
                        assert(crate::text::ws_suffix_len(w) == 0);
                        assert(w.take(w.len() as int) =~= w);
                    }
                    let cv = crate::parser::with_vars(c, d.vars);
                    crate::roundtrip::law_written_value_reads_back(cv, t.value_span, v);
                    assert(sp_parse(cv, t.value_span, w).result == Ok::<ValueModel, crate::error::ErrModel>(v));
                    assert(st.0 == P2Model {
                        block_data: dict_put(s.block_data, k, v),
                        block_pending: Seq::empty(),
                        ..s
                    });
                    assert(st.1.config == d.config);
                    assert(st.1.diagnostics == d.diagnostics);
                    lemma_set_path_nested(d.config, s.section, s.block_key, s.block_data, k, v);
                },
                DLine::Close => {
                    assert(st.0.in_block == false);
                    assert(st.1.config == set_path(
                        d.config,
                        s.section,
                        s.block_key,
                        ValueModel::Dict(s.block_data),
                    ));
                    assert(s.section.push(s.block_key).drop_last() =~= s.section);
                },
                _ => {},
            }
        } else {
            match ls[i] {
                DLine::Entry(k, v) => {
                    if !s.in_vars {
                        let cv = crate::parser::with_vars(c, d.vars);
                        crate::roundtrip::law_written_value_reads_back(cv, t.value_span, v);
                        assert(sp_parse(cv, t.value_span, t.value).result == Ok::<ValueModel, crate::error::ErrModel>(v));
                        assert(st.0 == P2Model { pending: Seq::empty(), ..s });
                        assert(st.1.config == set_path(d.config, s.section, k, v));
                        assert(st.1.diagnostics == d.diagnostics);
                    } else {
                        assert(st == (s, d));
                    }
                },
                DLine::Ann(n, a) => {
                    if !s.in_vars {
                        crate::reannotate::law_annotation_reads_back(c.host, ann_of(n, a), crate::parser::ann_span(t));
                        assert(st.1 == d);
                    }
                },
                DLine::Head(k) => {
                    lemma_section_path_bare(k);
                    let path = crate::lexer::section_path(t.section);
                    assert(path == seq![k]);
                    assert(path[0].len() > 0);
                    assert(!(exists|j: int| 0 <= j < path.len() && (#[trigger] path[j]).len() == 0));
                    assert(crate::parser::join_dots(path) == crate::parser::join_dots(seq![k]));
                    assert(st.0.section == seq![k]);
                    assert(st.0.in_vars == false);
                    assert(st.1.config == touch_path(d.config, seq![k]));
                    assert(st.1.diagnostics == d.diagnostics);
                },
                DLine::Open(k) => {
                    assert(st.0.in_block);
                    assert(st.0.block_key == k);
                    assert(st.0.block_data == Seq::<(Seq<char>, ValueModel)>::empty());
                    assert(st.1 == d);
                },
                _ => {},
            }
        }
        assert(st.0.in_vars == g.0);
        assert(abs2(st.0, st.1) == g);
        assert(st.1.vars == d.vars);
        assert(st.1.diagnostics == d.diagnostics);
        assert(closed_from(ls, i + 1, st.0.in_vars, st.0.in_block));
        lemma_p2_lines(c, ls, ts, i + 1, st.0, st.1);
    }
}

// ── Joining runs of lines ───────────────────────────────────────────────────

proof fn lemma_dtext_concat<H: Fn(HostQuery) -> HostReply>(h: H, a: Seq<DLine>, b: Seq<DLine>)
    ensures
        dtext(h, a + b) == dtext(h, a) + dtext(h, b),
    decreases b.len(),
{
    if b.len() == 0 {
        assert(a + b =~= a);
    } else {
        lemma_dtext_concat(h, a, b.drop_last());
        assert((a + b).drop_last() =~= a + b.drop_last());
        assert((a + b).last() == b.last());
    }
}

proof fn lemma_g1_concat(a: Seq<DLine>, b: Seq<DLine>, i: int, st: (bool, Seq<(Seq<char>, ValueModel)>))
    requires
        0 <= i <= a.len(),
    ensures
        g1_from(a + b, i, st) == g1_from(b, 0, g1_from(a, i, st)),
    decreases a.len() - i,
{
    if i < a.len() {
        assert((a + b)[i] == a[i]);
        lemma_g1_concat(a, b, i + 1, step1(st, a[i]));
    } else {
        lemma_g1_shift(a, b, 0, st);
    }
}

proof fn lemma_g1_shift(a: Seq<DLine>, b: Seq<DLine>, j: int, st: (bool, Seq<(Seq<char>, ValueModel)>))
    requires
        0 <= j <= b.len(),
    ensures
        g1_from(a + b, a.len() + j, st) == g1_from(b, j, st),
    decreases b.len() - j,
{
    if j < b.len() {
        assert((a + b)[a.len() + j] == b[j]);
        lemma_g1_shift(a, b, j + 1, step1(st, b[j]));
    }
}

proof fn lemma_g2_concat(
    a: Seq<DLine>,
    b: Seq<DLine>,
    i: int,
    st: (bool, Seq<Seq<char>>, Seq<(Seq<char>, ValueModel)>),
)
    requires
        0 <= i <= a.len(),
    ensures
        g2_from(a + b, i, st) == g2_from(b, 0, g2_from(a, i, st)),
    decreases a.len() - i,
{
    if i < a.len() {
        assert((a + b)[i] == a[i]);
        lemma_g2_concat(a, b, i + 1, step2(st, a[i]));
    } else {
        lemma_g2_shift(a, b, 0, st);
    }
}

proof fn lemma_g2_shift(
    a: Seq<DLine>,
    b: Seq<DLine>,
    j: int,
    st: (bool, Seq<Seq<char>>, Seq<(Seq<char>, ValueModel)>),
)
    requires
        0 <= j <= b.len(),
    ensures
        g2_from(a + b, a.len() + j, st) == g2_from(b, j, st),
    decreases b.len() - j,
{
    if j < b.len() {
        assert((a + b)[a.len() + j] == b[j]);
        lemma_g2_shift(a, b, j + 1, step2(st, b[j]));
    }
}

/// Without its trailing blank lines (none at all when every line is blank).
pub open spec fn trail(ls: Seq<DLine>) -> Seq<DLine>
    decreases ls.len(),
{
    if ls.len() == 0 {
        ls
    } else if ls.last() is Blank {
        trail(ls.drop_last())
    } else {
        ls
    }
}

/// Trailing blank lines change nothing in either pass, and whitespace at
/// the end of the text is exactly their newlines and the last one.
proof fn lemma_trail<H: Fn(HostQuery) -> HostReply>(
    h: H,
    ls: Seq<DLine>,
    s1: (bool, Seq<(Seq<char>, ValueModel)>),
    s2: (bool, Seq<Seq<char>>, Seq<(Seq<char>, ValueModel)>),
)
    requires
        forall|q: int| 0 <= q < ls.len() ==> dline_ok(h, #[trigger] ls[q]),
    ensures
        trail(ls).len() <= ls.len(),
        forall|q: int| 0 <= q < trail(ls).len() ==> #[trigger] trail(ls)[q] == ls[q],
        g1_from(trail(ls), 0, s1) == g1_from(ls, 0, s1),
        g2_from(trail(ls), 0, s2) == g2_from(ls, 0, s2),
        crate::text::trim_end(dtext(h, ls)) + seq!['\n'] == if trail(ls).len() > 0 {
            dtext(h, trail(ls))
        } else {
            seq!['\n']
        },
    decreases ls.len(),
{
    if ls.len() > 0 {
        let a = ls.drop_last();
        let l = ls.last();
        assert(ls =~= a + seq![l]);
        assert(dline_ok(h, ls[ls.len() - 1]));
        lemma_g1_concat(a, seq![l], 0, s1);
        lemma_g2_concat(a, seq![l], 0, s2);
        if l is Blank {
            lemma_trail(h, a, s1, s2);
            let x1 = g1_from(a, 0, s1);
            let x2 = g2_from(a, 0, s2);
            assert(g1_from(seq![l], 1, x1) == x1);
            assert(g1_from(seq![l], 0, x1) == x1);
            assert(g2_from(seq![l], 1, x2) == x2);
            assert(g2_from(seq![l], 0, x2) == x2);
            let t = dtext(h, ls);
            assert(t =~= dtext(h, a) + seq!['\n']);
            assert(crate::text::is_ws('\n'));
            assert(t.drop_last() =~= dtext(h, a));
            assert(crate::text::ws_suffix_len(t) == 1 + crate::text::ws_suffix_len(dtext(h, a)));
            crate::text::lemma_ws_suffix_len_bound(dtext(h, a));
            assert(crate::text::trim_end(t) =~= crate::text::trim_end(dtext(h, a)));
        } else {
            lemma_dline_chars(h, l);
            let x = dline_text(h, l);
            let t = dtext(h, ls);
            assert(t =~= dtext(h, a) + x + seq!['\n']);
            assert(t.drop_last() =~= dtext(h, a) + x);
            assert(t.drop_last().last() == x.last());
            assert(crate::text::ws_suffix_len(t.drop_last()) == 0);
            assert(crate::text::ws_suffix_len(t) == 1);
            assert(crate::text::trim_end(t) =~= t.drop_last());
            assert(t.drop_last() + seq!['\n'] =~= t);
        }
    } else {
        assert(crate::text::trim_end(dtext(h, ls)) =~= Seq::<char>::empty());
    }
}

// ── The lines the dumper writes ─────────────────────────────────────────────

pub open spec fn entry_lines(m: Seq<(Seq<char>, ValueModel)>) -> Seq<DLine>
    decreases m.len(),
{
    if m.len() == 0 {
        Seq::empty()
    } else {
        entry_lines(m.drop_last()).push(DLine::Entry(m.last().0, m.last().1))
    }
}

pub open spec fn leaf_lines(m: Seq<(Seq<char>, ValueModel)>) -> Seq<DLine>
    decreases m.len(),
{
    if m.len() == 0 {
        Seq::empty()
    } else {
        leaf_lines(m.drop_last()) + if m.last().1 is Dict {
            Seq::empty()
        } else {
            seq![DLine::Entry(m.last().0, m.last().1)]
        }
    }
}

pub open spec fn vars_lines(v: Seq<(Seq<char>, ValueModel)>) -> Seq<DLine> {
    if v.len() > 0 {
        seq![DLine::VarsHead] + entry_lines(v) + seq![DLine::Blank]
    } else {
        Seq::empty()
    }
}

proof fn lemma_dtext_one<H: Fn(HostQuery) -> HostReply>(h: H, l: DLine)
    ensures
        dtext(h, seq![l]) == dline_text(h, l) + seq!['\n'],
{
    let x = seq![l];
    assert(x.drop_last() =~= Seq::<DLine>::empty());
    assert(x.last() == l);
    assert(dtext(h, x.drop_last()) == Seq::<char>::empty());
    assert(dtext(h, x) =~= dline_text(h, l) + seq!['\n']);
}

proof fn lemma_vars_text<H: Fn(HostQuery) -> HostReply>(h: H, m: Seq<(Seq<char>, ValueModel)>)
    ensures
        dtext(h, entry_lines(m)) == crate::dumper::vars_text(h, m),
    decreases m.len(),
{
    reveal_strlit("\n");
    if m.len() > 0 {
        let a = m.drop_last();
        lemma_vars_text(h, a);
        let e = entry_lines(m);
        assert(e.drop_last() =~= entry_lines(a));
        assert(dtext(h, e) =~= crate::dumper::vars_text(h, m));
    }
}

proof fn lemma_ann_text<H: Fn(HostQuery) -> HostReply>(h: H, anns: Seq<AnnModel>)
    ensures
        dtext(h, ann_lines(anns)) == crate::dumper::anns_text(h, anns, Seq::empty()),
    decreases anns.len(),
{
    reveal_strlit("\n");
    if anns.len() > 0 {
        let a = anns.drop_last();
        lemma_ann_text(h, a);
        let l = ann_lines(anns);
        assert(l.drop_last() =~= ann_lines(a));
        let last = anns.last();
        assert(fmt_ann(h, ann_of(last.name, last.arg)) == fmt_ann(h, last));
        assert(dtext(h, l) =~= crate::dumper::anns_text(h, anns, Seq::empty()));
    }
}

proof fn lemma_meta_text<H: Fn(HostQuery) -> HostReply>(h: H, d: DocModel, key: Seq<char>)
    ensures
        dtext(h, meta_lines(d.meta, key)) == crate::dumper::meta_text(h, d, key, Seq::empty()),
{
    match crate::value::dict_get(d.meta, key) {
        Some(anns) => lemma_ann_text(h, anns),
        None => {},
    }
}

proof fn lemma_leaf_text<H: Fn(HostQuery) -> HostReply>(h: H, d: DocModel, m: Seq<(Seq<char>, ValueModel)>)
    ensures
        dtext(h, leaf_lines_m(d.meta, m)) == crate::dumper::top_text(h, d, m),
    decreases m.len(),
{
    reveal_strlit("\n");
    if m.len() > 0 {
        let a = m.drop_last();
        lemma_leaf_text(h, d, a);
        let (k, v) = m.last();
        if !(v is Dict) {
            let e = DLine::Entry(k, v);
            let ml = meta_lines(d.meta, k);
            lemma_dtext_concat(h, leaf_lines_m(d.meta, a), ml + seq![e]);
            lemma_dtext_concat(h, ml, seq![e]);
            lemma_meta_text(h, d, k);
            lemma_dtext_one(h, e);
        } else {
            assert(leaf_lines_m(d.meta, m) =~= leaf_lines_m(d.meta, a));
        }
        assert(dtext(h, leaf_lines_m(d.meta, m)) =~= crate::dumper::top_text(h, d, m));
    }
}

// ── Sections with block dicts ───────────────────────────────────────────────

/// What a section entry may hold: a value written on one line that reads
/// back, or a dict of such under bare keys, written as a `#{ … }#` block.
pub open spec fn body_value(v: ValueModel) -> bool {
    written_value(v) || (v matches ValueModel::Dict(inner) && flat_config(inner))
}

/// A section's entries in key order under bare keys, each a
/// [`body_value`].
pub open spec fn body_config(m: Seq<(Seq<char>, ValueModel)>) -> bool {
    &&& keys_ascending(m)
    &&& forall|i: int| 0 <= i < m.len() ==> bare_key(#[trigger] m[i].0) && body_value(m[i].1)
}

/// A `[section]` whose entries may be block dicts.
pub open spec fn block_section(v: ValueModel) -> bool {
    v matches ValueModel::Dict(sub) && body_config(sub)
}

/// Entries in key order under bare keys: values written on one line that
/// read back, and sections of such and of block dicts of such (none named
/// `vars`).
pub open spec fn block_config(m: Seq<(Seq<char>, ValueModel)>) -> bool {
    &&& keys_ascending(m)
    &&& forall|i: int|
        0 <= i < m.len() ==> bare_key(#[trigger] m[i].0) && (written_value(m[i].1) || (block_section(m[i].1)
            && m[i].0 != "vars"@))
}

/// No key inside the block dict at `fq` has annotations.
pub open spec fn inner_free(meta: Seq<(Seq<char>, Seq<AnnModel>)>, fq: Seq<char>, inner: Seq<(Seq<char>, ValueModel)>) -> bool {
    forall|q: int| 0 <= q < inner.len() ==> crate::value::dict_get(meta, fq + "."@ + (#[trigger] inner[q]).0) is None
}

pub open spec fn body_free(meta: Seq<(Seq<char>, Seq<AnnModel>)>, sec: Seq<char>, m: Seq<(Seq<char>, ValueModel)>) -> bool {
    forall|j: int|
        0 <= j < m.len() ==> ((#[trigger] m[j]).1 matches ValueModel::Dict(inner) ==> inner_free(
            meta,
            sec + "."@ + m[j].0,
            inner,
        ))
}

/// No key inside a block dict of the configuration has annotations.
pub open spec fn config_free(meta: Seq<(Seq<char>, Seq<AnnModel>)>, m: Seq<(Seq<char>, ValueModel)>) -> bool {
    forall|i: int| 0 <= i < m.len() ==> ((#[trigger] m[i]).1 matches ValueModel::Dict(sub) ==> body_free(meta, m[i].0, sub))
}

pub open spec fn inner_lines(m: Seq<(Seq<char>, ValueModel)>) -> Seq<DLine>
    decreases m.len(),
{
    if m.len() == 0 {
        Seq::empty()
    } else {
        inner_lines(m.drop_last()).push(DLine::Inner(m.last().0, m.last().1))
    }
}

/// The lines of one section entry: a block dict, or one line.
pub open spec fn entry_block(k: Seq<char>, v: ValueModel) -> Seq<DLine> {
    match v {
        ValueModel::Dict(inner) => seq![DLine::Open(k)] + inner_lines(inner) + seq![DLine::Close],
        _ => seq![DLine::Entry(k, v)],
    }
}

pub open spec fn body_lines(m: Seq<(Seq<char>, ValueModel)>) -> Seq<DLine>
    decreases m.len(),
{
    if m.len() == 0 {
        Seq::empty()
    } else {
        body_lines(m.drop_last()) + entry_block(m.last().0, m.last().1)
    }
}

pub open spec fn body_lines_m(
    meta: Seq<(Seq<char>, Seq<AnnModel>)>,
    sec: Seq<char>,
    m: Seq<(Seq<char>, ValueModel)>,
) -> Seq<DLine>
    decreases m.len(),
{
    if m.len() == 0 {
        Seq::empty()
    } else {
        body_lines_m(meta, sec, m.drop_last()) + meta_lines(meta, sec + "."@ + m.last().0) + entry_block(
            m.last().0,
            m.last().1,
        )
    }
}

pub open spec fn bblock_lines(k: Seq<char>, sub: Seq<(Seq<char>, ValueModel)>) -> Seq<DLine> {
    seq![DLine::Head(k)] + body_lines(sub) + seq![DLine::Blank]
}

pub open spec fn bblock_lines_m(
    meta: Seq<(Seq<char>, Seq<AnnModel>)>,
    k: Seq<char>,
    sub: Seq<(Seq<char>, ValueModel)>,
) -> Seq<DLine> {
    meta_lines(meta, k) + seq![DLine::Head(k)] + body_lines_m(meta, k, sub) + seq![DLine::Blank]
}

pub open spec fn bsec_lines(m: Seq<(Seq<char>, ValueModel)>) -> Seq<DLine>
    decreases m.len(),
{
    if m.len() == 0 {
        Seq::empty()
    } else {
        bsec_lines(m.drop_last()) + match m.last().1 {
            ValueModel::Dict(sub) => bblock_lines(m.last().0, sub),
            _ => Seq::empty(),
        }
    }
}

pub open spec fn bsec_lines_m(meta: Seq<(Seq<char>, Seq<AnnModel>)>, m: Seq<(Seq<char>, ValueModel)>) -> Seq<DLine>
    decreases m.len(),
{
    if m.len() == 0 {
        Seq::empty()
    } else {
        bsec_lines_m(meta, m.drop_last()) + match m.last().1 {
            ValueModel::Dict(sub) => bblock_lines_m(meta, m.last().0, sub),
            _ => Seq::empty(),
        }
    }
}

pub open spec fn ball_lines(d: DocModel) -> Seq<DLine> {
    vars_lines(d.vars) + leaf_lines(d.config) + (if crate::dumper::has_leaf(d.config) {
        seq![DLine::Blank]
    } else {
        Seq::empty()
    }) + bsec_lines(d.config)
}

pub open spec fn ball_lines_m(d: DocModel) -> Seq<DLine> {
    vars_lines(d.vars) + leaf_lines_m(d.meta, d.config) + (if crate::dumper::has_leaf(d.config) {
        seq![DLine::Blank]
    } else {
        Seq::empty()
    }) + bsec_lines_m(d.meta, d.config)
}

proof fn lemma_inner_text<H: Fn(HostQuery) -> HostReply>(h: H, d: DocModel, fq: Seq<char>, m: Seq<(Seq<char>, ValueModel)>)
    requires
        inner_free(d.meta, fq, m),
    ensures
        dtext(h, inner_lines(m)) == crate::dumper::block_text(h, d, fq, m),
    decreases m.len(),
{
    reveal_strlit("\n");
    reveal_strlit("  ");
    if m.len() > 0 {
        let a = m.drop_last();
        assert forall|q: int| 0 <= q < a.len() implies crate::value::dict_get(d.meta, fq + "."@ + (#[trigger] a[q]).0) is None by {
            assert(a[q] == m[q]);
        }
        lemma_inner_text(h, d, fq, a);
        let (k, v) = m.last();
        assert(crate::value::dict_get(d.meta, fq + "."@ + m[m.len() - 1].0) is None);
        let l = inner_lines(m);
        assert(l.drop_last() =~= inner_lines(a));
        assert(l.last() == DLine::Inner(k, v));
        assert(crate::roundtrip::iline_of(h, (k, v)) =~= "  "@ + k + " = "@ + fmt_value(h, v));
        assert(dtext(h, l) =~= crate::dumper::block_text(h, d, fq, m));
    }
}

proof fn lemma_body_text<H: Fn(HostQuery) -> HostReply>(h: H, d: DocModel, sec: Seq<char>, m: Seq<(Seq<char>, ValueModel)>)
    requires
        forall|i: int| 0 <= i < m.len() ==> body_value(#[trigger] m[i].1),
        body_free(d.meta, sec, m),
    ensures
        dtext(h, body_lines_m(d.meta, sec, m)) == crate::dumper::section_text(h, d, sec, m),
    decreases m.len(),
{
    reveal_strlit("\n");
    reveal_strlit(" = #{\n");
    reveal_strlit(" = #{");
    reveal_strlit("}#\n");
    reveal_strlit("}#");
    if m.len() > 0 {
        let a = m.drop_last();
        assert forall|i: int| 0 <= i < a.len() implies body_value(#[trigger] a[i].1) by {
            assert(a[i] == m[i]);
        }
        assert forall|j: int| 0 <= j < a.len() implies ((#[trigger] a[j]).1 matches ValueModel::Dict(inner)
            ==> inner_free(d.meta, sec + "."@ + a[j].0, inner)) by {
            assert(a[j] == m[j]);
        }
        lemma_body_text(h, d, sec, a);
        assert(body_value(m[m.len() - 1].1));
        let (k, v) = m.last();
        let fq = sec + "."@ + k;
        let eb = entry_block(k, v);
        let ml = meta_lines(d.meta, fq);
        lemma_dtext_concat(h, body_lines_m(d.meta, sec, a) + ml, eb);
        lemma_dtext_concat(h, body_lines_m(d.meta, sec, a), ml);
        lemma_meta_text(h, d, fq);
        match v {
            ValueModel::Dict(inner) => {
                assert(m[m.len() - 1].1 matches ValueModel::Dict(inner) ==> inner_free(d.meta, sec + "."@ + m[m.len() - 1].0, inner));
                lemma_inner_text(h, d, fq, inner);
                let o = seq![DLine::Open(k)];
                let c = seq![DLine::Close];
                lemma_dtext_concat(h, o + inner_lines(inner), c);
                lemma_dtext_concat(h, o, inner_lines(inner));
                lemma_dtext_one(h, DLine::Open(k));
                lemma_dtext_one(h, DLine::Close);
                assert(dtext(h, eb) =~= k + " = #{\n"@ + crate::dumper::block_text(h, d, fq, inner) + "}#\n"@);
            },
            _ => {
                lemma_dtext_one(h, DLine::Entry(k, v));
            },
        }
        assert(dtext(h, body_lines_m(d.meta, sec, m)) =~= crate::dumper::section_text(h, d, sec, m));
    }
}

#[verifier::spinoff_prover]
proof fn lemma_bsec_text<H: Fn(HostQuery) -> HostReply>(h: H, d: DocModel, m: Seq<(Seq<char>, ValueModel)>)
    requires
        forall|i: int| 0 <= i < m.len() ==> written_value(#[trigger] m[i].1) || block_section(m[i].1),
        config_free(d.meta, m),
    ensures
        dtext(h, bsec_lines_m(d.meta, m)) == crate::dumper::sections_text(h, d, m),
    decreases m.len(),
{
    reveal_strlit("\n");
    reveal_strlit("[");
    reveal_strlit("]\n");
    if m.len() > 0 {
        let a = m.drop_last();
        assert forall|i: int| 0 <= i < a.len() implies written_value(#[trigger] a[i].1) || block_section(a[i].1) by {
            assert(a[i] == m[i]);
        }
        assert forall|i: int| 0 <= i < a.len() implies ((#[trigger] a[i]).1 matches ValueModel::Dict(sub) ==> body_free(
            d.meta,
            a[i].0,
            sub,
        )) by {
            assert(a[i] == m[i]);
        }
        lemma_bsec_text(h, d, a);
        let (k, v) = m.last();
        assert(written_value(m[m.len() - 1].1) || block_section(m[m.len() - 1].1));
        match v {
            ValueModel::Dict(sub) => {
                assert(m[m.len() - 1].1 matches ValueModel::Dict(sub) ==> body_free(d.meta, m[m.len() - 1].0, sub));
                let b = bblock_lines_m(d.meta, k, sub);
                lemma_dtext_concat(h, bsec_lines_m(d.meta, a), b);
                assert forall|i: int| 0 <= i < sub.len() implies body_value(#[trigger] sub[i].1) by {
                    assert(bare_key(sub[i].0) && body_value(sub[i].1));
                }
                lemma_body_text(h, d, k, sub);
                let ml = meta_lines(d.meta, k);
                let hd = seq![DLine::Head(k)];
                let el = body_lines_m(d.meta, k, sub);
                let bl = seq![DLine::Blank];
                lemma_dtext_concat(h, ml + hd + el, bl);
                lemma_dtext_concat(h, ml + hd, el);
                lemma_dtext_concat(h, ml, hd);
                lemma_meta_text(h, d, k);
                lemma_dtext_one(h, DLine::Head(k));
                lemma_dtext_one(h, DLine::Blank);
                assert(dtext(h, bl) =~= seq!['\n']);
                assert(dtext(h, bsec_lines_m(d.meta, m)) =~= crate::dumper::sections_text(h, d, m));
            },
            _ => {
                assert(bsec_lines_m(d.meta, m) =~= bsec_lines_m(d.meta, a));
            },
        }
    }
}

/// The dumper's text is that of the document's lines, block dicts included,
/// without trailing whitespace, and a newline.
#[verifier::spinoff_prover]
proof fn lemma_dumps_blines<H: Fn(HostQuery) -> HostReply>(h: H, d: DocModel)
    requires
        flat_config(d.vars),
        block_config(d.config),
        config_free(d.meta, d.config),
    ensures
        crate::dumper::sp_dumps(h, d) == crate::text::trim_end(dtext(h, ball_lines_m(d))) + seq!['\n'],
{
    reveal_strlit("\n");
    reveal_strlit("[vars]\n");
    let m = d.config;
    assert forall|i: int| 0 <= i < m.len() implies written_value(#[trigger] m[i].1) || block_section(m[i].1) by {
        assert(bare_key(m[i].0));
    }
    lemma_vars_text(h, d.vars);
    lemma_leaf_text(h, d, m);
    lemma_bsec_text(h, d, m);
    let vl = vars_lines(d.vars);
    let ll = leaf_lines_m(d.meta, m);
    let bl = if crate::dumper::has_leaf(m) {
        seq![DLine::Blank]
    } else {
        Seq::<DLine>::empty()
    };
    let sl = bsec_lines_m(d.meta, m);
    lemma_dtext_concat(h, vl, ll);
    lemma_dtext_concat(h, vl + ll, bl);
    lemma_dtext_concat(h, vl + ll + bl, sl);
    if d.vars.len() > 0 {
        let vh = seq![DLine::VarsHead];
        let b1 = seq![DLine::Blank];
        lemma_dtext_concat(h, vh, entry_lines(d.vars));
        lemma_dtext_concat(h, vh + entry_lines(d.vars), b1);
        lemma_dtext_one(h, DLine::VarsHead);
        lemma_dtext_one(h, DLine::Blank);
        assert(dtext(h, b1) =~= seq!['\n']);
        reveal_strlit("[vars]");
        assert(dtext(h, vl) =~= "[vars]\n"@ + crate::dumper::vars_text(h, d.vars) + "\n"@);
    } else {
        assert(dtext(h, vl) =~= Seq::<char>::empty());
    }
    if crate::dumper::has_leaf(m) {
        lemma_dtext_one(h, DLine::Blank);
        assert(dtext(h, bl) =~= "\n"@);
    } else {
        assert(dtext(h, bl) =~= Seq::<char>::empty());
    }
    assert(dtext(h, ball_lines_m(d)) =~= (if d.vars.len() > 0 {
        "[vars]\n"@ + crate::dumper::vars_text(h, d.vars) + "\n"@
    } else {
        Seq::<char>::empty()
    }) + (crate::dumper::top_text(h, d, m) + if crate::dumper::has_leaf(m) {
        "\n"@
    } else {
        Seq::<char>::empty()
    }) + crate::dumper::sections_text(h, d, m));
}

// ── Annotation lines ────────────────────────────────────────────────────────

pub open spec fn ann_lines(anns: Seq<AnnModel>) -> Seq<DLine>
    decreases anns.len(),
{
    if anns.len() == 0 {
        Seq::empty()
    } else {
        ann_lines(anns.drop_last()).push(DLine::Ann(anns.last().name, anns.last().arg))
    }
}

/// The annotation lines of a dotted key.
pub open spec fn meta_lines(meta: Seq<(Seq<char>, Seq<AnnModel>)>, key: Seq<char>) -> Seq<DLine> {
    match crate::value::dict_get(meta, key) {
        Some(anns) => ann_lines(anns),
        None => Seq::empty(),
    }
}

pub open spec fn leaf_lines_m(meta: Seq<(Seq<char>, Seq<AnnModel>)>, m: Seq<(Seq<char>, ValueModel)>) -> Seq<DLine>
    decreases m.len(),
{
    if m.len() == 0 {
        Seq::empty()
    } else {
        leaf_lines_m(meta, m.drop_last()) + if m.last().1 is Dict {
            Seq::empty()
        } else {
            meta_lines(meta, m.last().0) + seq![DLine::Entry(m.last().0, m.last().1)]
        }
    }
}

pub open spec fn sec_entry_lines_m(
    meta: Seq<(Seq<char>, Seq<AnnModel>)>,
    sec: Seq<char>,
    m: Seq<(Seq<char>, ValueModel)>,
) -> Seq<DLine>
    decreases m.len(),
{
    if m.len() == 0 {
        Seq::empty()
    } else {
        sec_entry_lines_m(meta, sec, m.drop_last()) + meta_lines(meta, sec + "."@ + m.last().0) + seq![
            DLine::Entry(m.last().0, m.last().1),
        ]
    }
}

pub open spec fn block_lines_m(
    meta: Seq<(Seq<char>, Seq<AnnModel>)>,
    k: Seq<char>,
    sub: Seq<(Seq<char>, ValueModel)>,
) -> Seq<DLine> {
    meta_lines(meta, k) + seq![DLine::Head(k)] + sec_entry_lines_m(meta, k, sub) + seq![DLine::Blank]
}

pub open spec fn sec_lines_m(meta: Seq<(Seq<char>, Seq<AnnModel>)>, m: Seq<(Seq<char>, ValueModel)>) -> Seq<DLine>
    decreases m.len(),
{
    if m.len() == 0 {
        Seq::empty()
    } else {
        sec_lines_m(meta, m.drop_last()) + match m.last().1 {
            ValueModel::Dict(sub) => block_lines_m(meta, m.last().0, sub),
            _ => Seq::empty(),
        }
    }
}

/// Every line the dumper writes of the document, annotations included,
/// trailing blanks included.
pub open spec fn all_lines_m(d: DocModel) -> Seq<DLine> {
    vars_lines(d.vars) + leaf_lines_m(d.meta, d.config) + (if crate::dumper::has_leaf(d.config) {
        seq![DLine::Blank]
    } else {
        Seq::empty()
    }) + sec_lines_m(d.meta, d.config)
}

/// The lines without their annotation lines.
pub open spec fn strip_ann(ls: Seq<DLine>) -> Seq<DLine>
    decreases ls.len(),
{
    if ls.len() == 0 {
        ls
    } else {
        strip_ann(ls.drop_last()) + if ls.last() is Ann {
            Seq::empty()
        } else {
            seq![ls.last()]
        }
    }
}

proof fn lemma_strip_concat(a: Seq<DLine>, b: Seq<DLine>)
    ensures
        strip_ann(a + b) == strip_ann(a) + strip_ann(b),
    decreases b.len(),
{
    if b.len() == 0 {
        assert(a + b =~= a);
        assert(strip_ann(a) + strip_ann(b) =~= strip_ann(a));
    } else {
        lemma_strip_concat(a, b.drop_last());
        assert((a + b).drop_last() =~= a + b.drop_last());
        assert((a + b).last() == b.last());
    }
}

proof fn lemma_strip_ann_lines(anns: Seq<AnnModel>)
    ensures
        strip_ann(ann_lines(anns)) == Seq::<DLine>::empty(),
    decreases anns.len(),
{
    if anns.len() > 0 {
        lemma_strip_ann_lines(anns.drop_last());
        let l = ann_lines(anns);
        assert(l.drop_last() =~= ann_lines(anns.drop_last()));
    }
}

proof fn lemma_strip_meta(meta: Seq<(Seq<char>, Seq<AnnModel>)>, key: Seq<char>)
    ensures
        strip_ann(meta_lines(meta, key)) == Seq::<DLine>::empty(),
{
    match crate::value::dict_get(meta, key) {
        Some(anns) => lemma_strip_ann_lines(anns),
        None => {},
    }
}

proof fn lemma_strip_one(l: DLine)
    requires
        !(l is Ann),
    ensures
        strip_ann(seq![l]) == seq![l],
{
    let x = seq![l];
    assert(x.drop_last() =~= Seq::<DLine>::empty());
    assert(x.last() == l);
    assert(strip_ann(x.drop_last()) == Seq::<DLine>::empty());
    assert(strip_ann(x) == strip_ann(x.drop_last()) + seq![l]);
    assert(strip_ann(x) =~= seq![l]);
}

proof fn lemma_strip_leaves(meta: Seq<(Seq<char>, Seq<AnnModel>)>, m: Seq<(Seq<char>, ValueModel)>)
    ensures
        strip_ann(leaf_lines_m(meta, m)) == leaf_lines(m),
    decreases m.len(),
{
    if m.len() > 0 {
        let a = m.drop_last();
        lemma_strip_leaves(meta, a);
        if m.last().1 is Dict {
            assert(leaf_lines_m(meta, m) =~= leaf_lines_m(meta, a));
            assert(leaf_lines(m) =~= leaf_lines(a));
        } else {
            let e = DLine::Entry(m.last().0, m.last().1);
            let ml = meta_lines(meta, m.last().0);
            lemma_strip_concat(leaf_lines_m(meta, a), ml + seq![e]);
            lemma_strip_concat(ml, seq![e]);
            lemma_strip_meta(meta, m.last().0);
            lemma_strip_one(e);
            assert(strip_ann(ml) + strip_ann(seq![e]) =~= seq![e]);
        }
    }
}

proof fn lemma_strip_vars(v: Seq<(Seq<char>, ValueModel)>)
    ensures
        strip_ann(vars_lines(v)) == vars_lines(v),
{
    lemma_strip_entry_lines(v);
    if v.len() > 0 {
        let vh = seq![DLine::VarsHead];
        let bl = seq![DLine::Blank];
        lemma_strip_concat(vh + entry_lines(v), bl);
        lemma_strip_concat(vh, entry_lines(v));
        lemma_strip_one(DLine::VarsHead);
        lemma_strip_one(DLine::Blank);
    }
}

proof fn lemma_strip_entry_lines(v: Seq<(Seq<char>, ValueModel)>)
    ensures
        strip_ann(entry_lines(v)) == entry_lines(v),
    decreases v.len(),
{
    if v.len() > 0 {
        let a = v.drop_last();
        lemma_strip_entry_lines(a);
        let e = DLine::Entry(v.last().0, v.last().1);
        assert(entry_lines(v) =~= entry_lines(a) + seq![e]);
        lemma_strip_concat(entry_lines(a), seq![e]);
        lemma_strip_one(e);
    }
}

/// Annotation lines change neither pass.
proof fn lemma_passes_strip(
    ls: Seq<DLine>,
    s1: (bool, Seq<(Seq<char>, ValueModel)>),
    s2: (bool, Seq<Seq<char>>, Seq<(Seq<char>, ValueModel)>),
)
    ensures
        g1_from(ls, 0, s1) == g1_from(strip_ann(ls), 0, s1),
        g2_from(ls, 0, s2) == g2_from(strip_ann(ls), 0, s2),
    decreases ls.len(),
{
    if ls.len() > 0 {
        let a = ls.drop_last();
        let l = ls.last();
        lemma_passes_strip(a, s1, s2);
        assert(ls =~= a + seq![l]);
        lemma_g1_concat(a, seq![l], 0, s1);
        lemma_g2_concat(a, seq![l], 0, s2);
        let x1 = g1_from(a, 0, s1);
        let x2 = g2_from(a, 0, s2);
        if l is Ann {
            assert(g1_from(seq![l], 1, x1) == x1);
            assert(g2_from(seq![l], 1, x2) == x2);
            assert(strip_ann(ls) =~= strip_ann(a));
        } else {
            assert(strip_ann(ls) =~= strip_ann(a) + seq![l]);
            lemma_g1_concat(strip_ann(a), seq![l], 0, s1);
            lemma_g2_concat(strip_ann(a), seq![l], 0, s2);
        }
    }
}

// ── The configuration read back ─────────────────────────────────────────────

proof fn lemma_sel_none<V>(m: Seq<(Seq<char>, V)>, p: spec_fn(int) -> bool, i: int)
    requires
        0 <= i,
        forall|a: int| i <= a < m.len() ==> !#[trigger] p(a),
    ensures
        sel_from(m, p, i) == Seq::<(Seq<char>, V)>::empty(),
    decreases m.len() - i,
{
    if i < m.len() {
        lemma_sel_none(m, p, i + 1);
        assert(sel_from(m, p, i) =~= sel_from(m, p, i + 1));
    }
}

proof fn lemma_sel_all<V>(m: Seq<(Seq<char>, V)>, p: spec_fn(int) -> bool, i: int)
    requires
        0 <= i <= m.len(),
        forall|a: int| i <= a < m.len() ==> #[trigger] p(a),
    ensures
        sel_from(m, p, i) == m.skip(i),
    decreases m.len() - i,
{
    if i < m.len() {
        lemma_sel_all(m, p, i + 1);
        assert(sel_from(m, p, i) =~= seq![m[i]] + m.skip(i + 1));
        assert(seq![m[i]] + m.skip(i + 1) =~= m.skip(i));
    } else {
        assert(m.skip(i) =~= Seq::<(Seq<char>, V)>::empty());
    }
}

pub open spec fn is_leaf(m: Seq<(Seq<char>, ValueModel)>, a: int) -> bool {
    !(m[a].1 is Dict)
}

/// The top-level entries, read in order, fill the leaves.
proof fn lemma_g2_leaves(m: Seq<(Seq<char>, ValueModel)>, n: int)
    requires
        keys_ascending(m),
        0 <= n <= m.len(),
    ensures
        g2_from(leaf_lines(m.take(n)), 0, (false, Seq::empty(), Seq::empty())) == (
            false,
            Seq::<Seq<char>>::empty(),
            sel_from(m, |a: int| a < n && is_leaf(m, a), 0),
        ),
    decreases n,
{
    let pn = |a: int| a < n && is_leaf(m, a);
    if n == 0 {
        assert(m.take(0) =~= Seq::<(Seq<char>, ValueModel)>::empty());
        lemma_sel_none(m, pn, 0);
    } else {
        let q = n - 1;
        lemma_g2_leaves(m, q);
        let pq = |a: int| a < q && is_leaf(m, a);
        let mt = m.take(n);
        assert(mt.drop_last() =~= m.take(q));
        assert(mt.last() == m[q]);
        let x = if m[q].1 is Dict {
            Seq::<DLine>::empty()
        } else {
            seq![DLine::Entry(m[q].0, m[q].1)]
        };
        assert(leaf_lines(mt) == leaf_lines(m.take(q)) + x);
        lemma_g2_concat(leaf_lines(m.take(q)), x, 0, (false, Seq::empty(), Seq::empty()));
        let st = (false, Seq::<Seq<char>>::empty(), sel_from(m, pq, 0));
        if is_leaf(m, q) {
            assert(g2_from(x, 1, step2(st, x[0])) == step2(st, x[0]));
            assert(step2(st, x[0]) == (false, Seq::<Seq<char>>::empty(), dict_put(sel_from(m, pq, 0), m[q].0, m[q].1)));
            lemma_sel_put_new(m, pq, q, m[q].1);
            assert(m.update(q, (m[q].0, m[q].1)) =~= m);
            lemma_sel_same(m, m, |a: int| a == q || pq(a), pn, 0);
        } else {
            assert(g2_from(x, 0, st) == st);
            lemma_sel_same(m, m, pq, pn, 0);
        }
    }
}

proof fn lemma_g2_skip_entries(v: Seq<(Seq<char>, ValueModel)>, sec: Seq<Seq<char>>, cfg: Seq<(Seq<char>, ValueModel)>)
    ensures
        g2_from(entry_lines(v), 0, (true, sec, cfg)) == (true, sec, cfg),
    decreases v.len(),
{
    if v.len() > 0 {
        let a = v.drop_last();
        lemma_g2_skip_entries(a, sec, cfg);
        let e = DLine::Entry(v.last().0, v.last().1);
        assert(entry_lines(v) =~= entry_lines(a) + seq![e]);
        lemma_g2_concat(entry_lines(a), seq![e], 0, (true, sec, cfg));
        assert(g2_from(seq![e], 1, (true, sec, cfg)) == (true, sec, cfg));
    }
}

proof fn lemma_g1_skip_leaves(m: Seq<(Seq<char>, ValueModel)>, vs: Seq<(Seq<char>, ValueModel)>)
    ensures
        g1_from(leaf_lines(m), 0, (false, vs)) == (false, vs),
    decreases m.len(),
{
    if m.len() > 0 {
        let a = m.drop_last();
        lemma_g1_skip_leaves(a, vs);
        let x = if m.last().1 is Dict {
            Seq::<DLine>::empty()
        } else {
            seq![DLine::Entry(m.last().0, m.last().1)]
        };
        lemma_g1_concat(leaf_lines(a), x, 0, (false, vs));
        if x.len() > 0 {
            assert(g1_from(x, 1, (false, vs)) == (false, vs));
        }
    }
}

/// `[vars]` entries, read in order, are the variables.
proof fn lemma_g1_vars(v: Seq<(Seq<char>, ValueModel)>, n: int)
    requires
        flat_config(v),
        0 <= n <= v.len(),
    ensures
        g1_from(entry_lines(v.take(n)), 0, (true, Seq::empty())) == (true, v.take(n)),
    decreases n,
{
    if n == 0 {
        assert(v.take(0) =~= Seq::<(Seq<char>, ValueModel)>::empty());
    } else {
        let r = n - 1;
        lemma_g1_vars(v, r);
        let vt = v.take(n);
        assert(vt.drop_last() =~= v.take(r));
        assert(vt.last() == v[r]);
        let e = DLine::Entry(v[r].0, v[r].1);
        assert(entry_lines(vt) =~= entry_lines(v.take(r)) + seq![e]);
        lemma_g1_concat(entry_lines(v.take(r)), seq![e], 0, (true, Seq::empty()));
        let pre = v.take(r);
        assert forall|b: int| 0 <= b < pre.len() implies key_lt(#[trigger] pre[b].0, v[r].0) by {
            assert(pre[b] == v[b]);
        }
        crate::roundtrip::lemma_insert_last(pre, v[r].0, v[r].1);
        assert(pre.push((v[r].0, v[r].1)) =~= vt);
        assert(g1_from(seq![e], 1, step1((true, pre), e)) == step1((true, pre), e));
    }
}

proof fn lemma_no_leaf_lines(m: Seq<(Seq<char>, ValueModel)>)
    requires
        !crate::dumper::has_leaf(m),
    ensures
        leaf_lines(m) == Seq::<DLine>::empty(),
    decreases m.len(),
{
    if m.len() > 0 {
        let a = m.drop_last();
        assert(!crate::dumper::has_leaf(a)) by {
            if crate::dumper::has_leaf(a) {
                let i = choose|i: int| 0 <= i < a.len() && !((#[trigger] a[i]).1 is Dict);
                assert(a[i] == m[i]);
            }
        }
        lemma_no_leaf_lines(a);
        assert(m.last().1 is Dict) by {
            if !(m.last().1 is Dict) {
                assert(!(m[m.len() - 1].1 is Dict));
            }
        }
    }
}

proof fn lemma_entry_lines_ok<H: Fn(HostQuery) -> HostReply>(h: H, m: Seq<(Seq<char>, ValueModel)>)
    requires
        flat_config(m),
    ensures
        forall|q: int| 0 <= q < entry_lines(m).len() ==> plain_ok(h, #[trigger] entry_lines(m)[q]),
    decreases m.len(),
{
    if m.len() > 0 {
        let a = m.drop_last();
        assert(flat_config(a)) by {
            assert forall|i: int, j: int| 0 <= i < j < a.len() implies key_lt(#[trigger] a[i].0, #[trigger] a[j].0) by {
                assert(a[i] == m[i] && a[j] == m[j]);
            }
            assert forall|i: int| 0 <= i < a.len() implies bare_key(#[trigger] a[i].0) && written_value(a[i].1) by {
                assert(a[i] == m[i]);
            }
        }
        lemma_entry_lines_ok(h, a);
        assert(bare_key(m[m.len() - 1].0) && written_value(m[m.len() - 1].1));
        let e = entry_lines(m);
        assert forall|q: int| 0 <= q < e.len() implies plain_ok(h, #[trigger] e[q]) by {
            if q < e.len() - 1 {
                assert(e[q] == entry_lines(a)[q]);
            }
        }
    }
}

// ── Both passes over sections with block dicts ─────────────────────────────

proof fn lemma_strip_inner(m: Seq<(Seq<char>, ValueModel)>)
    ensures
        strip_ann(inner_lines(m)) == inner_lines(m),
    decreases m.len(),
{
    if m.len() > 0 {
        let a = m.drop_last();
        lemma_strip_inner(a);
        let e = DLine::Inner(m.last().0, m.last().1);
        assert(inner_lines(m) =~= inner_lines(a) + seq![e]);
        lemma_strip_concat(inner_lines(a), seq![e]);
        lemma_strip_one(e);
    }
}

proof fn lemma_strip_entry_block(k: Seq<char>, v: ValueModel)
    ensures
        strip_ann(entry_block(k, v)) == entry_block(k, v),
{
    match v {
        ValueModel::Dict(inner) => {
            let o = seq![DLine::Open(k)];
            let c = seq![DLine::Close];
            lemma_strip_concat(o + inner_lines(inner), c);
            lemma_strip_concat(o, inner_lines(inner));
            lemma_strip_one(DLine::Open(k));
            lemma_strip_one(DLine::Close);
            lemma_strip_inner(inner);
        },
        _ => {
            lemma_strip_one(DLine::Entry(k, v));
        },
    }
}

proof fn lemma_strip_body(meta: Seq<(Seq<char>, Seq<AnnModel>)>, sec: Seq<char>, m: Seq<(Seq<char>, ValueModel)>)
    ensures
        strip_ann(body_lines_m(meta, sec, m)) == body_lines(m),
    decreases m.len(),
{
    if m.len() > 0 {
        let a = m.drop_last();
        lemma_strip_body(meta, sec, a);
        let eb = entry_block(m.last().0, m.last().1);
        let ml = meta_lines(meta, sec + "."@ + m.last().0);
        lemma_strip_concat(body_lines_m(meta, sec, a) + ml, eb);
        lemma_strip_concat(body_lines_m(meta, sec, a), ml);
        lemma_strip_meta(meta, sec + "."@ + m.last().0);
        lemma_strip_entry_block(m.last().0, m.last().1);
        assert(strip_ann(body_lines_m(meta, sec, a)) + strip_ann(ml) + strip_ann(eb) =~= body_lines(m));
    }
}

proof fn lemma_strip_bsections(meta: Seq<(Seq<char>, Seq<AnnModel>)>, m: Seq<(Seq<char>, ValueModel)>)
    ensures
        strip_ann(bsec_lines_m(meta, m)) == bsec_lines(m),
    decreases m.len(),
{
    if m.len() > 0 {
        let a = m.drop_last();
        lemma_strip_bsections(meta, a);
        match m.last().1 {
            ValueModel::Dict(sub) => {
                let k = m.last().0;
                let ml = meta_lines(meta, k);
                let hd = seq![DLine::Head(k)];
                let el = body_lines_m(meta, k, sub);
                let bl = seq![DLine::Blank];
                lemma_strip_concat(bsec_lines_m(meta, a), bblock_lines_m(meta, k, sub));
                lemma_strip_concat(ml + hd + el, bl);
                lemma_strip_concat(ml + hd, el);
                lemma_strip_concat(ml, hd);
                lemma_strip_meta(meta, k);
                lemma_strip_one(DLine::Head(k));
                lemma_strip_one(DLine::Blank);
                lemma_strip_body(meta, k, sub);
                assert(strip_ann(bblock_lines_m(meta, k, sub)) =~= bblock_lines(k, sub));
            },
            _ => {
                assert(bsec_lines_m(meta, m) =~= bsec_lines_m(meta, a));
                assert(bsec_lines(m) =~= bsec_lines(a));
            },
        }
    }
}

proof fn lemma_strip_ball(d: DocModel)
    ensures
        strip_ann(ball_lines_m(d)) == ball_lines(d),
{
    let vl = vars_lines(d.vars);
    let bl = if crate::dumper::has_leaf(d.config) {
        seq![DLine::Blank]
    } else {
        Seq::<DLine>::empty()
    };
    let llm = leaf_lines_m(d.meta, d.config);
    let slm = bsec_lines_m(d.meta, d.config);
    lemma_strip_concat(vl + llm + bl, slm);
    lemma_strip_concat(vl + llm, bl);
    lemma_strip_concat(vl, llm);
    lemma_strip_vars(d.vars);
    lemma_strip_leaves(d.meta, d.config);
    lemma_strip_bsections(d.meta, d.config);
    if bl.len() > 0 {
        lemma_strip_one(DLine::Blank);
    } else {
        assert(strip_ann(bl) =~= bl);
    }
}

proof fn lemma_g1_inner(m: Seq<(Seq<char>, ValueModel)>, vs: Seq<(Seq<char>, ValueModel)>)
    ensures
        g1_from(inner_lines(m), 0, (false, vs)) == (false, vs),
    decreases m.len(),
{
    if m.len() > 0 {
        let a = m.drop_last();
        lemma_g1_inner(a, vs);
        let e = DLine::Inner(m.last().0, m.last().1);
        assert(inner_lines(m) =~= inner_lines(a) + seq![e]);
        lemma_g1_concat(inner_lines(a), seq![e], 0, (false, vs));
        assert(g1_from(seq![e], 1, (false, vs)) == (false, vs));
    }
}

proof fn lemma_g1_body(m: Seq<(Seq<char>, ValueModel)>, vs: Seq<(Seq<char>, ValueModel)>)
    ensures
        g1_from(body_lines(m), 0, (false, vs)) == (false, vs),
    decreases m.len(),
{
    if m.len() > 0 {
        let a = m.drop_last();
        lemma_g1_body(a, vs);
        let (k, v) = m.last();
        let eb = entry_block(k, v);
        lemma_g1_concat(body_lines(a), eb, 0, (false, vs));
        match v {
            ValueModel::Dict(inner) => {
                let o = seq![DLine::Open(k)];
                let c = seq![DLine::Close];
                lemma_g1_concat(o + inner_lines(inner), c, 0, (false, vs));
                lemma_g1_concat(o, inner_lines(inner), 0, (false, vs));
                assert(g1_from(o, 1, (false, vs)) == (false, vs));
                lemma_g1_inner(inner, vs);
                assert(g1_from(c, 1, (false, vs)) == (false, vs));
            },
            _ => {
                assert(g1_from(eb, 1, (false, vs)) == (false, vs));
            },
        }
    }
}

proof fn lemma_g1_bsections(m: Seq<(Seq<char>, ValueModel)>, iv: bool, vs: Seq<(Seq<char>, ValueModel)>)
    ensures
        g1_from(bsec_lines(m), 0, (iv, vs)).1 == vs,
    decreases m.len(),
{
    if m.len() > 0 {
        let a = m.drop_last();
        lemma_g1_bsections(a, iv, vs);
        let x = g1_from(bsec_lines(a), 0, (iv, vs));
        match m.last().1 {
            ValueModel::Dict(sub) => {
                let k = m.last().0;
                let b = bblock_lines(k, sub);
                lemma_g1_concat(bsec_lines(a), b, 0, (iv, vs));
                let hd = seq![DLine::Head(k)];
                let el = body_lines(sub);
                let bl = seq![DLine::Blank];
                lemma_g1_concat(hd + el, bl, 0, x);
                lemma_g1_concat(hd, el, 0, x);
                assert(g1_from(hd, 1, (false, vs)) == (false, vs));
                assert(g1_from(hd, 0, x) == (false, vs));
                lemma_g1_body(sub, vs);
                assert(g1_from(bl, 1, (false, vs)) == (false, vs));
            },
            _ => {
                assert(bsec_lines(m) =~= bsec_lines(a));
            },
        }
    }
}

/// A block dict's entries, read in order, fill the dict under its key.
proof fn lemma_g2_inner(
    cfg: Seq<(Seq<char>, ValueModel)>,
    sec: Seq<Seq<char>>,
    ek: Seq<char>,
    inner: Seq<(Seq<char>, ValueModel)>,
    r: int,
)
    requires
        flat_config(inner),
        0 <= r <= inner.len(),
    ensures
        g2_from(
            inner_lines(inner.take(r)),
            0,
            (false, sec.push(ek), set_path(cfg, sec, ek, ValueModel::Dict(Seq::empty()))),
        ) == (false, sec.push(ek), set_path(cfg, sec, ek, ValueModel::Dict(inner.take(r)))),
    decreases r,
{
    let st0 = (false, sec.push(ek), set_path(cfg, sec, ek, ValueModel::Dict(Seq::empty())));
    if r == 0 {
        assert(inner.take(0) =~= Seq::<(Seq<char>, ValueModel)>::empty());
    } else {
        let q = r - 1;
        lemma_g2_inner(cfg, sec, ek, inner, q);
        let t = inner.take(r);
        assert(t.drop_last() =~= inner.take(q));
        assert(t.last() == inner[q]);
        let e = DLine::Inner(inner[q].0, inner[q].1);
        assert(inner_lines(t) =~= inner_lines(inner.take(q)) + seq![e]);
        lemma_g2_concat(inner_lines(inner.take(q)), seq![e], 0, st0);
        let pre = inner.take(q);
        lemma_set_path_nested(cfg, sec, ek, pre, inner[q].0, inner[q].1);
        assert forall|b: int| 0 <= b < pre.len() implies key_lt(#[trigger] pre[b].0, inner[q].0) by {
            assert(pre[b] == inner[b]);
        }
        crate::roundtrip::lemma_insert_last(pre, inner[q].0, inner[q].1);
        assert(pre.push((inner[q].0, inner[q].1)) =~= t);
        let st = (false, sec.push(ek), set_path(cfg, sec, ek, ValueModel::Dict(pre)));
        let nx = step2(st, e);
        assert(g2_from(seq![e], 1, nx) == nx);
    }
}

/// A section entry's lines put it under its key, as one entry line would.
proof fn lemma_g2_entry_block(
    cfg: Seq<(Seq<char>, ValueModel)>,
    sec: Seq<Seq<char>>,
    k: Seq<char>,
    v: ValueModel,
)
    requires
        body_value(v),
    ensures
        g2_from(entry_block(k, v), 0, (false, sec, cfg)) == (false, sec, set_path(cfg, sec, k, v)),
{
    let st = (false, sec, cfg);
    match v {
        ValueModel::Dict(inner) => {
            let o = seq![DLine::Open(k)];
            let c = seq![DLine::Close];
            let il = inner_lines(inner);
            lemma_g2_concat(o + il, c, 0, st);
            lemma_g2_concat(o, il, 0, st);
            let s1 = (false, sec.push(k), set_path(cfg, sec, k, ValueModel::Dict(Seq::empty())));
            assert(g2_from(o, 1, s1) == s1);
            assert(g2_from(o, 0, st) == s1);
            lemma_g2_inner(cfg, sec, k, inner, inner.len() as int);
            assert(inner.take(inner.len() as int) =~= inner);
            let s2 = (false, sec.push(k), set_path(cfg, sec, k, v));
            assert(sec.push(k).drop_last() =~= sec);
            let s3 = (false, sec, set_path(cfg, sec, k, v));
            assert(step2(s2, DLine::Close) == s3);
            assert(g2_from(c, 1, s3) == s3);
        },
        _ => {
            let e = DLine::Entry(k, v);
            assert(g2_from(seq![e], 1, step2(st, e)) == step2(st, e));
        },
    }
}

#[verifier::spinoff_prover]
proof fn lemma_g2_bentries(m: Seq<(Seq<char>, ValueModel)>, p2: spec_fn(int) -> bool, j: int, q: int)
    requires
        block_config(m),
        0 <= j < m.len(),
        m[j].1 is Dict,
        p2(j),
        0 <= q <= m[j].1->Dict_0.len(),
    ensures
        ({
            let k = m[j].0;
            let sub = m[j].1->Dict_0;
            g2_from(
                body_lines(sub.take(q)),
                0,
                (false, seq![k], sel_from(m.update(j, (k, ValueModel::Dict(sub.take(0)))), p2, 0)),
            ) == (false, seq![k], sel_from(m.update(j, (k, ValueModel::Dict(sub.take(q)))), p2, 0))
        }),
    decreases q,
{
    let k = m[j].0;
    let sub = m[j].1->Dict_0;
    assert(bare_key(m[j].0) && (written_value(m[j].1) || block_section(m[j].1)));
    assert(body_config(sub));
    if q > 0 {
        let r = q - 1;
        lemma_g2_bentries(m, p2, j, r);
        let st0 = (false, seq![k], sel_from(m.update(j, (k, ValueModel::Dict(sub.take(0)))), p2, 0));
        let mr = m.update(j, (k, ValueModel::Dict(sub.take(r))));
        let cfg = sel_from(mr, p2, 0);
        let st = (false, seq![k], cfg);
        let st_take = sub.take(q);
        assert(st_take.drop_last() =~= sub.take(r));
        assert(st_take.last() == sub[r]);
        let eb = entry_block(sub[r].0, sub[r].1);
        assert(body_lines(st_take) == body_lines(sub.take(r)) + eb);
        lemma_g2_concat(body_lines(sub.take(r)), eb, 0, st0);
        assert(bare_key(sub[r].0) && body_value(sub[r].1));
        lemma_g2_entry_block(cfg, seq![k], sub[r].0, sub[r].1);
        // set_path into the section
        assert(ascending(mr)) by {
            assert forall|a: int, b: int| 0 <= a < b < mr.len() implies key_lt(#[trigger] mr[a].0, #[trigger] mr[b].0) by {
                assert(mr[a].0 == m[a].0);
                assert(mr[b].0 == m[b].0);
            }
        }
        lemma_sel_put_old(mr, p2, j, ValueModel::Dict(sub.take(q)), 0);
        assert(mr[j].0 == k);
        assert(crate::value::dict_get(cfg, k) == Some(ValueModel::Dict(sub.take(r))));
        let pre = sub.take(r);
        assert forall|b: int| 0 <= b < pre.len() implies key_lt(#[trigger] pre[b].0, sub[r].0) by {
            assert(pre[b] == sub[b]);
        }
        crate::roundtrip::lemma_insert_last(pre, sub[r].0, sub[r].1);
        assert(pre.push((sub[r].0, sub[r].1)) =~= sub.take(q));
        assert(seq![k].drop_first() =~= Seq::<Seq<char>>::empty());
        assert(set_path(pre, Seq::<Seq<char>>::empty(), sub[r].0, sub[r].1) == dict_put(pre, sub[r].0, sub[r].1));
        assert(set_path(cfg, seq![k], sub[r].0, sub[r].1) == dict_put(cfg, k, ValueModel::Dict(sub.take(q))));
        assert(mr.update(j, (k, ValueModel::Dict(sub.take(q)))) =~= m.update(j, (k, ValueModel::Dict(sub.take(q)))));
    } else {
        assert(body_lines(sub.take(0)) == body_lines(Seq::<(Seq<char>, ValueModel)>::empty())) by {
            assert(sub.take(0) =~= Seq::<(Seq<char>, ValueModel)>::empty());
        }
    }
}

/// A section's lines, block dicts included, add its dict.
proof fn lemma_g2_bblock(
    m: Seq<(Seq<char>, ValueModel)>,
    p: spec_fn(int) -> bool,
    j: int,
    iv: bool,
    sec: Seq<Seq<char>>,
)
    requires
        block_config(m),
        0 <= j < m.len(),
        m[j].1 is Dict,
        !p(j),
    ensures
        ({
            let sub = m[j].1->Dict_0;
            g2_from(bblock_lines(m[j].0, sub), 0, (iv, sec, sel_from(m, p, 0))) == (
                false,
                seq![m[j].0],
                sel_from(m, |a: int| a == j || p(a), 0),
            )
        }),
{
    let k = m[j].0;
    let sub = m[j].1->Dict_0;
    assert(bare_key(m[j].0) && (written_value(m[j].1) || block_section(m[j].1)));
    let p2 = |a: int| a == j || p(a);
    let cfg = sel_from(m, p, 0);
    // the header
    lemma_sel_absent(m, p, j, 0, 0);
    assert(crate::value::dict_get(cfg, k) is None);
    assert(seq![k].drop_first() =~= Seq::<Seq<char>>::empty());
    assert(seq![k][0] == k);
    assert(touch_path(Seq::<(Seq<char>, ValueModel)>::empty(), seq![k].drop_first()) == Seq::<(Seq<char>, ValueModel)>::empty());
    assert(touch_path(cfg, seq![k]) == dict_put(cfg, k, ValueModel::Dict(Seq::empty())));
    lemma_sel_put_new(m, p, j, ValueModel::Dict(Seq::empty()));
    assert(sub.take(0) =~= Seq::<(Seq<char>, ValueModel)>::empty());
    let st1 = (false, seq![k], sel_from(m.update(j, (k, ValueModel::Dict(sub.take(0)))), p2, 0));
    assert(step2((iv, sec, cfg), DLine::Head(k)) == st1);
    // the entries
    lemma_g2_bentries(m, p2, j, sub.len() as int);
    assert(sub.take(sub.len() as int) =~= sub);
    assert(m.update(j, (k, ValueModel::Dict(sub))) =~= m);
    let hd = seq![DLine::Head(k)];
    let bl = seq![DLine::Blank];
    let el = body_lines(sub);
    lemma_g2_concat(hd + el, bl, 0, (iv, sec, cfg));
    lemma_g2_concat(hd, el, 0, (iv, sec, cfg));
    assert(g2_from(hd, 1, st1) == st1);
    let st2 = (false, seq![k], sel_from(m, p2, 0));
    assert(g2_from(bl, 1, st2) == st2);
    assert(g2_from(bl, 0, st2) == st2);
}

/// The sections, block dicts included, read in order, fill the dicts.
proof fn lemma_g2_bsections(
    m: Seq<(Seq<char>, ValueModel)>,
    n: int,
    st: (bool, Seq<Seq<char>>, Seq<(Seq<char>, ValueModel)>),
)
    requires
        block_config(m),
        0 <= n <= m.len(),
        st.2 == sel_from(m, |a: int| is_leaf(m, a), 0),
    ensures
        g2_from(bsec_lines(m.take(n)), 0, st).2 == sel_from(m, |a: int| is_leaf(m, a) || (a < n && !is_leaf(m, a)), 0),
    decreases n,
{
    let qn = |a: int| is_leaf(m, a) || (a < n && !is_leaf(m, a));
    if n == 0 {
        assert(m.take(0) =~= Seq::<(Seq<char>, ValueModel)>::empty());
        lemma_sel_same(m, m, |a: int| is_leaf(m, a), qn, 0);
    } else {
        let r = n - 1;
        lemma_g2_bsections(m, r, st);
        let qr = |a: int| is_leaf(m, a) || (a < r && !is_leaf(m, a));
        let mt = m.take(n);
        assert(mt.drop_last() =~= m.take(r));
        assert(mt.last() == m[r]);
        let x = g2_from(bsec_lines(m.take(r)), 0, st);
        match m[r].1 {
            ValueModel::Dict(sub) => {
                let b = bblock_lines(m[r].0, sub);
                assert(bsec_lines(mt) == bsec_lines(m.take(r)) + b);
                lemma_g2_concat(bsec_lines(m.take(r)), b, 0, st);
                assert(x == (x.0, x.1, sel_from(m, qr, 0)));
                lemma_g2_bblock(m, qr, r, x.0, x.1);
                lemma_sel_same(m, m, |a: int| a == r || qr(a), qn, 0);
            },
            _ => {
                assert(bsec_lines(mt) =~= bsec_lines(m.take(r)));
                lemma_sel_same(m, m, qr, qn, 0);
            },
        }
    }
}

// ── Blocks of written lines are closed ─────────────────────────────────────

proof fn lemma_wf_anns(anns: Seq<AnnModel>, iv: bool)
    ensures
        wf_end(ann_lines(anns), 0, iv, false) == Some((iv, false)),
    decreases anns.len(),
{
    if anns.len() > 0 {
        lemma_wf_anns(anns.drop_last(), iv);
        lemma_wf_push(ann_lines(anns.drop_last()), DLine::Ann(anns.last().name, anns.last().arg), iv, false);
    }
}

proof fn lemma_wf_meta(meta: Seq<(Seq<char>, Seq<AnnModel>)>, key: Seq<char>, iv: bool)
    ensures
        wf_end(meta_lines(meta, key), 0, iv, false) == Some((iv, false)),
{
    match crate::value::dict_get(meta, key) {
        Some(anns) => lemma_wf_anns(anns, iv),
        None => {},
    }
}

proof fn lemma_wf_entries(m: Seq<(Seq<char>, ValueModel)>, iv: bool)
    ensures
        wf_end(entry_lines(m), 0, iv, false) == Some((iv, false)),
    decreases m.len(),
{
    if m.len() > 0 {
        lemma_wf_entries(m.drop_last(), iv);
        lemma_wf_push(entry_lines(m.drop_last()), DLine::Entry(m.last().0, m.last().1), iv, false);
    }
}

proof fn lemma_wf_leaves(meta: Seq<(Seq<char>, Seq<AnnModel>)>, m: Seq<(Seq<char>, ValueModel)>, iv: bool)
    ensures
        wf_end(leaf_lines_m(meta, m), 0, iv, false) == Some((iv, false)),
    decreases m.len(),
{
    if m.len() > 0 {
        let a = m.drop_last();
        lemma_wf_leaves(meta, a, iv);
        if !(m.last().1 is Dict) {
            let e = DLine::Entry(m.last().0, m.last().1);
            let ml = meta_lines(meta, m.last().0);
            lemma_wf_concat(leaf_lines_m(meta, a), ml + seq![e], 0, iv, false);
            lemma_wf_concat(ml, seq![e], 0, iv, false);
            lemma_wf_meta(meta, m.last().0, iv);
            lemma_wf_one(e, iv, false);
        } else {
            assert(leaf_lines_m(meta, m) =~= leaf_lines_m(meta, a));
        }
    }
}

proof fn lemma_wf_inner(m: Seq<(Seq<char>, ValueModel)>)
    ensures
        wf_end(inner_lines(m), 0, false, true) == Some((false, true)),
    decreases m.len(),
{
    if m.len() > 0 {
        lemma_wf_inner(m.drop_last());
        lemma_wf_push(inner_lines(m.drop_last()), DLine::Inner(m.last().0, m.last().1), false, true);
    }
}

proof fn lemma_wf_entry_block(k: Seq<char>, v: ValueModel)
    ensures
        wf_end(entry_block(k, v), 0, false, false) == Some((false, false)),
{
    match v {
        ValueModel::Dict(inner) => {
            let o = seq![DLine::Open(k)];
            let c = seq![DLine::Close];
            lemma_wf_concat(o + inner_lines(inner), c, 0, false, false);
            lemma_wf_concat(o, inner_lines(inner), 0, false, false);
            lemma_wf_one(DLine::Open(k), false, false);
            lemma_wf_inner(inner);
            lemma_wf_one(DLine::Close, false, true);
        },
        _ => {
            lemma_wf_one(DLine::Entry(k, v), false, false);
        },
    }
}

proof fn lemma_wf_body(meta: Seq<(Seq<char>, Seq<AnnModel>)>, sec: Seq<char>, m: Seq<(Seq<char>, ValueModel)>)
    ensures
        wf_end(body_lines_m(meta, sec, m), 0, false, false) == Some((false, false)),
    decreases m.len(),
{
    if m.len() > 0 {
        let a = m.drop_last();
        lemma_wf_body(meta, sec, a);
        let eb = entry_block(m.last().0, m.last().1);
        let ml = meta_lines(meta, sec + "."@ + m.last().0);
        lemma_wf_concat(body_lines_m(meta, sec, a) + ml, eb, 0, false, false);
        lemma_wf_concat(body_lines_m(meta, sec, a), ml, 0, false, false);
        lemma_wf_meta(meta, sec + "."@ + m.last().0, false);
        lemma_wf_entry_block(m.last().0, m.last().1);
    }
}

proof fn lemma_wf_bsec(meta: Seq<(Seq<char>, Seq<AnnModel>)>, m: Seq<(Seq<char>, ValueModel)>, iv: bool)
    ensures
        wf_end(bsec_lines_m(meta, m), 0, iv, false) matches Some(e) && !e.1,
    decreases m.len(),
{
    if m.len() > 0 {
        let a = m.drop_last();
        lemma_wf_bsec(meta, a, iv);
        let e1 = wf_end(bsec_lines_m(meta, a), 0, iv, false)->Some_0;
        match m.last().1 {
            ValueModel::Dict(sub) => {
                let k = m.last().0;
                let ml = meta_lines(meta, k);
                let hd = seq![DLine::Head(k)];
                let el = body_lines_m(meta, k, sub);
                let bl = seq![DLine::Blank];
                lemma_wf_concat(bsec_lines_m(meta, a), bblock_lines_m(meta, k, sub), 0, iv, false);
                lemma_wf_concat(ml + hd + el, bl, 0, e1.0, false);
                lemma_wf_concat(ml + hd, el, 0, e1.0, false);
                lemma_wf_concat(ml, hd, 0, e1.0, false);
                lemma_wf_meta(meta, k, e1.0);
                lemma_wf_one(DLine::Head(k), e1.0, false);
                lemma_wf_body(meta, k, sub);
                lemma_wf_one(DLine::Blank, false, false);
            },
            _ => {
                assert(bsec_lines_m(meta, m) =~= bsec_lines_m(meta, a));
            },
        }
    }
}

/// The lines of a document with block dicts leave no block open.
proof fn lemma_wf_ball(d: DocModel)
    ensures
        closed_from(ball_lines_m(d), 0, false, false),
{
    let vl = vars_lines(d.vars);
    let llm = leaf_lines_m(d.meta, d.config);
    let bl = if crate::dumper::has_leaf(d.config) {
        seq![DLine::Blank]
    } else {
        Seq::<DLine>::empty()
    };
    let slm = bsec_lines_m(d.meta, d.config);
    lemma_wf_concat(vl + llm + bl, slm, 0, false, false);
    lemma_wf_concat(vl + llm, bl, 0, false, false);
    lemma_wf_concat(vl, llm, 0, false, false);
    let iv1 = d.vars.len() > 0;
    if d.vars.len() > 0 {
        let vh = seq![DLine::VarsHead];
        let b1 = seq![DLine::Blank];
        lemma_wf_concat(vh + entry_lines(d.vars), b1, 0, false, false);
        lemma_wf_concat(vh, entry_lines(d.vars), 0, false, false);
        lemma_wf_one(DLine::VarsHead, false, false);
        lemma_wf_entries(d.vars, true);
        lemma_wf_one(DLine::Blank, true, false);
    } else {
        assert(vl =~= Seq::<DLine>::empty());
    }
    assert(wf_end(vl, 0, false, false) == Some((iv1, false)));
    lemma_wf_leaves(d.meta, d.config, iv1);
    if bl.len() > 0 {
        lemma_wf_one(DLine::Blank, iv1, false);
    } else {
        assert(wf_end(bl, 0, iv1, false) == Some((iv1, false)));
    }
    lemma_wf_bsec(d.meta, d.config, iv1);
}

/// Dropping trailing blank lines keeps the blocks closed.
proof fn lemma_wf_trail(ls: Seq<DLine>)
    requires
        closed_from(ls, 0, false, false),
    ensures
        closed_from(trail(ls), 0, false, false),
    decreases ls.len(),
{
    if ls.len() > 0 && ls.last() is Blank {
        let a = ls.drop_last();
        assert(ls =~= a.push(ls.last()));
        lemma_wf_push(a, ls.last(), false, false);
        lemma_wf_trail(a);
    }
}

// ── Lines of a document with block dicts read back ─────────────────────────

proof fn lemma_dok_concat<H: Fn(HostQuery) -> HostReply>(h: H, a: Seq<DLine>, b: Seq<DLine>)
    requires
        forall|q: int| 0 <= q < a.len() ==> dline_ok(h, #[trigger] a[q]),
        forall|q: int| 0 <= q < b.len() ==> dline_ok(h, #[trigger] b[q]),
    ensures
        forall|q: int| 0 <= q < (a + b).len() ==> dline_ok(h, #[trigger] (a + b)[q]),
{
    assert forall|q: int| 0 <= q < (a + b).len() implies dline_ok(h, #[trigger] (a + b)[q]) by {
        if q < a.len() {
            assert((a + b)[q] == a[q]);
        } else {
            assert((a + b)[q] == b[q - a.len()]);
        }
    }
}

proof fn lemma_dok_meta<H: Fn(HostQuery) -> HostReply>(h: H, meta: Seq<(Seq<char>, Seq<AnnModel>)>, key: Seq<char>)
    requires
        meta_ok(h, meta),
    ensures
        forall|q: int| 0 <= q < meta_lines(meta, key).len() ==> dline_ok(h, #[trigger] meta_lines(meta, key)[q]),
{
    lemma_meta_lines_ok(h, meta, key);
    assert forall|q: int| 0 <= q < meta_lines(meta, key).len() implies dline_ok(h, #[trigger] meta_lines(meta, key)[q]) by {
        assert(plain_ok(h, meta_lines(meta, key)[q]));
    }
}

proof fn lemma_inner_ok<H: Fn(HostQuery) -> HostReply>(h: H, m: Seq<(Seq<char>, ValueModel)>)
    requires
        flat_config(m),
    ensures
        forall|q: int| 0 <= q < inner_lines(m).len() ==> dline_ok(h, #[trigger] inner_lines(m)[q]),
    decreases m.len(),
{
    if m.len() > 0 {
        let a = m.drop_last();
        assert(flat_config(a)) by {
            assert forall|i: int, j: int| 0 <= i < j < a.len() implies key_lt(#[trigger] a[i].0, #[trigger] a[j].0) by {
                assert(a[i] == m[i] && a[j] == m[j]);
            }
            assert forall|i: int| 0 <= i < a.len() implies bare_key(#[trigger] a[i].0) && written_value(a[i].1) by {
                assert(a[i] == m[i]);
            }
        }
        lemma_inner_ok(h, a);
        assert(bare_key(m[m.len() - 1].0) && written_value(m[m.len() - 1].1));
        let l = inner_lines(m);
        assert forall|q: int| 0 <= q < l.len() implies dline_ok(h, #[trigger] l[q]) by {
            if q < l.len() - 1 {
                assert(l[q] == inner_lines(a)[q]);
            }
        }
    }
}

proof fn lemma_body_ok<H: Fn(HostQuery) -> HostReply>(
    h: H,
    meta: Seq<(Seq<char>, Seq<AnnModel>)>,
    sec: Seq<char>,
    m: Seq<(Seq<char>, ValueModel)>,
)
    requires
        meta_ok(h, meta),
        body_config(m),
    ensures
        forall|q: int| 0 <= q < body_lines_m(meta, sec, m).len() ==> dline_ok(h, #[trigger] body_lines_m(meta, sec, m)[q]),
    decreases m.len(),
{
    if m.len() > 0 {
        let a = m.drop_last();
        assert(body_config(a)) by {
            assert forall|i: int, j: int| 0 <= i < j < a.len() implies key_lt(#[trigger] a[i].0, #[trigger] a[j].0) by {
                assert(a[i] == m[i] && a[j] == m[j]);
            }
            assert forall|i: int| 0 <= i < a.len() implies bare_key(#[trigger] a[i].0) && body_value(a[i].1) by {
                assert(a[i] == m[i]);
            }
        }
        lemma_body_ok(h, meta, sec, a);
        assert(bare_key(m[m.len() - 1].0) && body_value(m[m.len() - 1].1));
        let (k, v) = m.last();
        let eb = entry_block(k, v);
        let ml = meta_lines(meta, sec + "."@ + k);
        lemma_dok_meta(h, meta, sec + "."@ + k);
        match v {
            ValueModel::Dict(inner) => {
                let o = seq![DLine::Open(k)];
                let c = seq![DLine::Close];
                lemma_inner_ok(h, inner);
                assert forall|q: int| 0 <= q < o.len() implies dline_ok(h, #[trigger] o[q]) by {}
                assert forall|q: int| 0 <= q < c.len() implies dline_ok(h, #[trigger] c[q]) by {}
                lemma_dok_concat(h, o, inner_lines(inner));
                lemma_dok_concat(h, o + inner_lines(inner), c);
            },
            _ => {
                assert forall|q: int| 0 <= q < eb.len() implies dline_ok(h, #[trigger] eb[q]) by {}
            },
        }
        lemma_dok_concat(h, body_lines_m(meta, sec, a), ml);
        lemma_dok_concat(h, body_lines_m(meta, sec, a) + ml, eb);
    }
}

proof fn lemma_bsec_ok<H: Fn(HostQuery) -> HostReply>(
    h: H,
    meta: Seq<(Seq<char>, Seq<AnnModel>)>,
    m: Seq<(Seq<char>, ValueModel)>,
)
    requires
        meta_ok(h, meta),
        block_config(m),
    ensures
        forall|q: int| 0 <= q < bsec_lines_m(meta, m).len() ==> dline_ok(h, #[trigger] bsec_lines_m(meta, m)[q]),
    decreases m.len(),
{
    if m.len() > 0 {
        let a = m.drop_last();
        assert(block_config(a)) by {
            assert forall|i: int, j: int| 0 <= i < j < a.len() implies key_lt(#[trigger] a[i].0, #[trigger] a[j].0) by {
                assert(a[i] == m[i] && a[j] == m[j]);
            }
            assert forall|i: int| 0 <= i < a.len() implies bare_key(#[trigger] a[i].0) && (written_value(a[i].1) || (
            block_section(a[i].1) && a[i].0 != "vars"@)) by {
                assert(a[i] == m[i]);
            }
        }
        lemma_bsec_ok(h, meta, a);
        let (k, v) = m.last();
        assert(bare_key(m[m.len() - 1].0) && (written_value(m[m.len() - 1].1) || (block_section(m[m.len() - 1].1)
            && m[m.len() - 1].0 != "vars"@)));
        match v {
            ValueModel::Dict(sub) => {
                let ml = meta_lines(meta, k);
                let hd = seq![DLine::Head(k)];
                let el = body_lines_m(meta, k, sub);
                let bl = seq![DLine::Blank];
                lemma_dok_meta(h, meta, k);
                lemma_body_ok(h, meta, k, sub);
                assert forall|q: int| 0 <= q < hd.len() implies dline_ok(h, #[trigger] hd[q]) by {}
                assert forall|q: int| 0 <= q < bl.len() implies dline_ok(h, #[trigger] bl[q]) by {}
                lemma_dok_concat(h, ml, hd);
                lemma_dok_concat(h, ml + hd, el);
                lemma_dok_concat(h, ml + hd + el, bl);
                lemma_dok_concat(h, bsec_lines_m(meta, a), bblock_lines_m(meta, k, sub));
            },
            _ => {
                assert(bsec_lines_m(meta, m) =~= bsec_lines_m(meta, a));
            },
        }
    }
}

proof fn lemma_bleaf_ok<H: Fn(HostQuery) -> HostReply>(
    h: H,
    meta: Seq<(Seq<char>, Seq<AnnModel>)>,
    m: Seq<(Seq<char>, ValueModel)>,
)
    requires
        meta_ok(h, meta),
        block_config(m),
    ensures
        forall|q: int| 0 <= q < leaf_lines_m(meta, m).len() ==> dline_ok(h, #[trigger] leaf_lines_m(meta, m)[q]),
    decreases m.len(),
{
    if m.len() > 0 {
        let a = m.drop_last();
        assert(block_config(a)) by {
            assert forall|i: int, j: int| 0 <= i < j < a.len() implies key_lt(#[trigger] a[i].0, #[trigger] a[j].0) by {
                assert(a[i] == m[i] && a[j] == m[j]);
            }
            assert forall|i: int| 0 <= i < a.len() implies bare_key(#[trigger] a[i].0) && (written_value(a[i].1) || (
            block_section(a[i].1) && a[i].0 != "vars"@)) by {
                assert(a[i] == m[i]);
            }
        }
        lemma_bleaf_ok(h, meta, a);
        let (k, v) = m.last();
        assert(bare_key(m[m.len() - 1].0) && (written_value(m[m.len() - 1].1) || (block_section(m[m.len() - 1].1)
            && m[m.len() - 1].0 != "vars"@)));
        if !(v is Dict) {
            let e = seq![DLine::Entry(k, v)];
            lemma_dok_meta(h, meta, k);
            assert forall|q: int| 0 <= q < e.len() implies dline_ok(h, #[trigger] e[q]) by {}
            lemma_dok_concat(h, meta_lines(meta, k), e);
            lemma_dok_concat(h, leaf_lines_m(meta, a), meta_lines(meta, k) + e);
        } else {
            assert(leaf_lines_m(meta, m) =~= leaf_lines_m(meta, a));
        }
    }
}

proof fn lemma_ball_ok<H: Fn(HostQuery) -> HostReply>(h: H, d: DocModel)
    requires
        meta_ok(h, d.meta),
        flat_config(d.vars),
        block_config(d.config),
    ensures
        forall|q: int| 0 <= q < ball_lines_m(d).len() ==> dline_ok(h, #[trigger] ball_lines_m(d)[q]),
{
    let vl = vars_lines(d.vars);
    let bl = if crate::dumper::has_leaf(d.config) {
        seq![DLine::Blank]
    } else {
        Seq::<DLine>::empty()
    };
    lemma_entry_lines_ok(h, d.vars);
    assert forall|q: int| 0 <= q < vl.len() implies dline_ok(h, #[trigger] vl[q]) by {
        if d.vars.len() > 0 && 0 < q < vl.len() - 1 {
            assert(vl[q] == entry_lines(d.vars)[q - 1]);
            assert(plain_ok(h, entry_lines(d.vars)[q - 1]));
        }
    }
    assert forall|q: int| 0 <= q < bl.len() implies dline_ok(h, #[trigger] bl[q]) by {}
    lemma_bleaf_ok(h, d.meta, d.config);
    lemma_bsec_ok(h, d.meta, d.config);
    lemma_dok_concat(h, vl, leaf_lines_m(d.meta, d.config));
    lemma_dok_concat(h, vl + leaf_lines_m(d.meta, d.config), bl);
    lemma_dok_concat(h, vl + leaf_lines_m(d.meta, d.config) + bl, bsec_lines_m(d.meta, d.config));
}

/// Both passes, over every line of a document with block dicts, give back
/// its variables and its configuration.
#[verifier::spinoff_prover]
proof fn lemma_passes_ball(d: DocModel)
    requires
        flat_config(d.vars),
        block_config(d.config),
        d.vars.len() == 0 || !crate::dumper::has_leaf(d.config),
    ensures
        g1_from(ball_lines(d), 0, (false, Seq::empty())).1 == d.vars,
        g2_from(ball_lines(d), 0, (false, Seq::empty(), Seq::empty())).2 == d.config,
{
    let m = d.config;
    let v = d.vars;
    let vl = vars_lines(v);
    let ll = leaf_lines(m);
    let bl = if crate::dumper::has_leaf(m) {
        seq![DLine::Blank]
    } else {
        Seq::<DLine>::empty()
    };
    let sl = bsec_lines(m);
    let s1 = (false, Seq::<(Seq<char>, ValueModel)>::empty());
    let s2 = (false, Seq::<Seq<char>>::empty(), Seq::<(Seq<char>, ValueModel)>::empty());
    lemma_g1_concat(vl + ll + bl, sl, 0, s1);
    lemma_g1_concat(vl + ll, bl, 0, s1);
    lemma_g1_concat(vl, ll, 0, s1);
    lemma_g2_concat(vl + ll + bl, sl, 0, s2);
    lemma_g2_concat(vl + ll, bl, 0, s2);
    lemma_g2_concat(vl, ll, 0, s2);
    let after_v1 = if v.len() > 0 {
        (true, v)
    } else {
        s1
    };
    let after_v2 = if v.len() > 0 {
        (true, Seq::<Seq<char>>::empty(), Seq::<(Seq<char>, ValueModel)>::empty())
    } else {
        s2
    };
    if v.len() > 0 {
        let vh = seq![DLine::VarsHead];
        let el = entry_lines(v);
        let b1 = seq![DLine::Blank];
        lemma_g1_concat(vh + el, b1, 0, s1);
        lemma_g1_concat(vh, el, 0, s1);
        lemma_g2_concat(vh + el, b1, 0, s2);
        lemma_g2_concat(vh, el, 0, s2);
        let t1 = (true, Seq::<(Seq<char>, ValueModel)>::empty());
        assert(g1_from(vh, 1, t1) == t1);
        lemma_g1_vars(v, v.len() as int);
        assert(v.take(v.len() as int) =~= v);
        assert(g1_from(b1, 1, (true, v)) == (true, v));
        assert(g2_from(vh, 1, after_v2) == after_v2);
        lemma_g2_skip_entries(v, Seq::empty(), Seq::empty());
        assert(g2_from(b1, 1, after_v2) == after_v2);
    }
    assert(g1_from(vl, 0, s1) == after_v1);
    assert(g2_from(vl, 0, s2) == after_v2);
    let leaves = |a: int| is_leaf(m, a);
    if v.len() > 0 {
        lemma_no_leaf_lines(m);
        assert(bl.len() == 0);
        assert forall|a: int| 0 <= a < m.len() implies !#[trigger] leaves(a) by {
            if !(m[a].1 is Dict) {
                assert(crate::dumper::has_leaf(m));
            }
        }
        lemma_sel_none(m, leaves, 0);
    } else {
        lemma_g1_skip_leaves(m, v);
        assert(v =~= Seq::<(Seq<char>, ValueModel)>::empty());
        lemma_g2_leaves(m, m.len() as int);
        assert(m.take(m.len() as int) =~= m);
        lemma_sel_same(m, m, |a: int| a < m.len() && is_leaf(m, a), leaves, 0);
        if bl.len() > 0 {
            assert(g1_from(bl, 1, s1) == s1);
            let t2 = (false, Seq::<Seq<char>>::empty(), sel_from(m, leaves, 0));
            assert(g2_from(bl, 1, t2) == t2);
        }
    }
    let x1 = g1_from(vl + ll + bl, 0, s1);
    let x2 = g2_from(vl + ll + bl, 0, s2);
    assert(x1.1 == v);
    assert(x2.2 == sel_from(m, leaves, 0));
    lemma_g1_bsections(m, x1.0, x1.1);
    lemma_g2_bsections(m, m.len() as int, x2);
    let all = |a: int| is_leaf(m, a) || (a < m.len() && !is_leaf(m, a));
    lemma_sel_all(m, all, 0);
    assert(m.skip(0) =~= m);
}

// ── The annotations read back ───────────────────────────────────────────────

/// An annotation's name and argument.
pub open spec fn core_anns(anns: Seq<AnnModel>) -> Seq<(Seq<char>, ArgModel)> {
    anns.map_values(|a: AnnModel| (a.name, a.arg))
}

/// The annotation table by names and arguments.
pub open spec fn core_meta(meta: Seq<(Seq<char>, Seq<AnnModel>)>) -> Seq<(Seq<char>, Seq<(Seq<char>, ArgModel)>)> {
    meta.map_values(|e: (Seq<char>, Seq<AnnModel>)| (e.0, core_anns(e.1)))
}


proof fn lemma_find_map(meta: Seq<(Seq<char>, Seq<AnnModel>)>, k: Seq<char>, i: int)
    requires
        0 <= i,
    ensures
        dict_find_from(core_meta(meta), k, i) == dict_find_from(meta, k, i),
    decreases meta.len() - i,
{
    if i < meta.len() {
        assert(core_meta(meta)[i].0 == meta[i].0);
        lemma_find_map(meta, k, i + 1);
    }
}

proof fn lemma_core_put(meta: Seq<(Seq<char>, Seq<AnnModel>)>, k: Seq<char>, v: Seq<AnnModel>)
    ensures
        core_meta(crate::value::table_put(meta, k, v)) == crate::value::table_put(core_meta(meta), k, core_anns(v)),
{
    lemma_find_map(meta, k, 0);
    crate::value::lemma_dict_find_from_bound(meta, k, 0);
    let r = crate::value::table_put(meta, k, v);
    let cm = core_meta(meta);
    match dict_find_from(meta, k, 0) {
        Some(i) => {
            assert(r == meta.update(i, (k, v)));
            assert(crate::value::table_put(cm, k, core_anns(v)) == cm.update(i, (k, core_anns(v))));
            assert(core_meta(r) =~= cm.update(i, (k, core_anns(v))));
        },
        None => {
            assert(r == meta.push((k, v)));
            assert(crate::value::table_put(cm, k, core_anns(v)) == cm.push((k, core_anns(v))));
            assert(core_meta(r) =~= cm.push((k, core_anns(v))));
        },
    }
}

/// Pass 2 over written lines, for annotations: whether inside `[vars]`, the
/// current section, the annotations waiting for their key, and the table.
pub open spec fn step3(
    st: (bool, Seq<Seq<char>>, Seq<(Seq<char>, ArgModel)>, Seq<(Seq<char>, Seq<(Seq<char>, ArgModel)>)>),
    l: DLine,
) -> (bool, Seq<Seq<char>>, Seq<(Seq<char>, ArgModel)>, Seq<(Seq<char>, Seq<(Seq<char>, ArgModel)>)>) {
    match l {
        DLine::VarsHead => (true, st.1, st.2, st.3),
        DLine::Head(k) => (
            false,
            seq![k],
            Seq::empty(),
            if st.2.len() > 0 {
                crate::value::table_put(st.3, k, st.2)
            } else {
                st.3
            },
        ),
        DLine::Entry(k, v) => if st.0 {
            st
        } else {
            (
                false,
                st.1,
                Seq::empty(),
                if st.2.len() > 0 {
                    crate::value::table_put(st.3, crate::parser::full_key(st.1, k), st.2)
                } else {
                    st.3
                },
            )
        },
        DLine::Open(k) => if st.0 {
            st
        } else {
            (
                false,
                st.1,
                Seq::empty(),
                if st.2.len() > 0 {
                    crate::value::table_put(st.3, crate::parser::full_key(st.1, k), st.2)
                } else {
                    st.3
                },
            )
        },
        DLine::Ann(n, a) => if st.0 {
            st
        } else {
            (st.0, st.1, st.2.push((n, a)), st.3)
        },
        _ => st,
    }
}

/// Pass 2's state as the annotation model sees it: inside a block, the
/// block key's annotations already stand in the table.
pub open spec fn abs3(s: P2Model, d: DocModel) -> (
    bool,
    Seq<Seq<char>>,
    Seq<(Seq<char>, ArgModel)>,
    Seq<(Seq<char>, Seq<(Seq<char>, ArgModel)>)>,
) {
    if s.in_block {
        (
            s.in_vars,
            s.section,
            Seq::empty(),
            if s.block_snap.len() > 0 {
                crate::value::table_put(
                    core_meta(d.meta),
                    crate::parser::full_key(s.section, s.block_key),
                    core_anns(s.block_snap),
                )
            } else {
                core_meta(d.meta)
            },
        )
    } else {
        (s.in_vars, s.section, core_anns(s.pending), core_meta(d.meta))
    }
}

pub open spec fn g3_from(
    ls: Seq<DLine>,
    i: int,
    st: (bool, Seq<Seq<char>>, Seq<(Seq<char>, ArgModel)>, Seq<(Seq<char>, Seq<(Seq<char>, ArgModel)>)>),
) -> (bool, Seq<Seq<char>>, Seq<(Seq<char>, ArgModel)>, Seq<(Seq<char>, Seq<(Seq<char>, ArgModel)>)>)
    decreases ls.len() - i,
{
    if i < 0 || i >= ls.len() {
        st
    } else {
        g3_from(ls, i + 1, step3(st, ls[i]))
    }
}

proof fn lemma_g3_concat(
    a: Seq<DLine>,
    b: Seq<DLine>,
    i: int,
    st: (bool, Seq<Seq<char>>, Seq<(Seq<char>, ArgModel)>, Seq<(Seq<char>, Seq<(Seq<char>, ArgModel)>)>),
)
    requires
        0 <= i <= a.len(),
    ensures
        g3_from(a + b, i, st) == g3_from(b, 0, g3_from(a, i, st)),
    decreases a.len() - i,
{
    if i < a.len() {
        assert((a + b)[i] == a[i]);
        lemma_g3_concat(a, b, i + 1, step3(st, a[i]));
    } else {
        lemma_g3_shift(a, b, 0, st);
    }
}

proof fn lemma_g3_shift(
    a: Seq<DLine>,
    b: Seq<DLine>,
    j: int,
    st: (bool, Seq<Seq<char>>, Seq<(Seq<char>, ArgModel)>, Seq<(Seq<char>, Seq<(Seq<char>, ArgModel)>)>),
)
    requires
        0 <= j <= b.len(),
    ensures
        g3_from(a + b, a.len() + j, st) == g3_from(b, j, st),
    decreases b.len() - j,
{
    if j < b.len() {
        assert((a + b)[a.len() + j] == b[j]);
        lemma_g3_shift(a, b, j + 1, step3(st, b[j]));
    }
}

/// Pass 2 over the tokens of written lines, for annotations, is
/// [`g3_from`].
#[verifier::spinoff_prover]
proof fn lemma_p2_meta<E: Fn(&str) -> Option<String>, H: Fn(HostQuery) -> HostReply>(
    c: Ctx<E, H>,
    ls: Seq<DLine>,
    ts: Seq<TokModel>,
    i: int,
    s: P2Model,
    d: DocModel,
)
    requires
        forall|q: int| 0 <= q < ls.len() ==> dline_ok(c.host, #[trigger] ls[q]),
        ts.len() == ls.len(),
        forall|q: int| 0 <= q < ts.len() ==> tok_fits(c.host, #[trigger] ts[q], ls[q]),
        0 <= i <= ls.len(),
        closed_from(ls, i, s.in_vars, s.in_block),
        s.in_block ==> !s.in_vars && s.block_pending.len() == 0 && s.pending.len() == 0,
    ensures
        core_meta(p2_from(c, ts, i, s, d).meta) == g3_from(ls, i, abs3(s, d)).3,
    decreases ls.len() - i,
{
    if i < ls.len() {
        let t = ts[i];
        assert(tok_fits(c.host, t, ls[i]));
        assert(dline_ok(c.host, ls[i]));
        let st = crate::parser::p2_step(c, t, s, d);
        let g = step3(abs3(s, d), ls[i]);
        if s.in_block {
            match ls[i] {
                DLine::Inner(k, v) => {
                    assert(st.1.meta == d.meta);
                    assert(st.0.in_block && st.0.block_pending.len() == 0);
                    assert(st.0.block_snap == s.block_snap && st.0.section == s.section);
                    assert(st.0.block_key == s.block_key);
                    assert(g == abs3(s, d));
                    assert(st.0.in_vars == s.in_vars);
                    assert(st.0.pending == s.pending);
                    assert(abs3(st.0, st.1) == g);
                },
                DLine::Close => {
                    assert(!st.0.in_block);
                    assert(st.0.pending == s.pending);
                    assert(st.0.section == s.section);
                    if s.block_snap.len() > 0 {
                        lemma_core_put(d.meta, crate::parser::full_key(s.section, s.block_key), s.block_snap);
                    }
                    assert(core_anns(st.0.pending) =~= Seq::<(Seq<char>, ArgModel)>::empty());
                    assert(abs3(st.0, st.1) == g);
                },
                _ => {
                    assert(wf_end(ls, i, s.in_vars, s.in_block) is Some);
                    assert(wf_step(ls[i], s.in_vars, s.in_block) is None);
                },
            }
        } else {
        match ls[i] {
            DLine::Entry(k, v) => {
                if !s.in_vars {
                    let cv = crate::parser::with_vars(c, d.vars);
                    crate::roundtrip::law_written_value_reads_back(cv, t.value_span, v);
                    assert(sp_parse(cv, t.value_span, t.value).result == Ok::<ValueModel, crate::error::ErrModel>(v));
                    assert(st.0.pending == Seq::<AnnModel>::empty());
                    assert(core_anns(Seq::<AnnModel>::empty()) =~= Seq::<(Seq<char>, ArgModel)>::empty());
                    if s.pending.len() > 0 {
                        lemma_core_put(d.meta, crate::parser::full_key(s.section, k), s.pending);
                    }
                    assert(core_meta(st.1.meta) == g.3);
                } else {
                    assert(st == (s, d));
                }
            },
            DLine::Ann(n, a) => {
                if !s.in_vars {
                    crate::reannotate::law_annotation_reads_back(c.host, ann_of(n, a), crate::parser::ann_span(t));
                    let b = crate::annotation::sp_annotation(c.host, t.annotation_text, crate::parser::ann_span(t))->Ok_0;
                    assert(st.0.pending == s.pending.push(b));
                    assert(core_anns(s.pending.push(b)) =~= core_anns(s.pending).push((n, a)));
                    assert(st.1 == d);
                }
            },
            DLine::Head(k) => {
                lemma_section_path_bare(k);
                let path = crate::lexer::section_path(t.section);
                assert(path == seq![k]);
                assert(path[0].len() > 0);
                assert(!(exists|j: int| 0 <= j < path.len() && (#[trigger] path[j]).len() == 0));
                assert(crate::parser::join_dots(path) == k);
                assert(st.0.section == seq![k]);
                assert(st.0.in_vars == false);
                assert(st.0.pending == Seq::<AnnModel>::empty());
                assert(core_anns(Seq::<AnnModel>::empty()) =~= Seq::<(Seq<char>, ArgModel)>::empty());
                if s.pending.len() > 0 {
                    lemma_core_put(d.meta, k, s.pending);
                }
                assert(core_meta(st.1.meta) == g.3);
            },
            DLine::Open(k) => {
                assert(!s.in_vars);
                assert(st.0.in_block);
                assert(st.0.block_key == k);
                assert(st.0.block_snap == s.pending);
                assert(st.0.block_pending.len() == 0);
                assert(st.1 == d);
                assert(core_anns(s.pending).len() == s.pending.len());
            },
            _ => {},
        }
        assert(st.0.in_vars == g.0);
        assert(st.0.section == g.1);
        assert(abs3(st.0, st.1) == g);
        }
        assert(closed_from(ls, i + 1, st.0.in_vars, st.0.in_block));
        lemma_p2_meta(c, ls, ts, i + 1, st.0, st.1);
    }
}

/// The annotations of `q` as the table would hold them: none for a key
/// without any.
pub open spec fn want(meta: Seq<(Seq<char>, Seq<AnnModel>)>, q: Seq<char>) -> Option<Seq<(Seq<char>, ArgModel)>> {
    match crate::value::dict_get(meta, q) {
        Some(anns) => if anns.len() > 0 {
            Some(core_anns(anns))
        } else {
            None
        },
        None => None,
    }
}

/// The table holds [`want`] for the keys `p` picks, and nothing else.
pub open spec fn holds(
    t: Seq<(Seq<char>, Seq<(Seq<char>, ArgModel)>)>,
    p: spec_fn(Seq<char>) -> bool,
    meta: Seq<(Seq<char>, Seq<AnnModel>)>,
) -> bool {
    forall|q: Seq<char>| #[trigger] crate::value::dict_get(t, q) == if p(q) {
        want(meta, q)
    } else {
        None
    }
}

pub open spec fn pend_of(meta: Seq<(Seq<char>, Seq<AnnModel>)>, key: Seq<char>) -> Seq<(Seq<char>, ArgModel)> {
    match crate::value::dict_get(meta, key) {
        Some(anns) => core_anns(anns),
        None => Seq::empty(),
    }
}

/// A key's annotations, once waiting, are put under it.
proof fn lemma_holds_put(
    t: Seq<(Seq<char>, Seq<(Seq<char>, ArgModel)>)>,
    p: spec_fn(Seq<char>) -> bool,
    meta: Seq<(Seq<char>, Seq<AnnModel>)>,
    fq: Seq<char>,
)
    requires
        holds(t, p, meta),
    ensures
        holds(
            if pend_of(meta, fq).len() > 0 {
                crate::value::table_put(t, fq, pend_of(meta, fq))
            } else {
                t
            },
            |q: Seq<char>| q == fq || p(q),
            meta,
        ),
{
    let t2 = if pend_of(meta, fq).len() > 0 {
        crate::value::table_put(t, fq, pend_of(meta, fq))
    } else {
        t
    };
    assert forall|q: Seq<char>| #[trigger] crate::value::dict_get(t2, q) == if q == fq || p(q) {
        want(meta, q)
    } else {
        None
    } by {
        crate::value::law_table_put_get(t, fq, pend_of(meta, fq), q);
        assert(crate::value::dict_get(t, q) == if p(q) {
            want(meta, q)
        } else {
            None
        });
    }
}

proof fn lemma_holds_same(
    t: Seq<(Seq<char>, Seq<(Seq<char>, ArgModel)>)>,
    p1: spec_fn(Seq<char>) -> bool,
    p2: spec_fn(Seq<char>) -> bool,
    meta: Seq<(Seq<char>, Seq<AnnModel>)>,
)
    requires
        holds(t, p1, meta),
        forall|q: Seq<char>| #[trigger] p1(q) == p2(q),
    ensures
        holds(t, p2, meta),
{
    assert forall|q: Seq<char>| #[trigger] crate::value::dict_get(t, q) == if p2(q) {
        want(meta, q)
    } else {
        None
    } by {
        assert(p1(q) == p2(q));
    }
}

proof fn lemma_g3_anns(
    anns: Seq<AnnModel>,
    sec: Seq<Seq<char>>,
    pend: Seq<(Seq<char>, ArgModel)>,
    t: Seq<(Seq<char>, Seq<(Seq<char>, ArgModel)>)>,
)
    ensures
        g3_from(ann_lines(anns), 0, (false, sec, pend, t)) == (false, sec, pend + core_anns(anns), t),
        g3_from(ann_lines(anns), 0, (true, sec, pend, t)) == (true, sec, pend, t),
    decreases anns.len(),
{
    if anns.len() == 0 {
        assert(pend + core_anns(anns) =~= pend);
    } else {
        let a = anns.drop_last();
        lemma_g3_anns(a, sec, pend, t);
        let l = DLine::Ann(anns.last().name, anns.last().arg);
        assert(ann_lines(anns) =~= ann_lines(a) + seq![l]);
        lemma_g3_concat(ann_lines(a), seq![l], 0, (false, sec, pend, t));
        lemma_g3_concat(ann_lines(a), seq![l], 0, (true, sec, pend, t));
        let x = (false, sec, pend + core_anns(a), t);
        assert(g3_from(seq![l], 1, step3(x, l)) == step3(x, l));
        assert((pend + core_anns(a)).push((anns.last().name, anns.last().arg)) =~= pend + core_anns(anns));
        let y = (true, sec, pend, t);
        assert(g3_from(seq![l], 1, y) == y);
    }
}

proof fn lemma_g3_meta_lines(
    meta: Seq<(Seq<char>, Seq<AnnModel>)>,
    key: Seq<char>,
    sec: Seq<Seq<char>>,
    t: Seq<(Seq<char>, Seq<(Seq<char>, ArgModel)>)>,
)
    ensures
        g3_from(meta_lines(meta, key), 0, (false, sec, Seq::empty(), t)) == (false, sec, pend_of(meta, key), t),
        g3_from(meta_lines(meta, key), 0, (true, sec, Seq::empty(), t)) == (true, sec, Seq::<(Seq<char>, ArgModel)>::empty(), t),
{
    match crate::value::dict_get(meta, key) {
        Some(anns) => {
            lemma_g3_anns(anns, sec, Seq::empty(), t);
            assert(Seq::<(Seq<char>, ArgModel)>::empty() + core_anns(anns) =~= core_anns(anns));
        },
        None => {},
    }
}

pub open spec fn leaf_done(m: Seq<(Seq<char>, ValueModel)>, n: int, q: Seq<char>) -> bool {
    exists|i: int| 0 <= i < n && is_leaf(m, i) && #[trigger] m[i].0 == q
}

/// The top-level entries, read in order, put their annotations.
proof fn lemma_g3_leaves(meta: Seq<(Seq<char>, Seq<AnnModel>)>, m: Seq<(Seq<char>, ValueModel)>, n: int)
    requires
        0 <= n <= m.len(),
    ensures
        ({
            let r = g3_from(leaf_lines_m(meta, m.take(n)), 0, (false, Seq::empty(), Seq::empty(), Seq::empty()));
            &&& r.0 == false
            &&& r.1 == Seq::<Seq<char>>::empty()
            &&& r.2 == Seq::<(Seq<char>, ArgModel)>::empty()
            &&& holds(r.3, |q: Seq<char>| leaf_done(m, n, q), meta)
        }),
    decreases n,
{
    let st0 = (
        false,
        Seq::<Seq<char>>::empty(),
        Seq::<(Seq<char>, ArgModel)>::empty(),
        Seq::<(Seq<char>, Seq<(Seq<char>, ArgModel)>)>::empty(),
    );
    if n == 0 {
        assert(m.take(0) =~= Seq::<(Seq<char>, ValueModel)>::empty());
        assert(holds(st0.3, |q: Seq<char>| leaf_done(m, 0, q), meta));
    } else {
        let r0 = n - 1;
        lemma_g3_leaves(meta, m, r0);
        let mt = m.take(n);
        assert(mt.drop_last() =~= m.take(r0));
        assert(mt.last() == m[r0]);
        let prev = g3_from(leaf_lines_m(meta, m.take(r0)), 0, st0);
        let k = m[r0].0;
        if is_leaf(m, r0) {
            let x = meta_lines(meta, k) + seq![DLine::Entry(k, m[r0].1)];
            assert(leaf_lines_m(meta, mt) == leaf_lines_m(meta, m.take(r0)) + x);
            lemma_g3_concat(leaf_lines_m(meta, m.take(r0)), x, 0, st0);
            lemma_g3_concat(meta_lines(meta, k), seq![DLine::Entry(k, m[r0].1)], 0, prev);
            lemma_g3_meta_lines(meta, k, Seq::empty(), prev.3);
            let y = (false, Seq::<Seq<char>>::empty(), pend_of(meta, k), prev.3);
            let e = DLine::Entry(k, m[r0].1);
            assert(g3_from(seq![e], 1, step3(y, e)) == step3(y, e));
            assert(crate::parser::full_key(Seq::empty(), k) == k);
            lemma_holds_put(prev.3, |q: Seq<char>| leaf_done(m, r0, q), meta, k);
            assert forall|q: Seq<char>| (q == k || leaf_done(m, r0, q)) == #[trigger] leaf_done(m, n, q) by {
                if q == k {
                    assert(m[r0].0 == q);
                }
                if leaf_done(m, n, q) && q != k {
                    let i = choose|i: int| 0 <= i < n && is_leaf(m, i) && #[trigger] m[i].0 == q;
                    assert(i != r0);
                    assert(leaf_done(m, r0, q));
                }
                if leaf_done(m, r0, q) {
                    let i = choose|i: int| 0 <= i < r0 && is_leaf(m, i) && #[trigger] m[i].0 == q;
                    assert(leaf_done(m, n, q));
                }
            }
            lemma_holds_same(step3(y, e).3, |q: Seq<char>| q == k || leaf_done(m, r0, q), |q: Seq<char>| leaf_done(m, n, q), meta);
        } else {
            assert(leaf_lines_m(meta, mt) =~= leaf_lines_m(meta, m.take(r0)));
            assert forall|q: Seq<char>| #[trigger] leaf_done(m, r0, q) == leaf_done(m, n, q) by {
                if leaf_done(m, n, q) {
                    let i = choose|i: int| 0 <= i < n && is_leaf(m, i) && #[trigger] m[i].0 == q;
                    assert(i != r0);
                    assert(leaf_done(m, r0, q));
                }
                if leaf_done(m, r0, q) {
                    let i = choose|i: int| 0 <= i < r0 && is_leaf(m, i) && #[trigger] m[i].0 == q;
                    assert(leaf_done(m, n, q));
                }
            }
            lemma_holds_same(prev.3, |q: Seq<char>| leaf_done(m, r0, q), |q: Seq<char>| leaf_done(m, n, q), meta);
        }
    }
}

/// `q` is the section key `k` or the path of one of its entries.
pub open spec fn block_has(k: Seq<char>, sub: Seq<(Seq<char>, ValueModel)>, q: Seq<char>) -> bool {
    q == k || exists|t: int| 0 <= t < sub.len() && q == k + "."@ + (#[trigger] sub[t]).0
}

pub open spec fn entries_upto(k: Seq<char>, sub: Seq<(Seq<char>, ValueModel)>, r: int, q: Seq<char>) -> bool {
    exists|t: int| 0 <= t < r && q == k + "."@ + (#[trigger] sub[t]).0
}

pub open spec fn sec_done(m: Seq<(Seq<char>, ValueModel)>, n: int, q: Seq<char>) -> bool {
    exists|j: int|
        #![trigger m[j]]
        0 <= j < n && m[j].1 is Dict && block_has(m[j].0, m[j].1->Dict_0, q)
}

/// The first section of the document.
pub open spec fn first_dict(m: Seq<(Seq<char>, ValueModel)>, j: int) -> bool {
    0 <= j < m.len() && m[j].1 is Dict && forall|i: int| 0 <= i < j ==> !(#[trigger] m[i].1 is Dict)
}

proof fn lemma_holds_none(
    t: Seq<(Seq<char>, Seq<(Seq<char>, ArgModel)>)>,
    p: spec_fn(Seq<char>) -> bool,
    meta: Seq<(Seq<char>, Seq<AnnModel>)>,
    fq: Seq<char>,
)
    requires
        holds(t, p, meta),
        want(meta, fq) is None,
    ensures
        holds(t, |q: Seq<char>| q == fq || p(q), meta),
{
    assert forall|q: Seq<char>| #[trigger] crate::value::dict_get(t, q) == if q == fq || p(q) {
        want(meta, q)
    } else {
        None
    } by {
        assert(crate::value::dict_get(t, q) == if p(q) {
            want(meta, q)
        } else {
            None
        });
    }
}

proof fn lemma_g3_entries(
    meta: Seq<(Seq<char>, Seq<AnnModel>)>,
    k: Seq<char>,
    sub: Seq<(Seq<char>, ValueModel)>,
    r: int,
    t0: Seq<(Seq<char>, Seq<(Seq<char>, ArgModel)>)>,
    p: spec_fn(Seq<char>) -> bool,
)
    requires
        holds(t0, p, meta),
        0 <= r <= sub.len(),
    ensures
        ({
            let x = g3_from(sec_entry_lines_m(meta, k, sub.take(r)), 0, (false, seq![k], Seq::empty(), t0));
            &&& x.0 == false
            &&& x.1 == seq![k]
            &&& x.2 == Seq::<(Seq<char>, ArgModel)>::empty()
            &&& holds(x.3, |q: Seq<char>| p(q) || entries_upto(k, sub, r, q), meta)
        }),
    decreases r,
{
    let st0 = (false, seq![k], Seq::<(Seq<char>, ArgModel)>::empty(), t0);
    if r == 0 {
        assert(sub.take(0) =~= Seq::<(Seq<char>, ValueModel)>::empty());
        lemma_holds_same(t0, p, |q: Seq<char>| p(q) || entries_upto(k, sub, 0, q), meta);
    } else {
        let r0 = r - 1;
        lemma_g3_entries(meta, k, sub, r0, t0, p);
        let st = sub.take(r);
        assert(st.drop_last() =~= sub.take(r0));
        assert(st.last() == sub[r0]);
        let kk = sub[r0].0;
        let fq = k + "."@ + kk;
        let e = DLine::Entry(kk, sub[r0].1);
        let prev = g3_from(sec_entry_lines_m(meta, k, sub.take(r0)), 0, st0);
        let ml = meta_lines(meta, fq);
        assert(sec_entry_lines_m(meta, k, st) == sec_entry_lines_m(meta, k, sub.take(r0)) + ml + seq![e]);
        lemma_g3_concat(sec_entry_lines_m(meta, k, sub.take(r0)) + ml, seq![e], 0, st0);
        lemma_g3_concat(sec_entry_lines_m(meta, k, sub.take(r0)), ml, 0, st0);
        lemma_g3_meta_lines(meta, fq, seq![k], prev.3);
        let y = (false, seq![k], pend_of(meta, fq), prev.3);
        assert(g3_from(seq![e], 1, step3(y, e)) == step3(y, e));
        reveal_strlit(".");
        assert(seq![k].drop_last() =~= Seq::<Seq<char>>::empty());
        assert(crate::parser::join_dots(seq![k]) == k);
        assert(crate::parser::full_key(seq![k], kk) == fq);
        let p0 = |q: Seq<char>| p(q) || entries_upto(k, sub, r0, q);
        lemma_holds_put(prev.3, p0, meta, fq);
        assert forall|q: Seq<char>| #![trigger entries_upto(k, sub, r, q)] (q == fq || p0(q)) == (p(q) || entries_upto(k, sub, r, q)) by {
            if q == fq {
                assert(q == k + "."@ + sub[r0].0);
            }
            if entries_upto(k, sub, r, q) && q != fq {
                let t = choose|t: int| 0 <= t < r && q == k + "."@ + (#[trigger] sub[t]).0;
                assert(t != r0);
                assert(entries_upto(k, sub, r0, q));
            }
            if entries_upto(k, sub, r0, q) {
                let t = choose|t: int| 0 <= t < r0 && q == k + "."@ + (#[trigger] sub[t]).0;
                assert(entries_upto(k, sub, r, q));
            }
        }
        lemma_holds_same(step3(y, e).3, |q: Seq<char>| q == fq || p0(q), |q: Seq<char>| p(q) || entries_upto(k, sub, r, q), meta);
    }
}

/// A section's lines put its annotations and its entries'.
#[verifier::spinoff_prover]
proof fn lemma_g3_block(
    meta: Seq<(Seq<char>, Seq<AnnModel>)>,
    k: Seq<char>,
    sub: Seq<(Seq<char>, ValueModel)>,
    iv: bool,
    sec: Seq<Seq<char>>,
    t0: Seq<(Seq<char>, Seq<(Seq<char>, ArgModel)>)>,
    p: spec_fn(Seq<char>) -> bool,
)
    requires
        holds(t0, p, meta),
        iv ==> want(meta, k) is None,
    ensures
        ({
            let x = g3_from(block_lines_m(meta, k, sub), 0, (iv, sec, Seq::empty(), t0));
            &&& x.0 == false
            &&& x.1 == seq![k]
            &&& x.2 == Seq::<(Seq<char>, ArgModel)>::empty()
            &&& holds(x.3, |q: Seq<char>| p(q) || block_has(k, sub, q), meta)
        }),
{
    let st0 = (iv, sec, Seq::<(Seq<char>, ArgModel)>::empty(), t0);
    let ml = meta_lines(meta, k);
    let hd = seq![DLine::Head(k)];
    let el = sec_entry_lines_m(meta, k, sub);
    let bl = seq![DLine::Blank];
    lemma_g3_concat(ml + hd + el, bl, 0, st0);
    lemma_g3_concat(ml + hd, el, 0, st0);
    lemma_g3_concat(ml, hd, 0, st0);
    lemma_g3_meta_lines(meta, k, sec, t0);
    let a = g3_from(ml, 0, st0);
    let h1 = step3(a, DLine::Head(k));
    assert(g3_from(hd, 1, h1) == h1);
    let pk = |q: Seq<char>| q == k || p(q);
    if iv {
        assert(a.2.len() == 0);
        assert(h1.3 == t0);
        lemma_holds_none(t0, p, meta, k);
    } else {
        assert(a.2 == pend_of(meta, k));
        lemma_holds_put(t0, p, meta, k);
    }
    assert(h1 == (false, seq![k], Seq::<(Seq<char>, ArgModel)>::empty(), h1.3));
    lemma_g3_entries(meta, k, sub, sub.len() as int, h1.3, pk);
    assert(sub.take(sub.len() as int) =~= sub);
    let x2 = g3_from(el, 0, h1);
    assert(g3_from(bl, 1, x2) == x2);
    assert forall|q: Seq<char>| #![trigger block_has(k, sub, q)] (pk(q) || entries_upto(k, sub, sub.len() as int, q)) == (p(q) || block_has(k, sub, q)) by {
        if entries_upto(k, sub, sub.len() as int, q) {
            let t = choose|t: int| 0 <= t < sub.len() && q == k + "."@ + (#[trigger] sub[t]).0;
            assert(block_has(k, sub, q));
        }
        if block_has(k, sub, q) && q != k {
            let t = choose|t: int| 0 <= t < sub.len() && q == k + "."@ + (#[trigger] sub[t]).0;
            assert(entries_upto(k, sub, sub.len() as int, q));
        }
    }
    lemma_holds_same(
        x2.3,
        |q: Seq<char>| pk(q) || entries_upto(k, sub, sub.len() as int, q),
        |q: Seq<char>| p(q) || block_has(k, sub, q),
        meta,
    );
}

/// The sections, read in order, put their annotations.
#[verifier::spinoff_prover]
proof fn lemma_g3_sections(
    meta: Seq<(Seq<char>, Seq<AnnModel>)>,
    m: Seq<(Seq<char>, ValueModel)>,
    n: int,
    st: (bool, Seq<Seq<char>>, Seq<(Seq<char>, ArgModel)>, Seq<(Seq<char>, Seq<(Seq<char>, ArgModel)>)>),
    p: spec_fn(Seq<char>) -> bool,
)
    requires
        0 <= n <= m.len(),
        st.2.len() == 0,
        holds(st.3, p, meta),
        st.0 ==> forall|j: int| #[trigger] first_dict(m, j) ==> want(meta, m[j].0) is None,
    ensures
        ({
            let x = g3_from(sec_lines_m(meta, m.take(n)), 0, st);
            &&& x.2.len() == 0
            &&& holds(x.3, |q: Seq<char>| p(q) || sec_done(m, n, q), meta)
            &&& x.0 ==> st.0 && forall|i: int| 0 <= i < n ==> !(#[trigger] m[i].1 is Dict)
        }),
    decreases n,
{
    if n == 0 {
        assert(m.take(0) =~= Seq::<(Seq<char>, ValueModel)>::empty());
        lemma_holds_same(st.3, p, |q: Seq<char>| p(q) || sec_done(m, 0, q), meta);
    } else {
        let r = n - 1;
        lemma_g3_sections(meta, m, r, st, p);
        let pr = |q: Seq<char>| p(q) || sec_done(m, r, q);
        let mt = m.take(n);
        assert(mt.drop_last() =~= m.take(r));
        assert(mt.last() == m[r]);
        let x = g3_from(sec_lines_m(meta, m.take(r)), 0, st);
        match m[r].1 {
            ValueModel::Dict(sub) => {
                let k = m[r].0;
                let b = block_lines_m(meta, k, sub);
                assert(sec_lines_m(meta, mt) == sec_lines_m(meta, m.take(r)) + b);
                lemma_g3_concat(sec_lines_m(meta, m.take(r)), b, 0, st);
                if x.0 {
                    assert(first_dict(m, r));
                }
                assert(x == (x.0, x.1, Seq::<(Seq<char>, ArgModel)>::empty(), x.3));
                lemma_g3_block(meta, k, sub, x.0, x.1, x.3, pr);
                assert forall|q: Seq<char>| #![trigger sec_done(m, n, q)] (pr(q) || block_has(k, sub, q)) == (p(q) || sec_done(m, n, q)) by {
                    if block_has(k, sub, q) {
                        assert(m[r].1 is Dict && block_has(m[r].0, m[r].1->Dict_0, q));
                        assert(sec_done(m, n, q));
                    }
                    if sec_done(m, r, q) {
                        let j = choose|j: int|
                            #![trigger m[j]]
                            0 <= j < r && m[j].1 is Dict && block_has(m[j].0, m[j].1->Dict_0, q);
                        assert(sec_done(m, n, q));
                    }
                    if sec_done(m, n, q) && !block_has(k, sub, q) {
                        let j = choose|j: int|
                            #![trigger m[j]]
                            0 <= j < n && m[j].1 is Dict && block_has(m[j].0, m[j].1->Dict_0, q);
                        assert(j != r);
                        assert(sec_done(m, r, q));
                    }
                }
                let y = g3_from(b, 0, x);
                lemma_holds_same(y.3, |q: Seq<char>| pr(q) || block_has(k, sub, q), |q: Seq<char>| p(q) || sec_done(m, n, q), meta);
            },
            _ => {
                assert(sec_lines_m(meta, mt) =~= sec_lines_m(meta, m.take(r)));
                assert forall|q: Seq<char>| #![trigger sec_done(m, n, q)] pr(q) == (p(q) || sec_done(m, n, q)) by {
                    if sec_done(m, r, q) {
                        let j = choose|j: int|
                            #![trigger m[j]]
                            0 <= j < r && m[j].1 is Dict && block_has(m[j].0, m[j].1->Dict_0, q);
                        assert(sec_done(m, n, q));
                    }
                    if sec_done(m, n, q) {
                        let j = choose|j: int|
                            #![trigger m[j]]
                            0 <= j < n && m[j].1 is Dict && block_has(m[j].0, m[j].1->Dict_0, q);
                        assert(j != r);
                        assert(sec_done(m, r, q));
                    }
                }
                lemma_holds_same(x.3, pr, |q: Seq<char>| p(q) || sec_done(m, n, q), meta);
            },
        }
    }
}

/// An annotation that reads back once written on its own line.
pub open spec fn ann_ok<H: Fn(HostQuery) -> HostReply>(h: H, a: AnnModel) -> bool {
    ann_name(a.name) && arg_reads_back(h, a.arg) && ann_line_ok(h, a.name, a.arg)
}

pub open spec fn meta_ok<H: Fn(HostQuery) -> HostReply>(h: H, meta: Seq<(Seq<char>, Seq<AnnModel>)>) -> bool {
    forall|j: int, t: int| 0 <= j < meta.len() && 0 <= t < meta[j].1.len() ==> ann_ok(h, #[trigger] meta[j].1[t])
}

proof fn lemma_meta_lines_ok<H: Fn(HostQuery) -> HostReply>(h: H, meta: Seq<(Seq<char>, Seq<AnnModel>)>, key: Seq<char>)
    requires
        meta_ok(h, meta),
    ensures
        forall|q: int| 0 <= q < meta_lines(meta, key).len() ==> plain_ok(h, #[trigger] meta_lines(meta, key)[q]),
{
    crate::value::lemma_dict_find_from_bound(meta, key, 0);
    match crate::value::dict_find_from(meta, key, 0) {
        Some(j) => {
            let anns = meta[j].1;
            assert forall|t: int| 0 <= t < anns.len() implies ann_ok(h, #[trigger] anns[t]) by {
                assert(ann_ok(h, meta[j].1[t]));
            }
            lemma_ann_lines_ok(h, anns);
        },
        None => {},
    }
}

proof fn lemma_ann_lines_ok<H: Fn(HostQuery) -> HostReply>(h: H, anns: Seq<AnnModel>)
    requires
        forall|t: int| 0 <= t < anns.len() ==> ann_ok(h, #[trigger] anns[t]),
    ensures
        forall|q: int| 0 <= q < ann_lines(anns).len() ==> plain_ok(h, #[trigger] ann_lines(anns)[q]),
    decreases anns.len(),
{
    if anns.len() > 0 {
        let a = anns.drop_last();
        assert forall|t: int| 0 <= t < a.len() implies ann_ok(h, #[trigger] a[t]) by {
            assert(a[t] == anns[t]);
        }
        lemma_ann_lines_ok(h, a);
        assert(ann_ok(h, anns[anns.len() - 1]));
        let l = ann_lines(anns);
        assert forall|q: int| 0 <= q < l.len() implies plain_ok(h, #[trigger] l[q]) by {
            if q < l.len() - 1 {
                assert(l[q] == ann_lines(a)[q]);
            }
        }
    }
}

/// What the dumper writes of a document parses back to the same variables
/// and configuration, with no diagnostic, when its variables and top-level
/// entries are scalars that read back, or lists of them, under bare keys;
/// its dicts are `[section]`s (none named `vars`) of such entries and of
/// dicts of such entries, which the dumper writes as `key = #{ … }#`
/// blocks; its annotations read back on their own lines and none stands on
/// a key inside a block; and it does not have both variables and top-level
/// entries that are not sections (those would be read as more variables,
/// the `[vars]` block running on to the first section).
#[verifier::spinoff_prover]
pub proof fn law_document_reads_back<E: Fn(&str) -> Option<String>, H: Fn(HostQuery) -> HostReply>(
    c: Ctx<E, H>,
    d: DocModel,
)
    requires
        flat_config(d.vars),
        block_config(d.config),
        meta_ok(c.host, d.meta),
        config_free(d.meta, d.config),
        d.vars.len() == 0 || !crate::dumper::has_leaf(d.config),
    ensures
        crate::parser::sp_document(c, crate::dumper::sp_dumps(c.host, d)).config == d.config,
        crate::parser::sp_document(c, crate::dumper::sp_dumps(c.host, d)).vars == d.vars,
        crate::parser::sp_document(c, crate::dumper::sp_dumps(c.host, d)).diagnostics.len() == 0,
{
    let h = c.host;
    lemma_dumps_blines(h, d);
    lemma_passes_ball(d);
    lemma_ball_ok(h, d);
    lemma_wf_ball(d);
    let ls = ball_lines_m(d);
    let s1 = (false, Seq::<(Seq<char>, ValueModel)>::empty());
    let s2 = (false, Seq::<Seq<char>>::empty(), Seq::<(Seq<char>, ValueModel)>::empty());
    lemma_strip_ball(d);
    lemma_passes_strip(ls, s1, s2);
    lemma_trail(h, ls, s1, s2);
    lemma_wf_trail(ls);
    let tl = trail(ls);
    let lines = if tl.len() > 0 {
        tl
    } else {
        seq![DLine::Blank]
    };
    assert(g1_from(lines, 0, s1) == g1_from(ls, 0, s1)) by {
        if tl.len() == 0 {
            assert(g1_from(seq![DLine::Blank], 1, s1) == s1);
        }
    }
    assert(g2_from(lines, 0, s2) == g2_from(ls, 0, s2)) by {
        if tl.len() == 0 {
            assert(g2_from(seq![DLine::Blank], 1, s2) == s2);
        }
    }
    assert forall|q: int| 0 <= q < lines.len() implies dline_ok(h, #[trigger] lines[q]) by {
        if tl.len() > 0 {
            assert(lines[q] == ls[q]);
        }
    }
    assert(closed_from(lines, 0, false, false)) by {
        if tl.len() == 0 {
            lemma_wf_one(DLine::Blank, false, false);
        }
    }
    let text = crate::dumper::sp_dumps(h, d);
    assert(text == dtext(h, lines)) by {
        if tl.len() == 0 {
            lemma_dtext_one(h, DLine::Blank);
        }
    }
    lemma_tokens_dtext(h, lines);
    let ts = crate::lexer::tokens_of(text);
    let e = crate::parser::empty_doc();
    lemma_p1_lines(c, lines, ts, 0, false, e);
    let d1 = p1_from(c, ts, 0, false, e);
    assert(e.vars =~= Seq::<(Seq<char>, ValueModel)>::empty());
    lemma_p2_lines(c, lines, ts, 0, crate::parser::p2_init(), d1);
    assert(abs2(crate::parser::p2_init(), d1) == s2);
}

proof fn lemma_g3_skip_entries(
    v: Seq<(Seq<char>, ValueModel)>,
    st: (bool, Seq<Seq<char>>, Seq<(Seq<char>, ArgModel)>, Seq<(Seq<char>, Seq<(Seq<char>, ArgModel)>)>),
)
    requires
        st.0,
    ensures
        g3_from(entry_lines(v), 0, st) == st,
    decreases v.len(),
{
    if v.len() > 0 {
        let a = v.drop_last();
        lemma_g3_skip_entries(a, st);
        let e = DLine::Entry(v.last().0, v.last().1);
        assert(entry_lines(v) =~= entry_lines(a) + seq![e]);
        lemma_g3_concat(entry_lines(a), seq![e], 0, st);
        assert(g3_from(seq![e], 1, st) == st);
    }
}

proof fn lemma_no_leaf_lines_m(meta: Seq<(Seq<char>, Seq<AnnModel>)>, m: Seq<(Seq<char>, ValueModel)>)
    requires
        !crate::dumper::has_leaf(m),
    ensures
        leaf_lines_m(meta, m) == Seq::<DLine>::empty(),
    decreases m.len(),
{
    if m.len() > 0 {
        let a = m.drop_last();
        assert(!crate::dumper::has_leaf(a)) by {
            if crate::dumper::has_leaf(a) {
                let i = choose|i: int| 0 <= i < a.len() && !((#[trigger] a[i]).1 is Dict);
                assert(a[i] == m[i]);
            }
        }
        lemma_no_leaf_lines_m(meta, a);
        assert(m.last().1 is Dict) by {
            if !(m.last().1 is Dict) {
                assert(!(m[m.len() - 1].1 is Dict));
            }
        }
    }
}

proof fn lemma_trail3(
    ls: Seq<DLine>,
    st: (bool, Seq<Seq<char>>, Seq<(Seq<char>, ArgModel)>, Seq<(Seq<char>, Seq<(Seq<char>, ArgModel)>)>),
)
    ensures
        g3_from(trail(ls), 0, st) == g3_from(ls, 0, st),
    decreases ls.len(),
{
    if ls.len() > 0 && ls.last() is Blank {
        let a = ls.drop_last();
        lemma_trail3(a, st);
        assert(ls =~= a + seq![ls.last()]);
        lemma_g3_concat(a, seq![ls.last()], 0, st);
        let x = g3_from(a, 0, st);
        assert(g3_from(seq![ls.last()], 1, x) == x);
    }
}

/// A path the dumper writes annotations for: a top-level entry, a
/// section, or an entry of a section.
pub open spec fn written_path(m: Seq<(Seq<char>, ValueModel)>, q: Seq<char>) -> bool {
    leaf_done(m, m.len() as int, q) || sec_done(m, m.len() as int, q)
}

/// The annotation pass over every line of the document puts, under each
/// written path, that path's annotations, and nothing under any other key.
#[verifier::spinoff_prover]
proof fn lemma_g3_all(d: DocModel)
    requires
        d.vars.len() == 0 || !crate::dumper::has_leaf(d.config),
        d.vars.len() > 0 ==> forall|j: int| #[trigger] first_dict(d.config, j) ==> want(d.meta, d.config[j].0) is None,
    ensures
        holds(
            g3_from(all_lines_m(d), 0, (false, Seq::empty(), Seq::empty(), Seq::empty())).3,
            |q: Seq<char>| written_path(d.config, q),
            d.meta,
        ),
{
    let m = d.config;
    let meta = d.meta;
    let v = d.vars;
    let vl = vars_lines(v);
    let ll = leaf_lines_m(meta, m);
    let bl = if crate::dumper::has_leaf(m) {
        seq![DLine::Blank]
    } else {
        Seq::<DLine>::empty()
    };
    let sl = sec_lines_m(meta, m);
    let s0 = (
        false,
        Seq::<Seq<char>>::empty(),
        Seq::<(Seq<char>, ArgModel)>::empty(),
        Seq::<(Seq<char>, Seq<(Seq<char>, ArgModel)>)>::empty(),
    );
    lemma_g3_concat(vl + ll + bl, sl, 0, s0);
    lemma_g3_concat(vl + ll, bl, 0, s0);
    lemma_g3_concat(vl, ll, 0, s0);
    let sv = (
        v.len() > 0,
        Seq::<Seq<char>>::empty(),
        Seq::<(Seq<char>, ArgModel)>::empty(),
        Seq::<(Seq<char>, Seq<(Seq<char>, ArgModel)>)>::empty(),
    );
    if v.len() > 0 {
        let vh = seq![DLine::VarsHead];
        let el = entry_lines(v);
        let b1 = seq![DLine::Blank];
        lemma_g3_concat(vh + el, b1, 0, s0);
        lemma_g3_concat(vh, el, 0, s0);
        assert(g3_from(vh, 1, sv) == sv);
        lemma_g3_skip_entries(v, sv);
        assert(g3_from(b1, 1, sv) == sv);
    }
    assert(g3_from(vl, 0, s0) == sv);
    let p = |q: Seq<char>| leaf_done(m, m.len() as int, q);
    let x = g3_from(vl + ll + bl, 0, s0);
    if v.len() > 0 {
        lemma_no_leaf_lines_m(meta, m);
        assert(bl.len() == 0);
        assert(x == sv);
        assert forall|q: Seq<char>| #[trigger] crate::value::dict_get(x.3, q) == if p(q) {
            want(meta, q)
        } else {
            None
        } by {
            if leaf_done(m, m.len() as int, q) {
                let i = choose|i: int| 0 <= i < m.len() && is_leaf(m, i) && #[trigger] m[i].0 == q;
                assert(crate::dumper::has_leaf(m));
            }
        }
    } else {
        lemma_g3_leaves(meta, m, m.len() as int);
        assert(m.take(m.len() as int) =~= m);
        let y = g3_from(ll, 0, s0);
        if bl.len() > 0 {
            assert(g3_from(bl, 1, y) == y);
        }
        assert(x == y);
    }
    assert(holds(x.3, p, meta));
    assert(x.2.len() == 0);
    lemma_g3_sections(meta, m, m.len() as int, x, p);
    assert(m.take(m.len() as int) =~= m);
    let r = g3_from(sl, 0, x);
    lemma_holds_same(
        r.3,
        |q: Seq<char>| p(q) || sec_done(m, m.len() as int, q),
        |q: Seq<char>| written_path(m, q),
        meta,
    );
}

// ── Annotations of documents with block dicts ───────────────────────────────

type G3 = (bool, Seq<Seq<char>>, Seq<(Seq<char>, ArgModel)>, Seq<(Seq<char>, Seq<(Seq<char>, ArgModel)>)>);

proof fn lemma_g3_inner(m: Seq<(Seq<char>, ValueModel)>, st: G3)
    ensures
        g3_from(inner_lines(m), 0, st) == st,
    decreases m.len(),
{
    if m.len() > 0 {
        let a = m.drop_last();
        lemma_g3_inner(a, st);
        let l = DLine::Inner(m.last().0, m.last().1);
        assert(inner_lines(m) == inner_lines(a) + seq![l]);
        lemma_g3_concat(inner_lines(a), seq![l], 0, st);
        assert(g3_from(seq![l], 1, st) == st);
    }
}

/// A block dict's lines leave the annotation pass where its one entry line
/// would.
proof fn lemma_g3_entry_block(k: Seq<char>, v: ValueModel, st: G3)
    ensures
        g3_from(entry_block(k, v), 0, st) == g3_from(seq![DLine::Entry(k, v)], 0, st),
{
    let e = seq![DLine::Entry(k, v)];
    assert(g3_from(e, 1, step3(st, DLine::Entry(k, v))) == step3(st, DLine::Entry(k, v)));
    match v {
        ValueModel::Dict(inner) => {
            let o = seq![DLine::Open(k)];
            let c = seq![DLine::Close];
            let il = inner_lines(inner);
            assert(entry_block(k, v) == o + il + c);
            lemma_g3_concat(o + il, c, 0, st);
            lemma_g3_concat(o, il, 0, st);
            let x = step3(st, DLine::Open(k));
            assert(g3_from(o, 1, x) == x);
            lemma_g3_inner(inner, x);
            assert(g3_from(c, 1, x) == x);
        },
        _ => {},
    }
}

proof fn lemma_g3_body(meta: Seq<(Seq<char>, Seq<AnnModel>)>, sec: Seq<char>, m: Seq<(Seq<char>, ValueModel)>, st: G3)
    ensures
        g3_from(body_lines_m(meta, sec, m), 0, st) == g3_from(sec_entry_lines_m(meta, sec, m), 0, st),
    decreases m.len(),
{
    if m.len() > 0 {
        let a = m.drop_last();
        lemma_g3_body(meta, sec, a, st);
        let ml = meta_lines(meta, sec + "."@ + m.last().0);
        let eb = entry_block(m.last().0, m.last().1);
        let el = seq![DLine::Entry(m.last().0, m.last().1)];
        let ba = body_lines_m(meta, sec, a);
        let sa = sec_entry_lines_m(meta, sec, a);
        lemma_g3_concat(ba + ml, eb, 0, st);
        lemma_g3_concat(ba, ml, 0, st);
        lemma_g3_concat(sa + ml, el, 0, st);
        lemma_g3_concat(sa, ml, 0, st);
        let x = g3_from(ml, 0, g3_from(ba, 0, st));
        lemma_g3_entry_block(m.last().0, m.last().1, x);
    }
}

proof fn lemma_g3_bsec(meta: Seq<(Seq<char>, Seq<AnnModel>)>, m: Seq<(Seq<char>, ValueModel)>, st: G3)
    ensures
        g3_from(bsec_lines_m(meta, m), 0, st) == g3_from(sec_lines_m(meta, m), 0, st),
    decreases m.len(),
{
    if m.len() > 0 {
        let a = m.drop_last();
        lemma_g3_bsec(meta, a, st);
        let x = g3_from(bsec_lines_m(meta, a), 0, st);
        match m.last().1 {
            ValueModel::Dict(sub) => {
                let k = m.last().0;
                let bb = bblock_lines_m(meta, k, sub);
                let sb = block_lines_m(meta, k, sub);
                lemma_g3_concat(bsec_lines_m(meta, a), bb, 0, st);
                lemma_g3_concat(sec_lines_m(meta, a), sb, 0, st);
                let pre = meta_lines(meta, k) + seq![DLine::Head(k)];
                let bl = seq![DLine::Blank];
                assert(bb == pre + body_lines_m(meta, k, sub) + bl);
                assert(sb == pre + sec_entry_lines_m(meta, k, sub) + bl);
                lemma_g3_concat(pre + body_lines_m(meta, k, sub), bl, 0, x);
                lemma_g3_concat(pre, body_lines_m(meta, k, sub), 0, x);
                lemma_g3_concat(pre + sec_entry_lines_m(meta, k, sub), bl, 0, x);
                lemma_g3_concat(pre, sec_entry_lines_m(meta, k, sub), 0, x);
                lemma_g3_body(meta, k, sub, g3_from(pre, 0, x));
            },
            _ => {
                assert(bsec_lines_m(meta, m) =~= bsec_lines_m(meta, a));
                assert(sec_lines_m(meta, m) =~= sec_lines_m(meta, a));
            },
        }
    }
}

proof fn lemma_g3_ball(d: DocModel, st: G3)
    ensures
        g3_from(ball_lines_m(d), 0, st) == g3_from(all_lines_m(d), 0, st),
{
    let pre = vars_lines(d.vars) + leaf_lines_m(d.meta, d.config) + (if crate::dumper::has_leaf(d.config) {
        seq![DLine::Blank]
    } else {
        Seq::empty()
    });
    lemma_g3_concat(pre, bsec_lines_m(d.meta, d.config), 0, st);
    lemma_g3_concat(pre, sec_lines_m(d.meta, d.config), 0, st);
    lemma_g3_bsec(d.meta, d.config, g3_from(pre, 0, st));
}

/// What the dumper writes of a document with annotations parses back with,
/// under every path it writes (a top-level entry, a section, an entry of a
/// section, a block dict among them), the same annotations by name and
/// argument, and none under any other key; for documents as in
/// [`law_document_reads_back`] whose first section, when there are
/// variables, has no annotations (those would be read inside the `[vars]`
/// block and dropped).
#[verifier::spinoff_prover]
pub proof fn law_document_annotations_read_back<E: Fn(&str) -> Option<String>, H: Fn(HostQuery) -> HostReply>(
    c: Ctx<E, H>,
    d: DocModel,
)
    requires
        flat_config(d.vars),
        block_config(d.config),
        meta_ok(c.host, d.meta),
        config_free(d.meta, d.config),
        d.vars.len() == 0 || !crate::dumper::has_leaf(d.config),
        d.vars.len() > 0 ==> forall|j: int| #[trigger] first_dict(d.config, j) ==> want(d.meta, d.config[j].0) is None,
    ensures
        forall|q: Seq<char>|
            #[trigger] crate::value::dict_get(
                core_meta(crate::parser::sp_document(c, crate::dumper::sp_dumps(c.host, d)).meta),
                q,
            ) == if written_path(d.config, q) {
                want(d.meta, q)
            } else {
                None
            },
{
    let h = c.host;
    lemma_dumps_blines(h, d);
    lemma_ball_ok(h, d);
    lemma_wf_ball(d);
    let ls = ball_lines_m(d);
    let s1 = (false, Seq::<(Seq<char>, ValueModel)>::empty());
    let s2 = (false, Seq::<Seq<char>>::empty(), Seq::<(Seq<char>, ValueModel)>::empty());
    let s3 = (
        false,
        Seq::<Seq<char>>::empty(),
        Seq::<(Seq<char>, ArgModel)>::empty(),
        Seq::<(Seq<char>, Seq<(Seq<char>, ArgModel)>)>::empty(),
    );
    lemma_trail(h, ls, s1, s2);
    lemma_wf_trail(ls);
    lemma_trail3(ls, s3);
    lemma_g3_all(d);
    lemma_g3_ball(d, s3);
    let tl = trail(ls);
    let lines = if tl.len() > 0 {
        tl
    } else {
        seq![DLine::Blank]
    };
    assert(g3_from(lines, 0, s3) == g3_from(ls, 0, s3)) by {
        if tl.len() == 0 {
            assert(g3_from(seq![DLine::Blank], 1, s3) == s3);
        }
    }
    assert forall|q: int| 0 <= q < lines.len() implies dline_ok(h, #[trigger] lines[q]) by {
        if tl.len() > 0 {
            assert(lines[q] == ls[q]);
        }
    }
    assert(closed_from(lines, 0, false, false)) by {
        if tl.len() == 0 {
            lemma_wf_one(DLine::Blank, false, false);
        }
    }
    let text = crate::dumper::sp_dumps(h, d);
    assert(text == dtext(h, lines)) by {
        if tl.len() == 0 {
            lemma_dtext_one(h, DLine::Blank);
        }
    }
    lemma_tokens_dtext(h, lines);
    let ts = crate::lexer::tokens_of(text);
    let e = crate::parser::empty_doc();
    lemma_p1_lines(c, lines, ts, 0, false, e);
    let d1 = p1_from(c, ts, 0, false, e);
    assert(d1.meta == e.meta);
    assert(core_meta(e.meta) =~= Seq::<(Seq<char>, Seq<(Seq<char>, ArgModel)>)>::empty());
    assert(core_anns(Seq::<AnnModel>::empty()) =~= Seq::<(Seq<char>, ArgModel)>::empty());
    lemma_p2_meta(c, lines, ts, 0, crate::parser::p2_init(), d1);
    assert(abs3(crate::parser::p2_init(), d1) == s3);
    let r = g3_from(all_lines_m(d), 0, s3);
    assert(holds(r.3, |q: Seq<char>| written_path(d.config, q), d.meta));
}

} // verus!
