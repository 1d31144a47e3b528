//! Semantic tokens: every key, section, variable reference and annotation
//! part of a document, typed for the editor's legend, ordered by position
//! and encoded relative to the token before. Positions are (line, column)
//! pairs from a [`LineIndex`].

use vstd::prelude::*;
use crate::annotation::{AnnModel, Annotation};
use crate::parser::{anns_model, DocModel, Document};
use crate::span::{LineIndex, Span};
use crate::text::{chars_of, eq_lit};
use crate::validator::{resolve, resolve_value};
use crate::value::{dict_get, Value, ValueModel};
use crate::value_parser::{RefModel, VarRef, VarRefKind};

verus! {

// ── Semantic-token legend ───────────────────────────────────────────────────

pub const NAMESPACE: u32 = 0;
pub const PROPERTY: u32 = 1;
pub const DECORATOR: u32 = 2;
pub const TYPE: u32 = 3;
pub const ENUM_MEMBER: u32 = 4;
pub const VARIABLE: u32 = 5;
pub const CONSTANT: u32 = 6;
pub const PARAMETER: u32 = 7;
pub const NUMBER: u32 = 8;
pub const STRING: u32 = 9;
pub const REGEXP: u32 = 10;

pub const DECLARATION: u32 = 1;
pub const READONLY: u32 = 2;
pub const STATIC: u32 = 4;
pub const DEPRECATED: u32 = 8;
pub const DEFAULT_LIB: u32 = 16;

/// A token at an absolute position.
#[derive(Debug, Clone, Copy, PartialEq, Eq, Structural)]
pub struct AbsToken {
    pub line: u32,
    pub col: u32,
    pub len: u32,
    pub ty: u32,
    pub modi: u32,
}

/// A token relative to the one before it (the LSP encoding).
#[derive(Debug, Clone, Copy, PartialEq, Eq, Structural)]
pub struct SemToken {
    pub delta_line: u32,
    pub delta_start: u32,
    pub length: u32,
    pub token_type: u32,
    pub modifiers: u32,
}

/// A token over `s` with the given type and modifiers.
pub open spec fn tok_at(idx: LineIndex, s: Span, ty: u32, modi: u32) -> AbsToken {
    AbsToken {
        line: idx.pos(s.start).0,
        col: idx.pos(s.start).1,
        len: vstd::wrapping::usize_specs::wrapping_sub(s.end, s.start) as u32,
        ty,
        modi,
    }
}

fn token_at(idx: &LineIndex, s: Span, ty: u32, modi: u32) -> (t: AbsToken)
    ensures
        t == tok_at(*idx, s, ty, modi),
{
    let (line, col) = idx.position(s.start);
    AbsToken { line, col, len: s.len() as u32, ty, modi }
}

pub open spec fn has_name(anns: Seq<AnnModel>, n: Seq<char>) -> bool {
    exists|i: int| 0 <= i < anns.len() && (#[trigger] anns[i]).name == n
}

pub(crate) fn any_named(anns: &Vec<Annotation>, n: &str) -> (r: bool)
    ensures
        r == has_name(anns_model(anns@), n@),
{
    let ghost am = anns_model(anns@);
    let mut i: usize = 0;
    while i < anns.len()
        invariant
            am == anns_model(anns@),
            i <= anns@.len(),
            forall|q: int| 0 <= q < i ==> (#[trigger] am[q]).name != n@,
        decreases anns@.len() - i,
    {
        if eq_lit(chars_of(&anns[i].name).as_slice(), n) {
            assert(am[i as int].name == n@);
            return true;
        }
        i = i + 1;
    }
    false
}

/// The token of a defined key: a namespace when it names a dict, else a
/// property; `@deprecated` and `@readonly` add their modifiers.
pub open spec fn key_tok(idx: LineIndex, d: DocModel, key: Seq<char>, span: Span) -> AbsToken {
    let is_sec = resolve(d.config, key) matches Some(ValueModel::Dict(_));
    let dep = dict_get(d.meta, key) matches Some(a) && has_name(a, "deprecated"@);
    let ro = dict_get(d.meta, key) matches Some(a) && has_name(a, "readonly"@);
    tok_at(
        idx,
        span,
        if is_sec {
            NAMESPACE
        } else {
            PROPERTY
        },
        DECLARATION | (if dep {
            DEPRECATED
        } else {
            0
        }) | (if ro {
            READONLY
        } else {
            0
        }),
    )
}

pub open spec fn key_tokens(idx: LineIndex, d: DocModel, ks: Seq<(Seq<char>, Span)>) -> Seq<AbsToken>
    decreases ks.len(),
{
    if ks.len() == 0 {
        Seq::empty()
    } else {
        key_tokens(idx, d, ks.drop_last()).push(key_tok(idx, d, ks.last().0, ks.last().1))
    }
}

pub open spec fn ref_tok(idx: LineIndex, r: RefModel) -> AbsToken {
    match r.kind {
        VarRefKind::User => tok_at(idx, r.span, VARIABLE, 0),
        VarRefKind::Builtin => tok_at(idx, r.span, CONSTANT, READONLY | STATIC | DEFAULT_LIB),
        VarRefKind::Env => tok_at(idx, r.span, PARAMETER, READONLY),
    }
}

pub open spec fn ref_tokens(idx: LineIndex, rs: Seq<RefModel>) -> Seq<AbsToken>
    decreases rs.len(),
{
    if rs.len() == 0 {
        Seq::empty()
    } else {
        ref_tokens(idx, rs.drop_last()).push(ref_tok(idx, rs.last()))
    }
}

pub open spec fn item_tokens(idx: LineIndex, spans: Seq<Span>) -> Seq<AbsToken>
    decreases spans.len(),
{
    if spans.len() == 0 {
        Seq::empty()
    } else {
        item_tokens(idx, spans.drop_last()).push(tok_at(idx, spans.last(), ENUM_MEMBER, 0))
    }
}

/// The `@name` decorator, then the argument by annotation kind.
pub open spec fn ann_toks(idx: LineIndex, a: AnnModel) -> Seq<AbsToken> {
    seq![tok_at(idx, a.name_span, DECORATOR, 0)] + match a.arg_span {
        None => Seq::empty(),
        Some(sp) => if a.name == "type"@ {
            seq![tok_at(idx, sp, TYPE, 0)]
        } else if a.name == "enum"@ {
            item_tokens(idx, a.list_item_spans)
        } else if a.name == "min"@ || a.name == "max"@ || a.name == "minlen"@ || a.name == "maxlen"@ {
            seq![tok_at(idx, sp, NUMBER, 0)]
        } else if a.name == "pattern"@ {
            seq![tok_at(idx, sp, REGEXP, 0)]
        } else if a.name == "deprecated"@ {
            seq![tok_at(idx, sp, STRING, DEPRECATED)]
        } else {
            Seq::empty()
        },
    }
}

pub open spec fn anns_tokens(idx: LineIndex, anns: Seq<AnnModel>) -> Seq<AbsToken>
    decreases anns.len(),
{
    if anns.len() == 0 {
        Seq::empty()
    } else {
        anns_tokens(idx, anns.drop_last()) + ann_toks(idx, anns.last())
    }
}

pub open spec fn meta_tokens(idx: LineIndex, m: Seq<(Seq<char>, Seq<AnnModel>)>) -> Seq<AbsToken>
    decreases m.len(),
{
    if m.len() == 0 {
        Seq::empty()
    } else {
        meta_tokens(idx, m.drop_last()) + anns_tokens(idx, m.last().1)
    }
}

/// Keys and sections, then variable references, then annotations.
pub open spec fn collected(idx: LineIndex, d: DocModel) -> Seq<AbsToken> {
    key_tokens(idx, d, d.key_spans) + ref_tokens(idx, d.var_refs) + meta_tokens(idx, d.meta)
}

// ── Ordering and encoding ───────────────────────────────────────────────────

/// `a` is at or before `b`.
pub open spec fn tok_le(a: AbsToken, b: AbsToken) -> bool {
    a.line < b.line || (a.line == b.line && a.col <= b.col)
}

pub open spec fn tokens_sorted(s: Seq<AbsToken>) -> bool {
    forall|i: int, j: int| 0 <= i < j < s.len() ==> tok_le(#[trigger] s[i], #[trigger] s[j])
}

/// `t` inserted after every token at or before it.
pub open spec fn ins(s: Seq<AbsToken>, t: AbsToken) -> Seq<AbsToken>
    decreases s.len(),
{
    if s.len() == 0 {
        seq![t]
    } else if tok_le(s.last(), t) {
        s.push(t)
    } else {
        ins(s.drop_last(), t).push(s.last())
    }
}

/// The tokens ordered by position; tokens at the same position keep their
/// order (a stable sort).
pub open spec fn sort_toks(s: Seq<AbsToken>) -> Seq<AbsToken>
    decreases s.len(),
{
    if s.len() == 0 {
        Seq::empty()
    } else {
        ins(sort_toks(s.drop_last()), s.last())
    }
}

proof fn lemma_ins_split(s: Seq<AbsToken>, t: AbsToken, j: int)
    requires
        0 <= j <= s.len(),
        forall|q: int| j <= q < s.len() ==> !tok_le(#[trigger] s[q], t),
        j == 0 || tok_le(s[j - 1], t),
    ensures
        ins(s, t) == s.take(j) + seq![t] + s.skip(j),
    decreases s.len(),
{
    if s.len() == 0 {
        assert(s.take(j) + seq![t] + s.skip(j) =~= seq![t]);
    } else if tok_le(s.last(), t) {
        assert(j == s.len());
        assert(s.take(j) + seq![t] + s.skip(j) =~= s.push(t));
    } else {
        let dl = s.drop_last();
        assert(j < s.len());
        assert forall|q: int| j <= q < dl.len() implies !tok_le(#[trigger] dl[q], t) by {
            assert(dl[q] == s[q]);
        }
        if j > 0 {
            assert(dl[j - 1] == s[j - 1]);
        }
        lemma_ins_split(dl, t, j);
        assert(dl.take(j) + seq![t] + dl.skip(j) + seq![s.last()] =~= s.take(j) + seq![t] + s.skip(j));
    }
}

proof fn lemma_ins_sorted(s: Seq<AbsToken>, t: AbsToken)
    requires
        tokens_sorted(s),
    ensures
        tokens_sorted(ins(s, t)),
        ins(s, t).len() == s.len() + 1,
    decreases s.len(),
{
    if s.len() == 0 {
    } else if tok_le(s.last(), t) {
        let r = s.push(t);
        assert forall|i: int, j: int| 0 <= i < j < r.len() implies tok_le(#[trigger] r[i], #[trigger] r[j]) by {
            if j == s.len() {
                assert(tok_le(s[i], s[s.len() - 1]) || i == s.len() - 1);
            }
        }
    } else {
        let dl = s.drop_last();
        assert forall|i: int, j: int| 0 <= i < j < dl.len() implies tok_le(#[trigger] dl[i], #[trigger] dl[j]) by {
            assert(dl[i] == s[i] && dl[j] == s[j]);
        }
        lemma_ins_sorted(dl, t);
        let m = ins(dl, t);
        let r = m.push(s.last());
        lemma_ins_members(dl, t);
        assert forall|i: int, j: int| 0 <= i < j < r.len() implies tok_le(#[trigger] r[i], #[trigger] r[j]) by {
            if j == m.len() {
                let x = r[i];
                assert(x == m[i]);
                if x == t {
                } else {
                    let q = choose|q: int| 0 <= q < dl.len() && dl[q] == x;
                    assert(tok_le(s[q], s[s.len() - 1]));
                }
            }
        }
    }
}

/// Every token of `ins(s, t)` is `t` or a token of `s`.
proof fn lemma_ins_members(s: Seq<AbsToken>, t: AbsToken)
    ensures
        forall|i: int|
            0 <= i < ins(s, t).len() ==> #[trigger] ins(s, t)[i] == t || exists|q: int|
                0 <= q < s.len() && s[q] == ins(s, t)[i],
    decreases s.len(),
{
    if s.len() == 0 {
    } else if tok_le(s.last(), t) {
        let r = s.push(t);
        assert forall|i: int| 0 <= i < r.len() implies #[trigger] r[i] == t || exists|q: int|
            0 <= q < s.len() && s[q] == r[i] by {
            if i < s.len() {
                assert(s[i] == r[i]);
            }
        }
    } else {
        let dl = s.drop_last();
        lemma_ins_members(dl, t);
        let m = ins(dl, t);
        let r = m.push(s.last());
        assert forall|i: int| 0 <= i < r.len() implies #[trigger] r[i] == t || exists|q: int|
            0 <= q < s.len() && s[q] == r[i] by {
            if i == m.len() {
                assert(s[s.len() - 1] == r[i]);
            } else {
                assert(r[i] == m[i]);
                if m[i] != t {
                    let q = choose|q: int| 0 <= q < dl.len() && dl[q] == m[i];
                    assert(s[q] == dl[q]);
                }
            }
        }
    }
}

/// Semantic tokens come out in position order, none lost or added in
/// number: the sort keeps the length and yields a sorted sequence.
pub proof fn law_tokens_sorted(s: Seq<AbsToken>)
    ensures
        tokens_sorted(sort_toks(s)),
        sort_toks(s).len() == s.len(),
    decreases s.len(),
{
    if s.len() > 0 {
        law_tokens_sorted(s.drop_last());
        lemma_ins_sorted(sort_toks(s.drop_last()), s.last());
    }
}

/// Each token relative to the previous one's line and column.
pub open spec fn encode(s: Seq<AbsToken>, pl: u32, pc: u32) -> Seq<SemToken>
    decreases s.len(),
{
    if s.len() == 0 {
        Seq::empty()
    } else {
        let t = s[0];
        let dl = (t.line - pl) as u32;
        seq![
            SemToken {
                delta_line: dl,
                delta_start: if dl == 0 {
                    (t.col - pc) as u32
                } else {
                    t.col
                },
                length: t.len,
                token_type: t.ty,
                modifiers: t.modi,
            },
        ] + encode(s.skip(1), t.line, t.col)
    }
}

/// Absolute (line, column) positions read back from relative tokens.
pub open spec fn decode(s: Seq<SemToken>, pl: u32, pc: u32) -> Seq<(int, int)>
    decreases s.len(),
{
    if s.len() == 0 {
        Seq::empty()
    } else {
        let l = pl + s[0].delta_line;
        let c = if s[0].delta_line == 0 {
            pc + s[0].delta_start
        } else {
            s[0].delta_start as int
        };
        seq![(l, c)] + decode(s.skip(1), l as u32, c as u32)
    }
}

pub open spec fn positions(s: Seq<AbsToken>) -> Seq<(int, int)> {
    s.map_values(|t: AbsToken| (t.line as int, t.col as int))
}

proof fn lemma_decode_encode(s: Seq<AbsToken>, pl: u32, pc: u32)
    requires
        tokens_sorted(s),
        s.len() > 0 ==> s[0].line > pl || (s[0].line == pl && s[0].col >= pc),
    ensures
        decode(encode(s, pl, pc), pl, pc) == positions(s),
        encode(s, pl, pc).len() == s.len(),
    decreases s.len(),
{
    if s.len() > 0 {
        let t = s[0];
        let rest = s.skip(1);
        assert forall|i: int, j: int| 0 <= i < j < rest.len() implies tok_le(#[trigger] rest[i], #[trigger] rest[j]) by {
            assert(rest[i] == s[i + 1] && rest[j] == s[j + 1]);
        }
        if rest.len() > 0 {
            assert(rest[0] == s[1]);
            assert(tok_le(s[0], s[1]));
        }
        lemma_decode_encode(rest, t.line, t.col);
        let e = encode(s, pl, pc);
        assert(e.skip(1) =~= encode(rest, t.line, t.col));
        assert(positions(s) =~= seq![(t.line as int, t.col as int)] + positions(rest));
    }
}

/// Relative encoding loses nothing: for tokens in position order, adding up
/// the deltas gives back each token's line and column.
pub proof fn law_tokens_decode(s: Seq<AbsToken>)
    requires
        tokens_sorted(s),
    ensures
        decode(encode(s, 0, 0), 0, 0) == positions(s),
{
    lemma_decode_encode(s, 0, 0);
}

fn encode_delta(toks: &Vec<AbsToken>) -> (r: Vec<SemToken>)
    requires
        tokens_sorted(toks@),
    ensures
        r@ == encode(toks@, 0, 0),
{
    let mut out: Vec<SemToken> = Vec::new();
    let mut pl: u32 = 0;
    let mut pc: u32 = 0;
    let mut i: usize = 0;
    assert(toks@.skip(0) =~= toks@);
    assert(out@ + encode(toks@, 0, 0) =~= encode(toks@, 0, 0));
    while i < toks.len()
        invariant
            i <= toks@.len(),
            tokens_sorted(toks@),
            i > 0 ==> pl == toks@[i - 1].line && pc == toks@[i - 1].col,
            i == 0 ==> pl == 0 && pc == 0,
            out@ + encode(toks@.skip(i as int), pl, pc) == encode(toks@, 0, 0),
        decreases toks@.len() - i,
    {
        let t = toks[i];
        if i > 0 {
            assert(tok_le(toks@[i - 1], toks@[i as int]));
        }
        let dl = t.line - pl;
        let ds = if dl == 0 {
            t.col - pc
        } else {
            t.col
        };
        let ghost before = out@;
        out.push(SemToken { delta_line: dl, delta_start: ds, length: t.len, token_type: t.ty, modifiers: t.modi });
        assert(toks@.skip(i as int)[0] == t);
        assert(toks@.skip(i as int).skip(1) =~= toks@.skip(i + 1));
        assert(out@ + encode(toks@.skip(i + 1), t.line, t.col) =~= before + encode(toks@.skip(i as int), pl, pc));
        pl = t.line;
        pc = t.col;
        i = i + 1;
    }
    assert(out@ =~= out@ + encode(toks@.skip(i as int), pl, pc));
    out
}

fn sort_tokens(toks: &Vec<AbsToken>) -> (r: Vec<AbsToken>)
    ensures
        r@ == sort_toks(toks@),
        tokens_sorted(r@),
{
    let mut out: Vec<AbsToken> = Vec::new();
    let mut i: usize = 0;
    assert(toks@.take(0) =~= Seq::<AbsToken>::empty());
    while i < toks.len()
        invariant
            i <= toks@.len(),
            out@ == sort_toks(toks@.take(i as int)),
            tokens_sorted(out@),
        decreases toks@.len() - i,
    {
        let t = toks[i];
        let mut j = out.len();
        while j > 0 && !(out[j - 1].line < t.line || (out[j - 1].line == t.line && out[j - 1].col <= t.col))
            invariant
                j <= out@.len(),
                forall|q: int| j <= q < out@.len() ==> !tok_le(#[trigger] out@[q], t),
            decreases j,
        {
            j = j - 1;
        }
        proof {
            lemma_ins_split(out@, t, j as int);
            lemma_ins_sorted(out@, t);
            assert(toks@.take(i + 1).drop_last() =~= toks@.take(i as int));
            assert(toks@.take(i + 1).last() == t);
        }
        out.insert(j, t);
        assert(out@ =~= sort_toks(toks@.take(i + 1)));
        i = i + 1;
    }
    assert(toks@.take(i as int) =~= toks@);
    out
}

// ── Collecting the tokens ───────────────────────────────────────────────────

fn key_token(idx: &LineIndex, doc: &Document, i: usize) -> (t: AbsToken)
    requires
        i < doc@.key_spans.len(),
    ensures
        t == key_tok(*idx, doc@, doc@.key_spans[i as int].0, doc@.key_spans[i as int].1),
{
    let k = doc.key_spans.key_at(i);
    let span = *doc.key_spans.value_at(i);
    let kc = chars_of(k);
    let is_sec = match resolve_value(&doc.config, kc.as_slice()) {
        Some(v) => match v {
            Value::Dict(_) => true,
            _ => false,
        },
        None => false,
    };
    proof {
        crate::parser::lemma_meta_find(doc.meta.model(), k@, 0);
        crate::value::lemma_dict_find_from_bound(doc.meta.model(), k@, 0);
    }
    let (dep, ro) = match doc.meta.get(k.as_str()) {
        Some(anns) => (any_named(anns, "deprecated"), any_named(anns, "readonly")),
        None => (false, false),
    };
    let ty = if is_sec {
        NAMESPACE
    } else {
        PROPERTY
    };
    let modi = DECLARATION | (if dep {
        DEPRECATED
    } else {
        0
    }) | (if ro {
        READONLY
    } else {
        0
    });
    token_at(idx, span, ty, modi)
}

fn ref_token(idx: &LineIndex, r: &VarRef) -> (t: AbsToken)
    ensures
        t == ref_tok(*idx, r.model()),
{
    match r.kind {
        VarRefKind::User => token_at(idx, r.span, VARIABLE, 0),
        VarRefKind::Builtin => token_at(idx, r.span, CONSTANT, READONLY | STATIC | DEFAULT_LIB),
        VarRefKind::Env => token_at(idx, r.span, PARAMETER, READONLY),
    }
}

fn push_ann_tokens(out: &mut Vec<AbsToken>, idx: &LineIndex, a: &Annotation)
    ensures
        final(out)@ == old(out)@ + ann_toks(*idx, a@),
{
    let ghost start = out@;
    out.push(token_at(idx, a.name_span, DECORATOR, 0));
    let ghost head = out@;
    match a.arg_span {
        None => {},
        Some(sp) => {
            let n = chars_of(&a.name);
            if eq_lit(n.as_slice(), "type") {
                out.push(token_at(idx, sp, TYPE, 0));
            } else if eq_lit(n.as_slice(), "enum") {
                let items = &a.list_item_spans;
                let mut j: usize = 0;
                assert(items@.take(0) =~= Seq::<Span>::empty());
                while j < items.len()
                    invariant
                        j <= items@.len(),
                        out@ == head + item_tokens(*idx, items@.take(j as int)),
                    decreases items@.len() - j,
                {
                    out.push(token_at(idx, items[j], ENUM_MEMBER, 0));
                    assert(items@.take(j + 1).drop_last() =~= items@.take(j as int));
                    j = j + 1;
                }
                assert(items@.take(j as int) =~= items@);
            } else if eq_lit(n.as_slice(), "min") || eq_lit(n.as_slice(), "max") || eq_lit(
                n.as_slice(),
                "minlen",
            ) || eq_lit(n.as_slice(), "maxlen") {
                out.push(token_at(idx, sp, NUMBER, 0));
            } else if eq_lit(n.as_slice(), "pattern") {
                out.push(token_at(idx, sp, REGEXP, 0));
            } else if eq_lit(n.as_slice(), "deprecated") {
                out.push(token_at(idx, sp, STRING, DEPRECATED));
            }
        },
    }
    assert(out@ =~= start + ann_toks(*idx, a@));
}

fn push_key_tokens(out: &mut Vec<AbsToken>, doc: &Document, idx: &LineIndex)
    ensures
        final(out)@ == old(out)@ + key_tokens(*idx, doc@, doc@.key_spans),
{
    let ghost start = out@;
    let ghost ks = doc@.key_spans;
    let mut i: usize = 0;
    assert(ks.take(0) =~= Seq::<(Seq<char>, Span)>::empty());
    assert(out@ =~= start + key_tokens(*idx, doc@, ks.take(0)));
    while i < doc.key_spans.len()
        invariant
            ks == doc@.key_spans,
            i <= ks.len(),
            out@ == start + key_tokens(*idx, doc@, ks.take(i as int)),
        decreases ks.len() - i,
    {
        let t = key_token(idx, doc, i);
        out.push(t);
        assert(ks.take(i + 1).drop_last() =~= ks.take(i as int));
        assert(out@ =~= start + key_tokens(*idx, doc@, ks.take(i + 1)));
        i = i + 1;
    }
    assert(ks.take(i as int) =~= ks);
}

fn push_ref_tokens(out: &mut Vec<AbsToken>, doc: &Document, idx: &LineIndex)
    ensures
        final(out)@ == old(out)@ + ref_tokens(*idx, doc@.var_refs),
{
    let ghost start = out@;
    let ghost rs = doc@.var_refs;
    let mut i: usize = 0;
    assert(rs.take(0) =~= Seq::<RefModel>::empty());
    assert(out@ =~= start + ref_tokens(*idx, rs.take(0)));
    while i < doc.var_refs.len()
        invariant
            rs == doc@.var_refs,
            rs.len() == doc.var_refs@.len(),
            i <= rs.len(),
            out@ == start + ref_tokens(*idx, rs.take(i as int)),
        decreases rs.len() - i,
    {
        let t = ref_token(idx, &doc.var_refs[i]);
        out.push(t);
        assert(rs.take(i + 1).drop_last() =~= rs.take(i as int));
        assert(out@ =~= start + ref_tokens(*idx, rs.take(i + 1)));
        i = i + 1;
    }
    assert(rs.take(i as int) =~= rs);
}

fn push_meta_tokens(out: &mut Vec<AbsToken>, doc: &Document, idx: &LineIndex)
    ensures
        final(out)@ == old(out)@ + meta_tokens(*idx, doc@.meta),
{
    let ghost start = out@;
    let ghost ms = doc@.meta;
    let mut i: usize = 0;
    assert(ms.take(0) =~= Seq::<(Seq<char>, Seq<AnnModel>)>::empty());
    assert(out@ =~= start + meta_tokens(*idx, ms.take(0)));
    while i < doc.meta.len()
        invariant
            ms == doc@.meta,
            ms.len() == doc.meta.model().len(),
            i <= ms.len(),
            out@ == start + meta_tokens(*idx, ms.take(i as int)),
        decreases ms.len() - i,
    {
        let anns = doc.meta.value_at(i);
        let ghost am = anns_model(anns@);
        assert(ms[i as int].1 == am);
        let ghost mid = out@;
        let mut j: usize = 0;
        assert(am.take(0) =~= Seq::<AnnModel>::empty());
        assert(out@ =~= mid + anns_tokens(*idx, am.take(0)));
        while j < anns.len()
            invariant
                am == anns_model(anns@),
                j <= am.len(),
                out@ == mid + anns_tokens(*idx, am.take(j as int)),
            decreases am.len() - j,
        {
            push_ann_tokens(out, idx, &anns[j]);
            assert(am.take(j + 1).drop_last() =~= am.take(j as int));
            assert(out@ =~= mid + anns_tokens(*idx, am.take(j + 1)));
            j = j + 1;
        }
        assert(am.take(j as int) =~= am);
        assert(ms.take(i + 1).drop_last() =~= ms.take(i as int));
        assert(out@ =~= start + meta_tokens(*idx, ms.take(i + 1)));
        i = i + 1;
    }
    assert(ms.take(i as int) =~= ms);
}

/// The document's semantic tokens in the editor's relative encoding: keys
/// and sections, variable references and annotation parts, ordered by
/// position.
pub fn semantic_tokens(doc: &Document, idx: &LineIndex) -> (r: Vec<SemToken>)
    ensures
        r@ == encode(sort_toks(collected(*idx, doc@)), 0, 0),
{
    let mut toks: Vec<AbsToken> = Vec::new();
    push_key_tokens(&mut toks, doc, idx);
    push_ref_tokens(&mut toks, doc, idx);
    push_meta_tokens(&mut toks, doc, idx);
    assert(toks@ =~= collected(*idx, doc@));
    let sorted = sort_tokens(&toks);
    encode_delta(&sorted)
}

} // verus!
