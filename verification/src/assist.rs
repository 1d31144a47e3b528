//! Inlay hints, go-to-definition and the document outline.

use vstd::prelude::*;
use crate::annotation::{AnnModel, Annotation, AnnotationArg};
use crate::display::{disp_value, display_chars, elide_chars, elided};
use crate::host::{
    ask_env, debug_str, env_ok, env_reply, host_debug_str, host_ok, HostQuery, HostReply,
};
use crate::hover::{
    first_ref_at, line_start_of, pos_to_offset, range_of, ref_at, span_to_range, TextRange,
};
use crate::numeric::{nat_text, nat_to_text};
use crate::parser::{anns_model, DocModel, Document};
use crate::span::{LineIndex, Span};
use crate::text::{chars_of, eq_lit, push_all, push_lit, string_from, to_chars};
use crate::value::{dict_get, type_name_of, Dict, KeyMap, Value, ValueModel};
use crate::value_parser::{RefModel, VarRef, VarRefKind};

verus! {

// ── Inlay hints ─────────────────────────────────────────────────────────────

#[derive(Debug, Clone, Copy, PartialEq, Eq, Structural)]
pub enum HintKind {
    Type,
    Parameter,
}

/// A label shown inline at a position.
#[derive(Debug)]
pub struct InlayHint {
    pub line: u32,
    pub col: u32,
    pub label: String,
    pub kind: HintKind,
    pub tooltip: Option<String>,
    pub padding_left: bool,
    pub padding_right: bool,
}

pub struct HintModel {
    pub line: u32,
    pub col: u32,
    pub label: Seq<char>,
    pub kind: HintKind,
    pub tooltip: Option<Seq<char>>,
    pub padding_left: bool,
    pub padding_right: bool,
}

impl View for InlayHint {
    type V = HintModel;

    open spec fn view(&self) -> HintModel {
        HintModel {
            line: self.line,
            col: self.col,
            label: self.label@,
            kind: self.kind,
            tooltip: match self.tooltip {
                Some(t) => Some(t@),
                None => None,
            },
            padding_left: self.padding_left,
            padding_right: self.padding_right,
        }
    }
}

pub open spec fn hints_model(v: Seq<InlayHint>) -> Seq<HintModel> {
    v.map_values(|x: InlayHint| x@)
}

/// An `$ENV.X` reference whose variable is set shows its value.
pub open spec fn env_hint<E: Fn(&str) -> Option<String>, H: Fn(HostQuery) -> HostReply>(
    idx: LineIndex,
    r: RefModel,
    env: E,
    h: H,
) -> Seq<HintModel> {
    if r.kind is Env {
        match env_reply(env, r.name) {
            Some(val) => seq![
                HintModel {
                    line: idx.pos(r.span.end).0,
                    col: idx.pos(r.span.end).1,
                    label: " → \""@ + elided(val, 32) + "\""@,
                    kind: HintKind::Parameter,
                    tooltip: Some("Environment variable "@ + r.name + " resolves to "@ + debug_str(h, val)),
                    padding_left: false,
                    padding_right: false,
                },
            ],
            None => Seq::empty(),
        }
    } else {
        Seq::empty()
    }
}

pub open spec fn env_hints<E: Fn(&str) -> Option<String>, H: Fn(HostQuery) -> HostReply>(
    idx: LineIndex,
    rs: Seq<RefModel>,
    env: E,
    h: H,
) -> Seq<HintModel>
    decreases rs.len(),
{
    if rs.len() == 0 {
        Seq::empty()
    } else {
        env_hints(idx, rs.drop_last(), env, h) + env_hint(idx, rs.last(), env, h)
    }
}

/// A reference to a user variable with a scalar value shows the value.
pub open spec fn user_hint<H: Fn(HostQuery) -> HostReply>(idx: LineIndex, d: DocModel, r: RefModel, h: H) -> Seq<
    HintModel,
> {
    if r.kind is User {
        match dict_get(d.vars, r.name) {
            Some(v) => if v is Dict || v is Array {
                Seq::empty()
            } else {
                seq![
                    HintModel {
                        line: idx.pos(r.span.end).0,
                        col: idx.pos(r.span.end).1,
                        label: " → "@ + elided(disp_value(h, v), 32),
                        kind: HintKind::Parameter,
                        tooltip: None,
                        padding_left: false,
                        padding_right: false,
                    },
                ]
            },
            None => Seq::empty(),
        }
    } else {
        Seq::empty()
    }
}

pub open spec fn user_hints<H: Fn(HostQuery) -> HostReply>(idx: LineIndex, d: DocModel, rs: Seq<RefModel>, h: H) -> Seq<
    HintModel,
>
    decreases rs.len(),
{
    if rs.len() == 0 {
        Seq::empty()
    } else {
        user_hints(idx, d, rs.drop_last(), h) + user_hint(idx, d, rs.last(), h)
    }
}

/// The argument of the first `@type` annotation that has a string argument.
pub open spec fn type_arg(anns: Seq<AnnModel>) -> Option<Seq<char>>
    decreases anns.len(),
{
    if anns.len() == 0 {
        None
    } else if anns[0].name == "type"@ && anns[0].arg is Str {
        Some(anns[0].arg->Str_0)
    } else {
        type_arg(anns.skip(1))
    }
}

/// A key with a `@type` shows the type after its value.
pub open spec fn type_hint(idx: LineIndex, d: DocModel, e: (Seq<char>, Seq<AnnModel>)) -> Seq<HintModel> {
    match type_arg(e.1) {
        Some(t) => match dict_get(d.value_spans, e.0) {
            Some(sp) => seq![
                HintModel {
                    line: idx.pos(sp.end).0,
                    col: idx.pos(sp.end).1,
                    label: ": "@ + t,
                    kind: HintKind::Type,
                    tooltip: None,
                    padding_left: true,
                    padding_right: false,
                },
            ],
            None => Seq::empty(),
        },
        None => Seq::empty(),
    }
}

pub open spec fn type_hints(idx: LineIndex, d: DocModel, m: Seq<(Seq<char>, Seq<AnnModel>)>) -> Seq<HintModel>
    decreases m.len(),
{
    if m.len() == 0 {
        Seq::empty()
    } else {
        type_hints(idx, d, m.drop_last()) + type_hint(idx, d, m.last())
    }
}

/// Environment values, then user-variable values, then declared types.
pub open spec fn all_hints<E: Fn(&str) -> Option<String>, H: Fn(HostQuery) -> HostReply>(
    idx: LineIndex,
    d: DocModel,
    env: E,
    h: H,
) -> Seq<HintModel> {
    env_hints(idx, d.var_refs, env, h) + user_hints(idx, d, d.var_refs, h) + type_hints(idx, d, d.meta)
}

fn push_env_hint<E: Fn(&str) -> Option<String>, H: Fn(HostQuery) -> HostReply>(
    out: &mut Vec<InlayHint>,
    idx: &LineIndex,
    r: &VarRef,
    env: &E,
    h: &H,
)
    requires
        env_ok(*env),
        host_ok(*h),
    ensures
        hints_model(final(out)@) == hints_model(old(out)@) + env_hint(*idx, r.model(), *env, *h),
{
    let ghost before = out@;
    match r.kind {
        VarRefKind::Env => {
            let name = chars_of(&r.name);
            match ask_env(env, name.as_slice()) {
                Some(val) => {
                    let vc = chars_of(&val);
                    let (line, col) = idx.position(r.span.end);
                    let mut label = to_chars(" → \"");
                    push_all(&mut label, elide_chars(vc.as_slice(), 32).as_slice());
                    push_lit(&mut label, "\"");
                    let mut tip = to_chars("Environment variable ");
                    push_all(&mut tip, name.as_slice());
                    push_lit(&mut tip, " resolves to ");
                    push_all(&mut tip, host_debug_str(h, vc.as_slice()).as_slice());
                    let hint = InlayHint {
                        line,
                        col,
                        label: string_from(label.as_slice()),
                        kind: HintKind::Parameter,
                        tooltip: Some(string_from(tip.as_slice())),
                        padding_left: false,
                        padding_right: false,
                    };
                    out.push(hint);
                    assert(hints_model(out@) =~= hints_model(before) + env_hint(*idx, r.model(), *env, *h));
                },
                None => {
                    assert(hints_model(out@) =~= hints_model(before) + env_hint(*idx, r.model(), *env, *h));
                },
            }
        },
        _ => {
            assert(hints_model(out@) =~= hints_model(before) + env_hint(*idx, r.model(), *env, *h));
        },
    }
}

fn push_user_hint<H: Fn(HostQuery) -> HostReply>(out: &mut Vec<InlayHint>, idx: &LineIndex, doc: &Document, r: &VarRef, h: &H)
    requires
        host_ok(*h),
    ensures
        hints_model(final(out)@) == hints_model(old(out)@) + user_hint(*idx, doc@, r.model(), *h),
{
    let ghost before = out@;
    match r.kind {
        VarRefKind::User => {
            match doc.vars.get(r.name.as_str()) {
                Some(v) => {
                    match v {
                        Value::Dict(_) | Value::Array(_) => {
                            assert(hints_model(out@) =~= hints_model(before) + user_hint(*idx, doc@, r.model(), *h));
                        },
                        _ => {
                            let (line, col) = idx.position(r.span.end);
                            let shown = display_chars(h, v);
                            let mut label = to_chars(" → ");
                            push_all(&mut label, elide_chars(shown.as_slice(), 32).as_slice());
                            out.push(
                                InlayHint {
                                    line,
                                    col,
                                    label: string_from(label.as_slice()),
                                    kind: HintKind::Parameter,
                                    tooltip: None,
                                    padding_left: false,
                                    padding_right: false,
                                },
                            );
                            assert(hints_model(out@) =~= hints_model(before) + user_hint(*idx, doc@, r.model(), *h));
                        },
                    }
                },
                None => {
                    assert(hints_model(out@) =~= hints_model(before) + user_hint(*idx, doc@, r.model(), *h));
                },
            }
        },
        _ => {
            assert(hints_model(out@) =~= hints_model(before) + user_hint(*idx, doc@, r.model(), *h));
        },
    }
}

fn type_arg_of(anns: &Vec<Annotation>) -> (r: Option<String>)
    ensures
        match type_arg(anns_model(anns@)) {
            Some(t) => r is Some && r->0@ == t,
            None => r is None,
        },
{
    let ghost am = anns_model(anns@);
    let mut i: usize = 0;
    assert(am.skip(0) =~= am);
    while i < anns.len()
        invariant
            am == anns_model(anns@),
            i <= am.len(),
            type_arg(am) == type_arg(am.skip(i as int)),
        decreases am.len() - i,
    {
        assert(am.skip(i as int)[0] == am[i as int]);
        assert(am.skip(i as int).skip(1) =~= am.skip(i + 1));
        if eq_lit(chars_of(&anns[i].name).as_slice(), "type") {
            match &anns[i].arg {
                AnnotationArg::String(s) => {
                    return Some(s.clone());
                },
                _ => {},
            }
        }
        i = i + 1;
    }
    None
}

fn push_type_hint(out: &mut Vec<InlayHint>, idx: &LineIndex, doc: &Document, i: usize)
    requires
        i < doc@.meta.len(),
    ensures
        hints_model(final(out)@) == hints_model(old(out)@) + type_hint(*idx, doc@, doc@.meta[i as int]),
{
    let ghost before = out@;
    let key = doc.meta.key_at(i);
    let anns = doc.meta.value_at(i);
    assert(doc@.meta[i as int] == (key@, anns_model(anns@)));
    match type_arg_of(anns) {
        Some(t) => {
            match doc.value_spans.get(key.as_str()) {
                Some(sp) => {
                    let (line, col) = idx.position(sp.end);
                    let mut label = to_chars(": ");
                    push_all(&mut label, chars_of(&t).as_slice());
                    out.push(
                        InlayHint {
                            line,
                            col,
                            label: string_from(label.as_slice()),
                            kind: HintKind::Type,
                            tooltip: None,
                            padding_left: true,
                            padding_right: false,
                        },
                    );
                    assert(hints_model(out@) =~= hints_model(before) + type_hint(*idx, doc@, doc@.meta[i as int]));
                },
                None => {
                    assert(hints_model(out@) =~= hints_model(before) + type_hint(*idx, doc@, doc@.meta[i as int]));
                },
            }
        },
        None => {
            assert(hints_model(out@) =~= hints_model(before) + type_hint(*idx, doc@, doc@.meta[i as int]));
        },
    }
}

/// The document's inlay hints.
pub fn inlay_hints<E: Fn(&str) -> Option<String>, H: Fn(HostQuery) -> HostReply>(
    doc: &Document,
    idx: &LineIndex,
    env: &E,
    h: &H,
) -> (r: Vec<InlayHint>)
    requires
        env_ok(*env),
        host_ok(*h),
    ensures
        hints_model(r@) == all_hints(*idx, doc@, *env, *h),
{
    let mut out: Vec<InlayHint> = Vec::new();
    let ghost rs = doc@.var_refs;
    let mut i: usize = 0;
    assert(rs.take(0) =~= Seq::<RefModel>::empty());
    assert(hints_model(out@) =~= env_hints(*idx, rs.take(0), *env, *h));
    while i < doc.var_refs.len()
        invariant
            rs == doc@.var_refs,
            rs.len() == doc.var_refs@.len(),
            i <= rs.len(),
            env_ok(*env),
            host_ok(*h),
            hints_model(out@) == env_hints(*idx, rs.take(i as int), *env, *h),
        decreases rs.len() - i,
    {
        push_env_hint(&mut out, idx, &doc.var_refs[i], env, h);
        assert(rs.take(i + 1).drop_last() =~= rs.take(i as int));
        i = i + 1;
    }
    assert(rs.take(i as int) =~= rs);
    let ghost first = hints_model(out@);
    let mut j: usize = 0;
    assert(first + user_hints(*idx, doc@, rs.take(0), *h) =~= first);
    while j < doc.var_refs.len()
        invariant
            rs == doc@.var_refs,
            rs.len() == doc.var_refs@.len(),
            j <= rs.len(),
            host_ok(*h),
            hints_model(out@) == first + user_hints(*idx, doc@, rs.take(j as int), *h),
        decreases rs.len() - j,
    {
        push_user_hint(&mut out, idx, doc, &doc.var_refs[j], h);
        assert(rs.take(j + 1).drop_last() =~= rs.take(j as int));
        assert(hints_model(out@) =~= first + user_hints(*idx, doc@, rs.take(j + 1), *h));
        j = j + 1;
    }
    assert(rs.take(j as int) =~= rs);
    let ghost second = hints_model(out@);
    let ghost ms = doc@.meta;
    let mut k: usize = 0;
    assert(second + type_hints(*idx, doc@, ms.take(0)) =~= second);
    while k < doc.meta.len()
        invariant
            ms == doc@.meta,
            ms.len() == doc.meta.model().len(),
            k <= ms.len(),
            hints_model(out@) == second + type_hints(*idx, doc@, ms.take(k as int)),
        decreases ms.len() - k,
    {
        push_type_hint(&mut out, idx, doc, k);
        assert(ms.take(k + 1).drop_last() =~= ms.take(k as int));
        assert(hints_model(out@) =~= second + type_hints(*idx, doc@, ms.take(k + 1)));
        k = k + 1;
    }
    assert(ms.take(k as int) =~= ms);
    out
}

// ── Go to definition ────────────────────────────────────────────────────────

/// Where the user variable referenced at offset `o` is defined.
pub open spec fn definition_model(d: DocModel, idx: LineIndex, o: int) -> Option<TextRange> {
    match first_ref_at(d.var_refs, o) {
        Some(r) => if r.kind is User {
            match dict_get(d.var_def_spans, r.name) {
                Some(s) => Some(range_of(idx, s)),
                None => None,
            }
        } else {
            None
        },
        None => None,
    }
}

/// The range of the definition of the user variable referenced at a
/// (line, column) position.
pub fn definition_at(doc: &Document, idx: &LineIndex, line: u32, character: u32) -> (r: Option<TextRange>)
    requires
        line_start_of(*idx, line) + character <= usize::MAX,
    ensures
        r == definition_model(doc@, *idx, line_start_of(*idx, line) + character),
{
    let o = pos_to_offset(line, character, idx);
    match ref_at(doc, o) {
        Some(i) => {
            let vref = &doc.var_refs[i];
            match vref.kind {
                VarRefKind::User => match doc.var_def_spans.get(vref.name.as_str()) {
                    Some(s) => Some(span_to_range(*s, idx)),
                    None => None,
                },
                _ => None,
            }
        },
        None => None,
    }
}

// ── Document outline ────────────────────────────────────────────────────────

#[derive(Debug, Clone, Copy, PartialEq, Eq, Structural)]
pub enum SymbolKind {
    Namespace,
    Array,
    String,
    Number,
    Boolean,
    Null,
}

/// An entry of the outline; dicts hold their entries as children.
#[derive(Debug)]
pub struct DocumentSymbol {
    pub name: String,
    pub detail: String,
    pub kind: SymbolKind,
    pub range: TextRange,
    pub selection_range: TextRange,
    pub children: Option<Vec<DocumentSymbol>>,
}

pub struct SymbolModel {
    pub name: Seq<char>,
    pub detail: Seq<char>,
    pub kind: SymbolKind,
    pub range: TextRange,
    pub selection_range: TextRange,
    pub children: Option<Seq<SymbolModel>>,
}

impl DocumentSymbol {
    pub open spec fn model(self) -> SymbolModel
        decreases self,
    {
        SymbolModel {
            name: self.name@,
            detail: self.detail@,
            kind: self.kind,
            range: self.range,
            selection_range: self.selection_range,
            children: match self.children {
                Some(v) => Some(
                    Seq::new(
                        v.len() as nat,
                        |i: int|
                            if 0 <= i < v.len() {
                                v[i].model()
                            } else {
                                self.model_leaf()
                            },
                    ),
                ),
                None => None,
            },
        }
    }

    pub open spec fn model_leaf(self) -> SymbolModel {
        SymbolModel {
            name: self.name@,
            detail: self.detail@,
            kind: self.kind,
            range: self.range,
            selection_range: self.selection_range,
            children: None,
        }
    }
}

pub open spec fn symbols_model(v: Seq<DocumentSymbol>) -> Seq<SymbolModel> {
    v.map_values(|s: DocumentSymbol| s.model())
}

/// The detail shown beside a symbol: a dict's or a list's size, else the
/// value's type.
pub open spec fn detail_of(v: ValueModel) -> Seq<char> {
    match v {
        ValueModel::Dict(d) => "dict · "@ + nat_text(d.len()) + " keys"@,
        ValueModel::Array(a) => "list · "@ + nat_text(a.len()) + " items"@,
        _ => type_name_of(v),
    }
}

pub open spec fn kind_of(v: ValueModel) -> SymbolKind {
    match v {
        ValueModel::Dict(_) => SymbolKind::Namespace,
        ValueModel::Array(_) => SymbolKind::Array,
        ValueModel::Str(_) => SymbolKind::String,
        ValueModel::Integer(_) => SymbolKind::Number,
        ValueModel::Float(_) => SymbolKind::Number,
        ValueModel::Bool(_) => SymbolKind::Boolean,
        ValueModel::Null => SymbolKind::Null,
    }
}

/// `prefix.key`, or `key` at the top.
pub open spec fn dotted_key(prefix: Seq<char>, k: Seq<char>) -> Seq<char> {
    if prefix.len() == 0 {
        k
    } else {
        prefix + "."@ + k
    }
}

/// The outline of a dict's entries; a key without a recorded span is placed
/// at offset 0.
pub open spec fn dict_symbols(
    idx: LineIndex,
    spans: Seq<(Seq<char>, Span)>,
    d: Seq<(Seq<char>, ValueModel)>,
    prefix: Seq<char>,
) -> Seq<SymbolModel>
    decreases d,
{
    if d.len() == 0 {
        Seq::empty()
    } else {
        proof {
            assert(decreases_to!(d => d[d.len() - 1]));
        }
        dict_symbols(idx, spans, d.subrange(0, d.len() - 1), prefix).push(
            entry_symbol(idx, spans, d[d.len() - 1].0, d[d.len() - 1].1, prefix),
        )
    }
}

pub open spec fn entry_symbol(
    idx: LineIndex,
    spans: Seq<(Seq<char>, Span)>,
    k: Seq<char>,
    v: ValueModel,
    prefix: Seq<char>,
) -> SymbolModel
    decreases v,
{
    let fqk = dotted_key(prefix, k);
    let span = match dict_get(spans, fqk) {
        Some(s) => s,
        None => Span { start: 0, end: 0 },
    };
    SymbolModel {
        name: k,
        detail: detail_of(v),
        kind: kind_of(v),
        range: range_of(idx, span),
        selection_range: range_of(idx, span),
        children: match v {
            ValueModel::Dict(inner) => Some(dict_symbols(idx, spans, inner, fqk)),
            _ => None,
        },
    }
}

/// The outline entry of a value: `symbol_detail`.
pub fn symbol_detail(v: &Value) -> (r: String)
    ensures
        r@ == detail_of(v.model()),
{
    match v {
        Value::Dict(d) => {
            let mut s = to_chars("dict · ");
            push_all(&mut s, nat_to_text(d.len() as u64).as_slice());
            push_lit(&mut s, " keys");
            string_from(s.as_slice())
        },
        Value::Array(a) => {
            let mut s = to_chars("list · ");
            push_all(&mut s, nat_to_text(a.len() as u64).as_slice());
            push_lit(&mut s, " items");
            string_from(s.as_slice())
        },
        _ => v.type_label(),
    }
}

fn symbols_of(d: &Dict, prefix: &[char], spans: &KeyMap<Span>, idx: &LineIndex) -> (r: Vec<DocumentSymbol>)
    ensures
        symbols_model(r@) == dict_symbols(*idx, spans.model(), d.model(), prefix@),
    decreases d,
{
    let ghost m = d.model();
    proof {
        d.lemma_model();
    }
    let mut out: Vec<DocumentSymbol> = Vec::new();
    let mut i: usize = 0;
    assert(m.take(0) =~= Seq::<(Seq<char>, ValueModel)>::empty());
    assert(symbols_model(out@) =~= dict_symbols(*idx, spans.model(), m.take(0), prefix@));
    while i < d.entries.len()
        invariant
            m == d.model(),
            m.len() == d.entries@.len(),
            i <= m.len(),
            symbols_model(out@) == dict_symbols(*idx, spans.model(), m.take(i as int), prefix@),
        decreases m.len() - i,
    {
        proof {
            assert(decreases_to!(d => d.entries));
            assert(decreases_to!(d.entries => d.entries[i as int]));
            assert(decreases_to!(d.entries[i as int] => d.entries[i as int].1));
            d.lemma_model();
        }
        let k = &d.entries[i].0;
        let v = &d.entries[i].1;
        assert(m[i as int] == (k@, v.model()));
        let mut fqk: Vec<char> = Vec::new();
        if prefix.len() == 0 {
            push_all(&mut fqk, chars_of(k).as_slice());
        } else {
            push_all(&mut fqk, prefix);
            push_lit(&mut fqk, ".");
            push_all(&mut fqk, chars_of(k).as_slice());
        }
        assert(fqk@ == dotted_key(prefix@, k@));
        let fs = string_from(fqk.as_slice());
        let span = match spans.get(fs.as_str()) {
            Some(s) => *s,
            None => Span { start: 0, end: 0 },
        };
        let range = span_to_range(span, idx);
        let kind = match v {
            Value::Dict(_) => SymbolKind::Namespace,
            Value::Array(_) => SymbolKind::Array,
            Value::String(_) => SymbolKind::String,
            Value::Integer(_) => SymbolKind::Number,
            Value::Float(_) => SymbolKind::Number,
            Value::Bool(_) => SymbolKind::Boolean,
            Value::Null => SymbolKind::Null,
        };
        let children = match v {
            Value::Dict(inner) => {
                proof {
                    assert(decreases_to!(d.entries[i as int].1 => inner));
                }
                Some(symbols_of(inner, fqk.as_slice(), spans, idx))
            },
            _ => None,
        };
        let sym = DocumentSymbol {
            name: k.clone(),
            detail: symbol_detail(v),
            kind,
            range,
            selection_range: range,
            children,
        };
        let ghost before = out@;
        out.push(sym);
        proof {
            let t = m.take(i + 1);
            assert(t.subrange(0, t.len() - 1) =~= m.take(i as int));
            assert(t[t.len() - 1] == m[i as int]);
            let s = out@[out@.len() - 1];
            match s.children {
                Some(c) => {
                    assert(s.model().children->Some_0 =~= symbols_model(c@));
                },
                None => {},
            }
            assert(s.model() == entry_symbol(*idx, spans.model(), k@, v.model(), prefix@));
            assert(symbols_model(out@) =~= symbols_model(before).push(s.model()));
        }
        i = i + 1;
    }
    assert(m.take(i as int) =~= m);
    out
}

/// The document outline: one symbol per top-level key, dicts nested.
pub fn document_symbols(doc: &Document, idx: &LineIndex) -> (r: Vec<DocumentSymbol>)
    ensures
        symbols_model(r@) == dict_symbols(*idx, doc@.key_spans, doc@.config, Seq::empty()),
{
    let empty: Vec<char> = Vec::new();
    symbols_of(&doc.config, empty.as_slice(), &doc.key_spans, idx)
}

} // verus!
