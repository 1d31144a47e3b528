//! Document parser.
//!
//! Two passes over the tokens:
//!     1. Walk `[vars]` to collect user variables, so they can be referred
//!        to anywhere below.
//!     2. Walk the whole document, attaching pending annotations to the next
//!        key or section, materialising nested sections, and accumulating
//!        block-dict bodies.

use vstd::prelude::*;
use crate::annotation::{parse_annotation, sp_annotation, AnnModel, Annotation};
use crate::error::{Diagnostic, DiagnosticCode, DiagnosticModel, ParseError, Severity};
use crate::host::{env_ok, host_ok, Builtins, HostQuery, HostReply};
use crate::lexer::{
    section_path, split_section_path, tokenize, tokens_of, toks_model, LineKind, LineToken,
    TokModel,
};
use crate::span::Span;
use crate::text::{
    chars_of, clone_strings, push_all, push_lit, slice_of, starts_with_lit, string_from,
    strings_model, to_chars, trim_end, trimmed_end, wadd, wblen, wbyte_len,
};
use crate::value::{
    dict_find, dict_find_from, dict_get, dict_put, table_put, Dict, KeyMap, Value, ValueModel,
};
use crate::value_parser::{refs_model, res_matches, sp_parse, Ctx, RefModel, ValueParser, VarRef};

verus! {

// ── The document ────────────────────────────────────────────────────────────

pub struct Document {
    /// The parsed top-level dict.
    pub config: Dict,
    /// Annotations by dotted key path (e.g. `"server.port"`).
    pub meta: KeyMap<Vec<Annotation>>,
    /// User-defined `[vars]` entries.
    pub vars: Dict,
    /// Span of each defined dotted key path.
    pub key_spans: KeyMap<Span>,
    /// Span of each key's value expression.
    pub value_spans: KeyMap<Span>,
    /// Span of each `[vars]` entry's key.
    pub var_def_spans: KeyMap<Span>,
    /// Span of each `[vars]` entry's value.
    pub var_value_spans: KeyMap<Span>,
    /// Every `$variable` reference site in the document.
    pub var_refs: Vec<VarRef>,
    /// Diagnostics collected while parsing.
    pub diagnostics: Vec<Diagnostic>,
}

pub struct DocModel {
    pub config: Seq<(Seq<char>, ValueModel)>,
    pub meta: Seq<(Seq<char>, Seq<AnnModel>)>,
    pub vars: Seq<(Seq<char>, ValueModel)>,
    pub key_spans: Seq<(Seq<char>, Span)>,
    pub value_spans: Seq<(Seq<char>, Span)>,
    pub var_def_spans: Seq<(Seq<char>, Span)>,
    pub var_value_spans: Seq<(Seq<char>, Span)>,
    pub var_refs: Seq<RefModel>,
    pub diagnostics: Seq<DiagnosticModel>,
}

pub open spec fn anns_model(v: Seq<Annotation>) -> Seq<AnnModel> {
    v.map_values(|a: Annotation| a@)
}

pub open spec fn meta_model(m: Seq<(Seq<char>, Vec<Annotation>)>) -> Seq<(Seq<char>, Seq<AnnModel>)> {
    m.map_values(|e: (Seq<char>, Vec<Annotation>)| (e.0, anns_model(e.1@)))
}

pub open spec fn diags_model(v: Seq<Diagnostic>) -> Seq<DiagnosticModel> {
    v.map_values(|d: Diagnostic| d@)
}

impl View for Document {
    type V = DocModel;

    open spec fn view(&self) -> DocModel {
        DocModel {
            config: self.config.model(),
            meta: meta_model(self.meta.model()),
            vars: self.vars.model(),
            key_spans: self.key_spans.model(),
            value_spans: self.value_spans.model(),
            var_def_spans: self.var_def_spans.model(),
            var_value_spans: self.var_value_spans.model(),
            var_refs: refs_model(self.var_refs@),
            diagnostics: diags_model(self.diagnostics@),
        }
    }
}

pub open spec fn empty_doc() -> DocModel {
    DocModel {
        config: Seq::empty(),
        meta: Seq::empty(),
        vars: Seq::empty(),
        key_spans: Seq::empty(),
        value_spans: Seq::empty(),
        var_def_spans: Seq::empty(),
        var_value_spans: Seq::empty(),
        var_refs: Seq::empty(),
        diagnostics: Seq::empty(),
    }
}

impl Default for Document {
    fn default() -> (d: Self)
        ensures
            d@ == empty_doc(),
    {
        let d = Document {
            config: Dict::new(),
            meta: KeyMap::new(),
            vars: Dict::new(),
            key_spans: KeyMap::new(),
            value_spans: KeyMap::new(),
            var_def_spans: KeyMap::new(),
            var_value_spans: KeyMap::new(),
            var_refs: Vec::new(),
            diagnostics: Vec::new(),
        };
        assert(d@.meta =~= Seq::<(Seq<char>, Seq<AnnModel>)>::empty());
        assert(d@.var_refs =~= Seq::<RefModel>::empty());
        assert(d@.diagnostics =~= Seq::<DiagnosticModel>::empty());
        d
    }
}

// ── Building blocks ─────────────────────────────────────────────────────────

/// The parts joined with `.`.
pub open spec fn join_dots(parts: Seq<Seq<char>>) -> Seq<char>
    decreases parts.len(),
{
    if parts.len() == 0 {
        Seq::empty()
    } else if parts.len() == 1 {
        parts[0]
    } else {
        join_dots(parts.drop_last()) + seq!['.'] + parts.last()
    }
}

/// The dotted path of `key` inside `section`.
pub open spec fn full_key(section: Seq<Seq<char>>, key: Seq<char>) -> Seq<char> {
    if section.len() == 0 {
        key
    } else {
        join_dots(section) + seq!['.'] + key
    }
}

/// `m` with a dict (kept when already one, fresh otherwise) under every part
/// of `path`, nested.
pub open spec fn touch_path(m: Seq<(Seq<char>, ValueModel)>, path: Seq<Seq<char>>) -> Seq<(Seq<char>, ValueModel)>
    decreases path.len(),
{
    if path.len() == 0 {
        m
    } else {
        let child = match dict_get(m, path[0]) {
            Some(ValueModel::Dict(d)) => d,
            _ => Seq::empty(),
        };
        dict_put(m, path[0], ValueModel::Dict(touch_path(child, path.drop_first())))
    }
}

/// `m` with `key = v` put in the dict at `path` (made as [`touch_path`]
/// does).
pub open spec fn set_path(
    m: Seq<(Seq<char>, ValueModel)>,
    path: Seq<Seq<char>>,
    key: Seq<char>,
    v: ValueModel,
) -> Seq<(Seq<char>, ValueModel)>
    decreases path.len(),
{
    if path.len() == 0 {
        dict_put(m, key, v)
    } else {
        let child = match dict_get(m, path[0]) {
            Some(ValueModel::Dict(d)) => d,
            _ => Seq::empty(),
        };
        dict_put(m, path[0], ValueModel::Dict(set_path(child, path.drop_first(), key, v)))
    }
}

/// Stores a parsed value: into the config at its section, with its key and
/// value spans, and its annotations when there are any.
pub open spec fn store_m(
    d: DocModel,
    section: Seq<Seq<char>>,
    key: Seq<char>,
    key_span: Span,
    value_span: Span,
    v: ValueModel,
    anns: Seq<AnnModel>,
) -> DocModel {
    let fq = full_key(section, key);
    let d1 = DocModel {
        config: set_path(d.config, section, key, v),
        key_spans: table_put(d.key_spans, fq, key_span),
        value_spans: table_put(d.value_spans, fq, value_span),
        ..d
    };
    if anns.len() > 0 {
        DocModel { meta: table_put(d1.meta, fq, anns), ..d1 }
    } else {
        d1
    }
}

/// The code of a value error: an undefined variable, or a syntax error.
pub open spec fn classify(message: Seq<char>) -> DiagnosticCode {
    if "undefined variable"@.len() <= message.len() && message.take("undefined variable"@.len() as int)
        == "undefined variable"@ {
        DiagnosticCode::UndefinedVariable
    } else {
        DiagnosticCode::Syntax
    }
}

pub open spec fn error_diag(message: Seq<char>, span: Span, code: DiagnosticCode) -> DiagnosticModel {
    DiagnosticModel { message, span, severity: Severity::Error, code }
}

pub open spec fn add_diag(d: DocModel, g: DiagnosticModel) -> DocModel {
    DocModel { diagnostics: d.diagnostics.push(g), ..d }
}

/// Character index of the first `@` in `s`, if any.
pub open spec fn first_at(s: Seq<char>, i: int) -> Option<int>
    decreases s.len() - i,
{
    if i < 0 || i >= s.len() {
        None
    } else if s[i] == '@' {
        Some(i)
    } else {
        first_at(s, i + 1)
    }
}

/// Span of an annotation line's `@name…` text: from its `@` in the raw
/// line (its start when there is none), as long as the text.
pub open spec fn ann_span(t: TokModel) -> Span {
    let at = match first_at(t.raw, 0) {
        Some(k) => wblen(t.raw.take(k)),
        None => 0,
    };
    let start = wadd(t.span.start, at);
    Span { start, end: wadd(start, wblen(t.annotation_text)) }
}

pub open spec fn with_vars<E, H>(c: Ctx<E, H>, vars: Seq<(Seq<char>, ValueModel)>) -> Ctx<E, H> {
    Ctx { vars, ..c }
}

// ── Pass 1: variables ───────────────────────────────────────────────────────

pub open spec fn p1_step<E: Fn(&str) -> Option<String>, H: Fn(HostQuery) -> HostReply>(
    c: Ctx<E, H>,
    t: TokModel,
    in_vars: bool,
    d: DocModel,
) -> (bool, DocModel) {
    if t.kind == LineKind::Vars {
        (true, d)
    } else if t.kind == LineKind::Section {
        (false, d)
    } else if !in_vars || t.kind != LineKind::Kv {
        (in_vars, d)
    } else {
        let o = sp_parse(with_vars(c, d.vars), t.value_span, t.value);
        match o.result {
            Ok(v) => (
                in_vars,
                DocModel {
                    var_def_spans: table_put(d.var_def_spans, t.key, t.key_span),
                    var_value_spans: table_put(d.var_value_spans, t.key, t.value_span),
                    vars: dict_put(d.vars, t.key, v),
                    var_refs: d.var_refs + o.refs,
                    ..d
                },
            ),
            Err(e) => (in_vars, add_diag(d, error_diag(e.message, e.span, classify(e.message)))),
        }
    }
}

pub open spec fn p1_from<E: Fn(&str) -> Option<String>, H: Fn(HostQuery) -> HostReply>(
    c: Ctx<E, H>,
    ts: Seq<TokModel>,
    i: int,
    in_vars: bool,
    d: DocModel,
) -> DocModel
    decreases ts.len() - i,
{
    if i < 0 || i >= ts.len() {
        d
    } else {
        let (iv, d2) = p1_step(c, ts[i], in_vars, d);
        p1_from(c, ts, i + 1, iv, d2)
    }
}

// ── Pass 2: the document ────────────────────────────────────────────────────

pub struct P2Model {
    pub in_vars: bool,
    pub section: Seq<Seq<char>>,
    pub pending: Seq<AnnModel>,
    pub in_block: bool,
    pub block_key: Seq<char>,
    pub block_key_span: Span,
    pub block_data: Seq<(Seq<char>, ValueModel)>,
    pub block_pending: Seq<AnnModel>,
    pub block_snap: Seq<AnnModel>,
}

pub open spec fn p2_init() -> P2Model {
    P2Model {
        in_vars: false,
        section: Seq::empty(),
        pending: Seq::empty(),
        in_block: false,
        block_key: Seq::empty(),
        block_key_span: Span::dummy_spec(),
        block_data: Seq::empty(),
        block_pending: Seq::empty(),
        block_snap: Seq::empty(),
    }
}

/// A token inside a block dict: `}#` stores the block under its key with the
/// annotations that preceded its opening line; annotations wait for the next
/// entry; an entry (a trailing `,` allowed) goes into the block.
pub open spec fn block_step<E: Fn(&str) -> Option<String>, H: Fn(HostQuery) -> HostReply>(
    c: Ctx<E, H>,
    t: TokModel,
    s: P2Model,
    d: DocModel,
) -> (P2Model, DocModel) {
    if t.kind == LineKind::BlockClose {
        (
            P2Model {
                in_block: false,
                block_data: Seq::empty(),
                block_pending: Seq::empty(),
                block_snap: Seq::empty(),
                ..s
            },
            store_m(
                d,
                s.section,
                s.block_key,
                s.block_key_span,
                s.block_key_span,
                ValueModel::Dict(s.block_data),
                s.block_snap,
            ),
        )
    } else if t.kind == LineKind::Annotation {
        match sp_annotation(c.host, t.annotation_text, ann_span(t)) {
            Ok(a) => (P2Model { block_pending: s.block_pending.push(a), ..s }, d),
            Err(e) => (s, add_diag(d, error_diag(e.message, e.span, DiagnosticCode::BadAnnotation))),
        }
    } else if t.kind == LineKind::Kv {
        let src0 = trim_end(t.value);
        let src = if src0.len() > 0 && src0.last() == ',' {
            trim_end(src0.drop_last())
        } else {
            src0
        };
        let o = sp_parse(with_vars(c, d.vars), t.value_span, src);
        match o.result {
            Ok(v) => {
                let key = full_key(s.section.push(s.block_key), t.key);
                let d1 = DocModel {
                    key_spans: table_put(d.key_spans, key, t.key_span),
                    value_spans: table_put(d.value_spans, key, t.value_span),
                    ..d
                };
                let d2 = if s.block_pending.len() > 0 {
                    DocModel { meta: table_put(d1.meta, key, s.block_pending), ..d1 }
                } else {
                    d1
                };
                (
                    P2Model {
                        block_data: dict_put(s.block_data, t.key, v),
                        block_pending: Seq::empty(),
                        ..s
                    },
                    DocModel { var_refs: d2.var_refs + o.refs, ..d2 },
                )
            },
            Err(e) => (
                P2Model { block_pending: Seq::empty(), ..s },
                add_diag(d, error_diag(e.message, e.span, classify(e.message))),
            ),
        }
    } else {
        (s, d)
    }
}

/// A section header: a valid path is materialised and becomes the current
/// section, taking the pending annotations; an invalid one is reported.
pub open spec fn section_step(t: TokModel, s: P2Model, d: DocModel) -> (P2Model, DocModel) {
    let path = section_path(t.section);
    if path.len() == 0 || exists|j: int| 0 <= j < path.len() && (#[trigger] path[j]).len() == 0 {
        (
            s,
            add_diag(
                d,
                error_diag("invalid section name: `"@ + t.section + "`"@, t.section_span, DiagnosticCode::Syntax),
            ),
        )
    } else {
        let key = join_dots(path);
        let d1 = DocModel { config: touch_path(d.config, path), ..d };
        let d2 = if s.pending.len() > 0 {
            DocModel { meta: table_put(d1.meta, key, s.pending), ..d1 }
        } else {
            d1
        };
        (
            P2Model { section: path, pending: Seq::empty(), ..s },
            DocModel { key_spans: table_put(d2.key_spans, key, t.section_span), ..d2 },
        )
    }
}

/// One token of pass 2.
pub open spec fn p2_step<E: Fn(&str) -> Option<String>, H: Fn(HostQuery) -> HostReply>(
    c: Ctx<E, H>,
    t: TokModel,
    s: P2Model,
    d: DocModel,
) -> (P2Model, DocModel) {
    if s.in_block {
        block_step(c, t, s, d)
    } else if t.kind == LineKind::Vars {
        (P2Model { in_vars: true, ..s }, d)
    } else if t.kind == LineKind::Blank {
        (s, d)
    } else if t.kind == LineKind::Section {
        section_step(t, P2Model { in_vars: false, ..s }, d)
    } else if s.in_vars {
        (s, d)
    } else if t.kind == LineKind::Annotation {
        match sp_annotation(c.host, t.annotation_text, ann_span(t)) {
            Ok(a) => (P2Model { pending: s.pending.push(a), ..s }, d),
            Err(e) => (s, add_diag(d, error_diag(e.message, e.span, DiagnosticCode::BadAnnotation))),
        }
    } else if t.kind == LineKind::BlockOpen {
        (
            P2Model {
                in_block: true,
                block_key: t.key,
                block_key_span: t.key_span,
                block_data: Seq::empty(),
                block_pending: Seq::empty(),
                block_snap: s.pending,
                pending: Seq::empty(),
                ..s
            },
            d,
        )
    } else if t.kind == LineKind::Kv {
        let o = sp_parse(with_vars(c, d.vars), t.value_span, t.value);
        match o.result {
            Ok(v) => {
                let d1 = store_m(d, s.section, t.key, t.key_span, t.value_span, v, s.pending);
                (P2Model { pending: Seq::empty(), ..s }, DocModel { var_refs: d1.var_refs + o.refs, ..d1 })
            },
            Err(e) => (
                P2Model { pending: Seq::empty(), ..s },
                add_diag(d, error_diag(e.message, e.span, classify(e.message))),
            ),
        }
    } else {
        (s, d)
    }
}

pub open spec fn p2_from<E: Fn(&str) -> Option<String>, H: Fn(HostQuery) -> HostReply>(
    c: Ctx<E, H>,
    ts: Seq<TokModel>,
    i: int,
    s: P2Model,
    d: DocModel,
) -> DocModel
    decreases ts.len() - i,
{
    if i < 0 || i >= ts.len() {
        d
    } else {
        let (s2, d2) = p2_step(c, ts[i], s, d);
        p2_from(c, ts, i + 1, s2, d2)
    }
}

/// The document parsed from `source`.
pub open spec fn sp_document<E: Fn(&str) -> Option<String>, H: Fn(HostQuery) -> HostReply>(
    c: Ctx<E, H>,
    source: Seq<char>,
) -> DocModel {
    let ts = tokens_of(source);
    p2_from(c, ts, 0, p2_init(), p1_from(c, ts, 0, false, empty_doc()))
}

// ── Executable building blocks ──────────────────────────────────────────────

fn join_parts(parts: &Vec<String>) -> (r: Vec<char>)
    ensures
        r@ == join_dots(strings_model(parts@)),
{
    let ghost ps = strings_model(parts@);
    let n = parts.len();
    if n == 0 {
        return Vec::new();
    }
    let mut out = chars_of(&parts[0]);
    assert(ps.take(1) =~= seq![ps[0]]);
    let mut i: usize = 1;
    while i < n
        invariant
            n == parts@.len(),
            ps == strings_model(parts@),
            1 <= i <= n,
            out@ == join_dots(ps.take(i as int)),
        decreases n - i,
    {
        let ghost before = out@;
        out.push('.');
        let p = chars_of(&parts[i]);
        push_all(&mut out, p.as_slice());
        assert(ps.take(i + 1).drop_last() =~= ps.take(i as int));
        assert(out@ =~= before + seq!['.'] + ps[i as int]);
        i = i + 1;
    }
    assert(ps.take(n as int) =~= ps);
    out
}

fn full_key_of(section: &Vec<String>, key: &[char]) -> (r: Vec<char>)
    ensures
        r@ == full_key(strings_model(section@), key@),
{
    if section.len() == 0 {
        slice_of(key, 0, key.len())
    } else {
        let mut s = join_parts(section);
        s.push('.');
        push_all(&mut s, key);
        s
    }
}

proof fn lemma_dict_value_model(d: Dict)
    ensures
        Value::Dict(d).model() == ValueModel::Dict(d.model()),
{
}

/// Puts `key = v` into the dict at `path[k..]`, making the dicts on the way.
fn set_in(d: &mut Dict, path: &Vec<String>, k: usize, key: String, v: Value, touch_only: bool)
    requires
        k <= path@.len(),
    ensures
        !touch_only ==> final(d).model() == set_path(
            old(d).model(),
            strings_model(path@).skip(k as int),
            key@,
            v.model(),
        ),
        touch_only ==> final(d).model() == touch_path(old(d).model(), strings_model(path@).skip(k as int)),
    decreases path@.len() - k,
{
    let ghost ps = strings_model(path@).skip(k as int);
    let ghost m = d.model();
    if k == path.len() {
        assert(ps.len() == 0);
        if !touch_only {
            d.insert(key, v);
        }
        return;
    }
    assert(ps[0] == path@[k as int]@);
    assert(ps.drop_first() =~= strings_model(path@).skip(k + 1));
    let p = chars_of(&path[k]);
    match d.find(p.as_slice()) {
        Some(i) => {
            proof {
                crate::value::lemma_dict_find_from_bound(m, p@, 0);
                d.lemma_model();
            }
            let ghost before = d.entries@;
            let (pk, old) = d.entries.remove(i);
            let mut child = match old {
                Value::Dict(c) => c,
                _ => Dict::new(),
            };
            let ghost cm = child.model();
            assert(cm == match dict_get(m, p@) {
                Some(ValueModel::Dict(x)) => x,
                _ => Seq::<(Seq<char>, ValueModel)>::empty(),
            });
            set_in(&mut child, path, k + 1, key, v, touch_only);
            let ghost nm = child.model();
            d.entries.insert(i, (pk, Value::Dict(child)));
            proof {
                lemma_dict_value_model(child);
                assert forall|j: int| 0 <= j < d.model().len() implies #[trigger] d.model()[j] == m.update(
                    i as int,
                    (p@, ValueModel::Dict(nm)),
                )[j] by {
                    if j != i {
                        assert(d.entries@[j] == before[j]);
                    }
                }
                assert(d.model() =~= m.update(i as int, (p@, ValueModel::Dict(nm))));
            }
        },
        None => {
            let mut child = Dict::new();
            set_in(&mut child, path, k + 1, key, v, touch_only);
            let ghost nm = child.model();
            proof {
                lemma_dict_value_model(child);
            }
            d.insert(path[k].clone(), Value::Dict(child));
        },
    }
}

pub proof fn lemma_meta_find(m: Seq<(Seq<char>, Vec<Annotation>)>, k: Seq<char>, i: int)
    ensures
        dict_find_from(meta_model(m), k, i) == crate::value::dict_find_from(m, k, i),
    decreases m.len() - i,
{
    if !(i < 0 || i >= m.len()) {
        assert(meta_model(m)[i].0 == m[i].0);
        lemma_meta_find(m, k, i + 1);
    }
}

fn put_meta(meta: &mut KeyMap<Vec<Annotation>>, key: &[char], anns: Vec<Annotation>)
    ensures
        meta_model(final(meta).model()) == table_put(meta_model(old(meta).model()), key@, anns_model(anns@)),
{
    let ghost m = meta.model();
    proof {
        lemma_meta_find(m, key@, 0);
    }
    let ghost am = anns_model(anns@);
    meta.insert(string_from(key), anns);
    proof {
        let mm = meta_model(m);
        let r = meta_model(meta.model());
        crate::value::lemma_dict_find_from_bound(m, key@, 0);
        match dict_find(m, key@) {
            Some(i) => {
                assert(r =~= mm.update(i, (key@, am)));
            },
            None => {
                assert(r =~= mm.push((key@, am)));
            },
        }
    }
}

fn add_refs(doc: &mut Document, refs: Vec<VarRef>)
    ensures
        final(doc)@ == (DocModel { var_refs: old(doc)@.var_refs + refs_model(refs@), ..old(doc)@ }),
{
    let mut r = refs;
    let ghost before = doc.var_refs@;
    let ghost rv = r@;
    doc.var_refs.append(&mut r);
    assert(refs_model(doc.var_refs@) =~= refs_model(before) + refs_model(rv));
}

fn add_diagnostic(doc: &mut Document, g: Diagnostic)
    ensures
        final(doc)@ == add_diag(old(doc)@, g@),
{
    let ghost before = doc.diagnostics@;
    let ghost gm = g@;
    doc.diagnostics.push(g);
    assert(diags_model(doc.diagnostics@) =~= diags_model(before).push(gm));
}

/// Stores a value in the document (see [`store_m`]).
fn store(
    doc: &mut Document,
    section: &Vec<String>,
    key: &String,
    key_span: Span,
    value_span: Span,
    value: Value,
    anns: Vec<Annotation>,
)
    ensures
        final(doc)@ == store_m(
            old(doc)@,
            strings_model(section@),
            key@,
            key_span,
            value_span,
            value.model(),
            anns_model(anns@),
        ),
{
    let kc = chars_of(key);
    let fq = full_key_of(section, kc.as_slice());
    set_in(&mut doc.config, section, 0, key.clone(), value, false);
    assert(strings_model(section@).skip(0) =~= strings_model(section@));
    doc.key_spans.insert(string_from(fq.as_slice()), key_span);
    doc.value_spans.insert(string_from(fq.as_slice()), value_span);
    if anns.len() > 0 {
        put_meta(&mut doc.meta, fq.as_slice(), anns);
    }
}

fn classify_error(e: &ParseError) -> (c: DiagnosticCode)
    ensures
        c == classify(e.message_of()),
{
    let m = chars_of(&e.message());
    if starts_with_lit(m.as_slice(), "undefined variable") {
        DiagnosticCode::UndefinedVariable
    } else {
        DiagnosticCode::Syntax
    }
}

fn annotation_span(tok: &LineToken) -> (s: Span)
    ensures
        s == ann_span(tok@),
{
    let raw = chars_of(&tok.raw);
    let mut i: usize = 0;
    let mut at: usize = 0;
    let mut found = false;
    while i < raw.len() && !found
        invariant
            i <= raw@.len(),
            raw@ == tok.raw@,
            !found ==> first_at(raw@, 0) == first_at(raw@, i as int) && at == 0,
            found ==> first_at(raw@, 0) == Some(i as int) && at == wblen(raw@.take(i as int)),
        decreases raw@.len() - i, if found { 0int } else { 1int },
    {
        if raw[i] == '@' {
            let head = slice_of(raw.as_slice(), 0, i);
            at = wbyte_len(head.as_slice());
            found = true;
        } else {
            i = i + 1;
        }
    }
    let ann = chars_of(&tok.annotation_text);
    let start = tok.span.start.wrapping_add(at);
    Span::new(start, start.wrapping_add(wbyte_len(ann.as_slice())))
}

/// Parses one right-hand side against `vars`.
fn parse_rhs<E: Fn(&str) -> Option<String>, H: Fn(HostQuery) -> HostReply>(
    vars: &Dict,
    env: &E,
    host: &H,
    builtins: &Builtins,
    origin: Span,
    text: &str,
) -> (r: (Result<Value, ParseError>, Vec<VarRef>))
    requires
        env_ok(*env),
        host_ok(*host),
    ensures
        res_matches(
            r.0,
            sp_parse(Ctx { vars: vars.model(), env: *env, host: *host, builtins: *builtins }, origin, text@).result,
        ),
        refs_model(r.1@) == sp_parse(
            Ctx { vars: vars.model(), env: *env, host: *host, builtins: *builtins },
            origin,
            text@,
        ).refs,
{
    let mut vp = ValueParser::new(vars, env, host, builtins, origin);
    assert(refs_model(vp.var_refs@) =~= Seq::<RefModel>::empty());
    let r = vp.parse(text);
    assert(Seq::<RefModel>::empty() + sp_parse(
        Ctx { vars: vars.model(), env: *env, host: *host, builtins: *builtins },
        origin,
        text@,
    ).refs =~= sp_parse(Ctx { vars: vars.model(), env: *env, host: *host, builtins: *builtins }, origin, text@).refs);
    (r, vp.var_refs)
}

// ── Pass 1 ──────────────────────────────────────────────────────────────────

pub open spec fn ctx_of<E, H>(env: E, host: H, builtins: Builtins) -> Ctx<E, H> {
    Ctx { vars: Seq::empty(), env, host, builtins }
}

fn p1_apply<E: Fn(&str) -> Option<String>, H: Fn(HostQuery) -> HostReply>(
    tok: &LineToken,
    in_vars: bool,
    doc: &mut Document,
    env: &E,
    host: &H,
    builtins: &Builtins,
) -> (r: bool)
    requires
        env_ok(*env),
        host_ok(*host),
    ensures
        (r, final(doc)@) == p1_step(ctx_of(*env, *host, *builtins), tok@, in_vars, old(doc)@),
{
    if tok.kind == LineKind::Vars {
        return true;
    }
    if tok.kind == LineKind::Section {
        return false;
    }
    if !in_vars || tok.kind != LineKind::Kv {
        return in_vars;
    }
    let (result, refs) = parse_rhs(&doc.vars, env, host, builtins, tok.value_span, tok.value.as_str());
    match result {
        Ok(v) => {
            doc.var_def_spans.insert(tok.key.clone(), tok.key_span);
            doc.var_value_spans.insert(tok.key.clone(), tok.value_span);
            doc.vars.insert(tok.key.clone(), v);
            add_refs(doc, refs);
        },
        Err(e) => {
            let code = classify_error(&e);
            add_diagnostic(doc, e.into_diagnostic(code));
        },
    }
    in_vars
}

fn pass1_vars<E: Fn(&str) -> Option<String>, H: Fn(HostQuery) -> HostReply>(
    tokens: &Vec<LineToken>,
    doc: &mut Document,
    env: &E,
    host: &H,
    builtins: &Builtins,
)
    requires
        env_ok(*env),
        host_ok(*host),
    ensures
        final(doc)@ == p1_from(ctx_of(*env, *host, *builtins), toks_model(tokens@), 0, false, old(doc)@),
{
    let ghost c = ctx_of(*env, *host, *builtins);
    let ghost ts = toks_model(tokens@);
    let mut in_vars = false;
    let mut i: usize = 0;
    while i < tokens.len()
        invariant
            ts == toks_model(tokens@),
            i <= tokens@.len(),
            c == ctx_of(*env, *host, *builtins),
            env_ok(*env),
            host_ok(*host),
            p1_from(c, ts, 0, false, old(doc)@) == p1_from(c, ts, i as int, in_vars, doc@),
        decreases tokens@.len() - i,
    {
        let tok = &tokens[i];
        assert(ts[i as int] == tok@);
        in_vars = p1_apply(tok, in_vars, doc, env, host, builtins);
        i = i + 1;
    }
}

// ── Pass 2 ──────────────────────────────────────────────────────────────────

struct Pass2 {
    in_vars: bool,
    section: Vec<String>,
    pending: Vec<Annotation>,
    in_block: bool,
    block_key: String,
    block_key_span: Span,
    block_data: Dict,
    block_pending: Vec<Annotation>,
    block_snap: Vec<Annotation>,
}

impl Pass2 {
    closed spec fn model(self) -> P2Model {
        P2Model {
            in_vars: self.in_vars,
            section: strings_model(self.section@),
            pending: anns_model(self.pending@),
            in_block: self.in_block,
            block_key: self.block_key@,
            block_key_span: self.block_key_span,
            block_data: self.block_data.model(),
            block_pending: anns_model(self.block_pending@),
            block_snap: anns_model(self.block_snap@),
        }
    }
}

fn take_anns(v: &mut Vec<Annotation>) -> (r: Vec<Annotation>)
    ensures
        r@ == old(v)@,
        final(v)@.len() == 0,
{
    let mut out: Vec<Annotation> = Vec::new();
    std::mem::swap(&mut out, v);
    out
}

proof fn lemma_no_anns(v: Seq<Annotation>)
    requires
        v.len() == 0,
    ensures
        anns_model(v) == Seq::<AnnModel>::empty(),
{
    assert(anns_model(v) =~= Seq::<AnnModel>::empty());
}

fn ann_apply<H: Fn(HostQuery) -> HostReply>(
    list: &mut Vec<Annotation>,
    tok: &LineToken,
    doc: &mut Document,
    host: &H,
)
    requires
        host_ok(*host),
    ensures
        match sp_annotation(*host, tok@.annotation_text, ann_span(tok@)) {
            Ok(a) => anns_model(final(list)@) == anns_model(old(list)@).push(a) && final(doc)@ == old(doc)@,
            Err(e) => final(list)@ == old(list)@ && final(doc)@ == add_diag(
                old(doc)@,
                error_diag(e.message, e.span, DiagnosticCode::BadAnnotation),
            ),
        },
{
    let sp = annotation_span(tok);
    match parse_annotation(tok.annotation_text.as_str(), sp, host) {
        Ok(a) => {
            let ghost before = list@;
            let ghost am = a@;
            list.push(a);
            assert(anns_model(list@) =~= anns_model(before).push(am));
        },
        Err(e) => {
            add_diagnostic(doc, e.into_diagnostic(DiagnosticCode::BadAnnotation));
        },
    }
}

fn section_apply(st: &mut Pass2, tok: &LineToken, doc: &mut Document)
    ensures
        (final(st).model(), final(doc)@) == section_step(tok@, old(st).model(), old(doc)@),
{
    let path = split_section_path(tok.section.as_str());
    let ghost pm = strings_model(path@);
    let mut bad = path.len() == 0;
    let mut j: usize = 0;
    while j < path.len() && !bad
        invariant
            pm == strings_model(path@),
            j <= path@.len(),
            !bad ==> path@.len() > 0 && forall|q: int| 0 <= q < j ==> (#[trigger] pm[q]).len() != 0,
            bad ==> path@.len() == 0 || exists|q: int| 0 <= q < path@.len() && (#[trigger] pm[q]).len() == 0,
        decreases path@.len() - j, if bad { 0int } else { 1int },
    {
        if path[j].as_str().unicode_len() == 0 {
            assert(pm[j as int].len() == 0);
            bad = true;
        } else {
            j = j + 1;
        }
    }
    if bad {
        let mut m = to_chars("invalid section name: `");
        let sc = chars_of(&tok.section);
        push_all(&mut m, sc.as_slice());
        push_lit(&mut m, "`");
        add_diagnostic(doc, Diagnostic::error(string_from(m.as_slice()), tok.section_span, DiagnosticCode::Syntax));
        return;
    }
    let e = Vec::new();
    set_in(&mut doc.config, &path, 0, string_from(e.as_slice()), Value::Null, true);
    assert(pm.skip(0) =~= pm);
    let key = join_parts(&path);
    if st.pending.len() > 0 {
        let p = take_anns(&mut st.pending);
        put_meta(&mut doc.meta, key.as_slice(), p);
    }
    proof {
        lemma_no_anns(st.pending@);
    }
    doc.key_spans.insert(string_from(key.as_slice()), tok.section_span);
    st.section = path;
}

fn kv_apply<E: Fn(&str) -> Option<String>, H: Fn(HostQuery) -> HostReply>(
    st: &mut Pass2,
    tok: &LineToken,
    doc: &mut Document,
    env: &E,
    host: &H,
    builtins: &Builtins,
)
    requires
        env_ok(*env),
        host_ok(*host),
        !old(st).in_block,
        !old(st).in_vars,
        tok@.kind == LineKind::Kv,
    ensures
        (final(st).model(), final(doc)@) == p2_step(ctx_of(*env, *host, *builtins), tok@, old(st).model(), old(doc)@),
{
    let (result, refs) = parse_rhs(&doc.vars, env, host, builtins, tok.value_span, tok.value.as_str());
    let p = take_anns(&mut st.pending);
    proof {
        lemma_no_anns(st.pending@);
    }
    match result {
        Ok(v) => {
            store(doc, &st.section, &tok.key, tok.key_span, tok.value_span, v, p);
            add_refs(doc, refs);
        },
        Err(e) => {
            let code = classify_error(&e);
            add_diagnostic(doc, e.into_diagnostic(code));
        },
    }
}

fn block_apply<E: Fn(&str) -> Option<String>, H: Fn(HostQuery) -> HostReply>(
    st: &mut Pass2,
    tok: &LineToken,
    doc: &mut Document,
    env: &E,
    host: &H,
    builtins: &Builtins,
)
    requires
        env_ok(*env),
        host_ok(*host),
    ensures
        (final(st).model(), final(doc)@) == block_step(ctx_of(*env, *host, *builtins), tok@, old(st).model(), old(doc)@),
{
    if tok.kind == LineKind::BlockClose {
        let mut data = Dict::new();
        std::mem::swap(&mut data, &mut st.block_data);
        let snap = take_anns(&mut st.block_snap);
        proof {
            lemma_dict_value_model(data);
        }
        store(doc, &st.section, &st.block_key, st.block_key_span, st.block_key_span, Value::Dict(data), snap);
        st.block_pending = Vec::new();
        st.in_block = false;
        proof {
            lemma_no_anns(st.block_snap@);
            lemma_no_anns(st.block_pending@);
        }
    } else if tok.kind == LineKind::Annotation {
        ann_apply(&mut st.block_pending, tok, doc, host);
    } else if tok.kind == LineKind::Kv {
        let v0 = chars_of(&tok.value);
        let src0 = trimmed_end(v0.as_slice());
        let n = src0.len();
        let src = if n > 0 && src0[n - 1] == ',' {
            let head = slice_of(src0.as_slice(), 0, n - 1);
            assert(head@ =~= src0@.drop_last());
            trimmed_end(head.as_slice())
        } else {
            src0
        };
        let text = string_from(src.as_slice());
        let (result, refs) = parse_rhs(&doc.vars, env, host, builtins, tok.value_span, text.as_str());
        match result {
            Ok(v) => {
                st.block_data.insert(tok.key.clone(), v);
                let mut sec2 = clone_strings(&st.section);
                let ghost s0 = strings_model(sec2@);
                sec2.push(st.block_key.clone());
                assert(strings_model(sec2@) =~= s0.push(st.block_key@));
                let kc = chars_of(&tok.key);
                let key = full_key_of(&sec2, kc.as_slice());
                doc.key_spans.insert(string_from(key.as_slice()), tok.key_span);
                doc.value_spans.insert(string_from(key.as_slice()), tok.value_span);
                if st.block_pending.len() > 0 {
                    let p = take_anns(&mut st.block_pending);
                    put_meta(&mut doc.meta, key.as_slice(), p);
                }
                proof {
                    lemma_no_anns(st.block_pending@);
                }
                add_refs(doc, refs);
            },
            Err(e) => {
                let code = classify_error(&e);
                add_diagnostic(doc, e.into_diagnostic(code));
                st.block_pending = Vec::new();
                proof {
                    lemma_no_anns(st.block_pending@);
                }
            },
        }
    }
}

fn p2_apply<E: Fn(&str) -> Option<String>, H: Fn(HostQuery) -> HostReply>(
    st: &mut Pass2,
    tok: &LineToken,
    doc: &mut Document,
    env: &E,
    host: &H,
    builtins: &Builtins,
)
    requires
        env_ok(*env),
        host_ok(*host),
    ensures
        (final(st).model(), final(doc)@) == p2_step(ctx_of(*env, *host, *builtins), tok@, old(st).model(), old(doc)@),
{
    if st.in_block {
        block_apply(st, tok, doc, env, host, builtins);
        return;
    }
    if tok.kind == LineKind::Vars {
        st.in_vars = true;
        return;
    }
    if tok.kind == LineKind::Blank {
        return;
    }
    if tok.kind == LineKind::Section {
        st.in_vars = false;
        section_apply(st, tok, doc);
        return;
    }
    if st.in_vars {
        return;
    }
    if tok.kind == LineKind::Annotation {
        ann_apply(&mut st.pending, tok, doc, host);
        return;
    }
    if tok.kind == LineKind::BlockOpen {
        st.in_block = true;
        st.block_key = tok.key.clone();
        st.block_key_span = tok.key_span;
        st.block_data = Dict::new();
        st.block_pending = Vec::new();
        st.block_snap = take_anns(&mut st.pending);
        proof {
            lemma_no_anns(st.pending@);
            lemma_no_anns(st.block_pending@);
        }
        return;
    }
    if tok.kind == LineKind::Kv {
        kv_apply(st, tok, doc, env, host, builtins);
    }
}

fn pass2_main<E: Fn(&str) -> Option<String>, H: Fn(HostQuery) -> HostReply>(
    tokens: &Vec<LineToken>,
    doc: &mut Document,
    env: &E,
    host: &H,
    builtins: &Builtins,
)
    requires
        env_ok(*env),
        host_ok(*host),
    ensures
        final(doc)@ == p2_from(ctx_of(*env, *host, *builtins), toks_model(tokens@), 0, p2_init(), old(doc)@),
{
    let ghost c = ctx_of(*env, *host, *builtins);
    let ghost ts = toks_model(tokens@);
    let e: Vec<char> = Vec::new();
    let mut st = Pass2 {
        in_vars: false,
        section: Vec::new(),
        pending: Vec::new(),
        in_block: false,
        block_key: string_from(e.as_slice()),
        block_key_span: Span::dummy(),
        block_data: Dict::new(),
        block_pending: Vec::new(),
        block_snap: Vec::new(),
    };
    proof {
        lemma_no_anns(st.pending@);
        lemma_no_anns(st.block_pending@);
        lemma_no_anns(st.block_snap@);
        assert(strings_model(st.section@) =~= Seq::<Seq<char>>::empty());
    }
    let mut i: usize = 0;
    while i < tokens.len()
        invariant
            ts == toks_model(tokens@),
            i <= tokens@.len(),
            c == ctx_of(*env, *host, *builtins),
            env_ok(*env),
            host_ok(*host),
            p2_from(c, ts, 0, p2_init(), old(doc)@) == p2_from(c, ts, i as int, st.model(), doc@),
        decreases tokens@.len() - i,
    {
        let tok = &tokens[i];
        assert(ts[i as int] == tok@);
        p2_apply(&mut st, tok, doc, env, host, builtins);
        i = i + 1;
    }
}

/// Parses a document. `env` answers `$ENV.X`, `host` does the floating
/// point, and `builtins` holds the values of the builtin variables.
pub fn parse_with_env<E: Fn(&str) -> Option<String>, H: Fn(HostQuery) -> HostReply>(
    source: &str,
    env: &E,
    host: &H,
    builtins: &Builtins,
) -> (doc: Document)
    requires
        env_ok(*env),
        host_ok(*host),
    ensures
        doc@ == sp_document(ctx_of(*env, *host, *builtins), source@),
{
    let mut doc = Document::default();
    let tokens = tokenize(source);
    pass1_vars(&tokens, &mut doc, env, host, builtins);
    pass2_main(&tokens, &mut doc, env, host, builtins);
    doc
}

} // verus!
