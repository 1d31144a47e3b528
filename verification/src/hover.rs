//! Hovers: the text an editor shows for the variable reference or the key
//! under the cursor.

use vstd::prelude::*;
use crate::annotation::{AnnModel, Annotation, AnnotationArg, ArgModel};
use crate::display::{disp_value, display_chars};
use crate::dumper::{fmt_ann, format_annotation};
use crate::editor::{any_named, has_name};
use crate::host::{ask_env, env_ok, env_reply, host_ok, HostQuery, HostReply};
use crate::parser::{anns_model, DocModel, Document};
use crate::span::{LineIndex, Span};
use crate::text::{
    chars_of, eq_lit, push_all, push_lit, slice_of, string_from, to_chars, trim, trimmed,
};
use crate::validator::{resolve, resolve_value};
use crate::value::{dict_get, type_name_of};
use crate::value_parser::{RefModel, VarRef, VarRefKind};

verus! {

// ── Positions ───────────────────────────────────────────────────────────────

/// A range of (line, column) positions.
#[derive(Debug, Clone, Copy, PartialEq, Eq, Structural)]
pub struct TextRange {
    pub start_line: u32,
    pub start_col: u32,
    pub end_line: u32,
    pub end_col: u32,
}

pub open spec fn range_of(idx: LineIndex, s: Span) -> TextRange {
    TextRange {
        start_line: idx.pos(s.start).0,
        start_col: idx.pos(s.start).1,
        end_line: idx.pos(s.end).0,
        end_col: idx.pos(s.end).1,
    }
}

/// The positions of a span's two ends.
pub fn span_to_range(span: Span, idx: &LineIndex) -> (r: TextRange)
    ensures
        r == range_of(*idx, span),
{
    let (sl, sc) = idx.position(span.start);
    let (el, ec) = idx.position(span.end);
    TextRange { start_line: sl, start_col: sc, end_line: el, end_col: ec }
}

/// Offset where `line` starts, or the text's length past the last line.
pub open spec fn line_start_of(idx: LineIndex, line: u32) -> usize {
    if (line as int) < idx.starts().len() {
        idx.starts()[line as int]
    } else {
        idx.text_len()
    }
}

/// The byte offset of a (line, column) position: the line's start plus the
/// column.
pub fn pos_to_offset(line: u32, character: u32, idx: &LineIndex) -> (r: usize)
    requires
        line_start_of(*idx, line) + character <= usize::MAX,
    ensures
        r == line_start_of(*idx, line) + character,
{
    idx.line_start(line as usize) + character as usize
}

// ── Help texts ──────────────────────────────────────────────────────────────

pub open spec fn builtin_doc_text(name: Seq<char>) -> Seq<char> {
    if name == "NOW"@ {
        "\nCurrent UTC timestamp at parse time (ISO 8601)."@
    } else if name == "TODAY"@ {
        "\nCurrent UTC date at parse time (YYYY-MM-DD)."@
    } else if name == "TRUE"@ {
        "\nBoolean `true`."@
    } else if name == "FALSE"@ {
        "\nBoolean `false`."@
    } else if name == "NULL"@ {
        "\nThe null value."@
    } else if name == "PID"@ {
        "\nProcess ID of the parser."@
    } else if name == "HOSTNAME"@ {
        "\nMachine hostname."@
    } else if name == "PLATFORM"@ {
        "\nLowercased OS name (e.g. `windows`, `linux`)."@
    } else if name == "CWD"@ {
        "\nCurrent working directory of the parser."@
    } else {
        ""@
    }
}

/// What a builtin variable holds; empty for other names.
pub fn builtin_doc(name: &str) -> (r: &'static str)
    ensures
        r@ == builtin_doc_text(name@),
{
    let n = to_chars(name);
    let s = n.as_slice();
    if eq_lit(s, "NOW") {
        "\nCurrent UTC timestamp at parse time (ISO 8601)."
    } else if eq_lit(s, "TODAY") {
        "\nCurrent UTC date at parse time (YYYY-MM-DD)."
    } else if eq_lit(s, "TRUE") {
        "\nBoolean `true`."
    } else if eq_lit(s, "FALSE") {
        "\nBoolean `false`."
    } else if eq_lit(s, "NULL") {
        "\nThe null value."
    } else if eq_lit(s, "PID") {
        "\nProcess ID of the parser."
    } else if eq_lit(s, "HOSTNAME") {
        "\nMachine hostname."
    } else if eq_lit(s, "PLATFORM") {
        "\nLowercased OS name (e.g. `windows`, `linux`)."
    } else if eq_lit(s, "CWD") {
        "\nCurrent working directory of the parser."
    } else {
        ""
    }
}

// ── Hover contents ──────────────────────────────────────────────────────────

/// Markdown text over a range.
#[derive(Debug)]
pub struct Hover {
    pub markdown: String,
    pub range: TextRange,
}

pub struct HoverModel {
    pub markdown: Seq<char>,
    pub range: TextRange,
}

impl View for Hover {
    type V = HoverModel;

    open spec fn view(&self) -> HoverModel {
        HoverModel { markdown: self.markdown@, range: self.range }
    }
}

/// The hover of a variable reference: its kind, and its value where one is
/// known (a user variable's definition, the environment's current value).
pub open spec fn var_hover_md<E: Fn(&str) -> Option<String>, H: Fn(HostQuery) -> HostReply>(
    d: DocModel,
    r: RefModel,
    env: E,
    h: H,
) -> Seq<char> {
    match r.kind {
        VarRefKind::User => "`$"@ + r.name + "` &nbsp;·&nbsp; **user variable**\n"@ + match dict_get(
            d.vars,
            r.name,
        ) {
            Some(v) => "\n*type:* `"@ + type_name_of(v) + "`\n"@ + "\n```tomlplus\n"@ + r.name + " = "@
                + disp_value(h, v) + "\n```"@,
            None => Seq::empty(),
        },
        VarRefKind::Builtin => "`$"@ + r.name + "` &nbsp;·&nbsp; **built-in**\n"@ + builtin_doc_text(
            r.name,
        ),
        VarRefKind::Env => "`$ENV."@ + r.name + "` &nbsp;·&nbsp; **environment variable**\n"@
            + match env_reply(env, r.name) {
            Some(v) => "\n*currently set:* `"@ + v + "`"@,
            None => "\n*currently:* `<unset>` — use `??` for a fallback"@,
        },
    }
}

/// The first annotation with the given name.
pub open spec fn first_named(anns: Seq<AnnModel>, n: Seq<char>) -> Option<AnnModel>
    decreases anns.len(),
{
    if anns.len() == 0 {
        None
    } else if anns[0].name == n {
        Some(anns[0])
    } else {
        first_named(anns.skip(1), n)
    }
}

pub open spec fn dep_chip(a: AnnModel) -> Seq<char> {
    match a.arg {
        ArgModel::Str(s) => "⚠ deprecated — "@ + s,
        _ => "⚠ deprecated"@,
    }
}

/// `@required` and the deprecation notice, on a line of their own.
pub open spec fn chips_text(anns: Seq<AnnModel>) -> Seq<char> {
    let req = has_name(anns, "required"@);
    match first_named(anns, "deprecated"@) {
        Some(a) => "\n"@ + (if req {
            "`@required` &nbsp;·&nbsp; "@
        } else {
            Seq::empty()
        }) + dep_chip(a) + "\n"@,
        None => if req {
            "\n`@required`\n"@
        } else {
            Seq::empty()
        },
    }
}

/// One list line per annotation.
pub open spec fn ann_lines<H: Fn(HostQuery) -> HostReply>(h: H, anns: Seq<AnnModel>) -> Seq<char>
    decreases anns.len(),
{
    if anns.len() == 0 {
        Seq::empty()
    } else {
        ann_lines(h, anns.drop_last()) + "- `"@ + fmt_ann(h, anns.last()) + "`\n"@
    }
}

/// Index of the first `=` at or after `i`.
pub open spec fn eq_index(s: Seq<char>, i: int) -> Option<int>
    decreases s.len() - i,
{
    if i < 0 || i >= s.len() {
        None
    } else if s[i] == '=' {
        Some(i)
    } else {
        eq_index(s, i + 1)
    }
}

/// Number of `"` in a row from `i` on.
pub open spec fn lead_quotes(s: Seq<char>, i: int) -> nat
    decreases s.len() - i,
{
    if 0 <= i < s.len() && s[i] == '"' {
        1 + lead_quotes(s, i + 1)
    } else {
        0
    }
}

/// Number of `"` in a row ending just before `j`.
pub open spec fn trail_quotes(s: Seq<char>, j: int) -> nat
    decreases j,
{
    if 0 < j <= s.len() && s[j - 1] == '"' {
        1 + trail_quotes(s, j - 1)
    } else {
        0
    }
}

/// `s` with every leading and trailing `"` removed.
pub open spec fn strip_dquotes(s: Seq<char>) -> Seq<char> {
    let r = s.skip(lead_quotes(s, 0) as int);
    r.take(r.len() - trail_quotes(r, r.len() as int))
}

/// A `@tag: key = value` annotation's key and value, both trimmed, the value
/// also stripped of double quotes.
pub open spec fn tag_of(a: AnnModel) -> Option<(Seq<char>, Seq<char>)> {
    if a.name == "tag"@ {
        match a.arg {
            ArgModel::Str(s) => match eq_index(s, 0) {
                Some(p) => Some((trim(s.take(p)), strip_dquotes(trim(s.skip(p + 1))))),
                None => None,
            },
            _ => None,
        }
    } else {
        None
    }
}

pub open spec fn tag_pairs(anns: Seq<AnnModel>) -> Seq<(Seq<char>, Seq<char>)>
    decreases anns.len(),
{
    if anns.len() == 0 {
        Seq::empty()
    } else {
        tag_pairs(anns.drop_last()) + match tag_of(anns.last()) {
            Some(p) => seq![p],
            None => Seq::empty(),
        }
    }
}

pub open spec fn tag_lines(ps: Seq<(Seq<char>, Seq<char>)>) -> Seq<char>
    decreases ps.len(),
{
    if ps.len() == 0 {
        Seq::empty()
    } else {
        tag_lines(ps.drop_last()) + "- *"@ + ps.last().0 + "* = `"@ + ps.last().1 + "`\n"@
    }
}

pub open spec fn tags_text(anns: Seq<AnnModel>) -> Seq<char> {
    let ps = tag_pairs(anns);
    if ps.len() > 0 {
        "\n**Tags**\n"@ + tag_lines(ps)
    } else {
        Seq::empty()
    }
}

/// The annotation part of a key's hover.
pub open spec fn anns_hover<H: Fn(HostQuery) -> HostReply>(h: H, anns: Seq<AnnModel>) -> Seq<char> {
    chips_text(anns) + "\n**Annotations**\n"@ + ann_lines(h, anns) + tags_text(anns)
}

/// The hover of a key: its type and value where it resolves, then its
/// annotations and tags.
pub open spec fn key_hover_md<H: Fn(HostQuery) -> HostReply>(h: H, d: DocModel, key: Seq<char>) -> Seq<char> {
    "**`"@ + key + "`**"@ + match resolve(d.config, key) {
        Some(v) => " &nbsp;·&nbsp; *"@ + type_name_of(v) + "*\n"@ + "\n```tomlplus\n= "@ + disp_value(h, v)
            + "\n```\n"@,
        None => "\n"@,
    } + match dict_get(d.meta, key) {
        Some(anns) => anns_hover(h, anns),
        None => Seq::empty(),
    }
}

// ── Building the texts ──────────────────────────────────────────────────────

fn var_hover_chars<E: Fn(&str) -> Option<String>, H: Fn(HostQuery) -> HostReply>(
    doc: &Document,
    r: &VarRef,
    env: &E,
    h: &H,
) -> (out: Vec<char>)
    requires
        env_ok(*env),
        host_ok(*h),
    ensures
        out@ == var_hover_md(doc@, r.model(), *env, *h),
{
    let name = chars_of(&r.name);
    let mut out: Vec<char> = Vec::new();
    match r.kind {
        VarRefKind::User => {
            push_lit(&mut out, "`$");
            push_all(&mut out, name.as_slice());
            push_lit(&mut out, "` &nbsp;·&nbsp; **user variable**\n");
            let ghost head = out@;
            match doc.vars.get(r.name.as_str()) {
                Some(v) => {
                    push_lit(&mut out, "\n*type:* `");
                    push_all(&mut out, chars_of(&v.type_label()).as_slice());
                    push_lit(&mut out, "`\n");
                    push_lit(&mut out, "\n```tomlplus\n");
                    push_all(&mut out, name.as_slice());
                    push_lit(&mut out, " = ");
                    push_all(&mut out, display_chars(h, v).as_slice());
                    push_lit(&mut out, "\n```");
                },
                None => {
                    assert(out@ =~= head + Seq::<char>::empty());
                },
            }
        },
        VarRefKind::Builtin => {
            push_lit(&mut out, "`$");
            push_all(&mut out, name.as_slice());
            push_lit(&mut out, "` &nbsp;·&nbsp; **built-in**\n");
            push_lit(&mut out, builtin_doc(r.name.as_str()));
        },
        VarRefKind::Env => {
            push_lit(&mut out, "`$ENV.");
            push_all(&mut out, name.as_slice());
            push_lit(&mut out, "` &nbsp;·&nbsp; **environment variable**\n");
            match ask_env(env, name.as_slice()) {
                Some(v) => {
                    push_lit(&mut out, "\n*currently set:* `");
                    push_all(&mut out, chars_of(&v).as_slice());
                    push_lit(&mut out, "`");
                },
                None => {
                    push_lit(&mut out, "\n*currently:* `<unset>` — use `??` for a fallback");
                },
            }
        },
    }
    assert(out@ =~= var_hover_md(doc@, r.model(), *env, *h));
    out
}

/// The hover of a variable reference, over the reference's range.
pub fn hover_for_var<E: Fn(&str) -> Option<String>, H: Fn(HostQuery) -> HostReply>(
    doc: &Document,
    idx: &LineIndex,
    vref: &VarRef,
    env: &E,
    h: &H,
) -> (r: Hover)
    requires
        env_ok(*env),
        host_ok(*h),
    ensures
        r@ == (HoverModel { markdown: var_hover_md(doc@, vref.model(), *env, *h), range: range_of(*idx, vref.span) }),
{
    let c = var_hover_chars(doc, vref, env, h);
    Hover { markdown: string_from(c.as_slice()), range: span_to_range(vref.span, idx) }
}

fn first_named_at(anns: &Vec<Annotation>, n: &str) -> (r: Option<usize>)
    ensures
        match first_named(anns_model(anns@), n@) {
            Some(a) => r is Some && r->0 < anns@.len() && anns@[r->0 as int]@ == a,
            None => r is None,
        },
{
    let ghost am = anns_model(anns@);
    let mut i: usize = 0;
    assert(am.skip(0) =~= am);
    while i < anns.len()
        invariant
            am == anns_model(anns@),
            i <= am.len(),
            first_named(am, n@) == first_named(am.skip(i as int), n@),
        decreases am.len() - i,
    {
        assert(am.skip(i as int)[0] == am[i as int]);
        assert(am.skip(i as int).skip(1) =~= am.skip(i + 1));
        if eq_lit(chars_of(&anns[i].name).as_slice(), n) {
            return Some(i);
        }
        i = i + 1;
    }
    None
}

fn strip_dquote_chars(s: &[char]) -> (r: Vec<char>)
    ensures
        r@ == strip_dquotes(s@),
{
    let mut a: usize = 0;
    while a < s.len() && s[a] == '"'
        invariant
            a <= s@.len(),
            lead_quotes(s@, 0) == a + lead_quotes(s@, a as int),
        decreases s@.len() - a,
    {
        a = a + 1;
    }
    let rest = slice_of(s, a, s.len());
    assert(rest@ =~= s@.skip(a as int));
    let mut b: usize = rest.len();
    while b > 0 && rest[b - 1] == '"'
        invariant
            b <= rest@.len(),
            trail_quotes(rest@, rest@.len() as int) == (rest@.len() - b) + trail_quotes(rest@, b as int),
        decreases b,
    {
        b = b - 1;
    }
    let r = slice_of(rest.as_slice(), 0, b);
    assert(r@ =~= rest@.take(b as int));
    r
}

pub(crate) fn tag_chars(a: &Annotation) -> (r: Option<(Vec<char>, Vec<char>)>)
    ensures
        match tag_of(a@) {
            Some(p) => r matches Some((k, v)) && k@ == p.0 && v@ == p.1,
            None => r is None,
        },
{
    if !eq_lit(chars_of(&a.name).as_slice(), "tag") {
        return None;
    }
    match &a.arg {
        AnnotationArg::String(s) => {
            let c = chars_of(s);
            let mut p: usize = 0;
            while p < c.len() && c[p] != '='
                invariant
                    p <= c@.len(),
                    eq_index(c@, 0) == eq_index(c@, p as int),
                decreases c@.len() - p,
            {
                p = p + 1;
            }
            if p == c.len() {
                return None;
            }
            let k = slice_of(c.as_slice(), 0, p);
            let v = slice_of(c.as_slice(), p + 1, c.len());
            assert(k@ =~= c@.take(p as int));
            assert(v@ =~= c@.skip(p + 1));
            let kt = trimmed(k.as_slice());
            let vt = trimmed(v.as_slice());
            let vs = strip_dquote_chars(vt.as_slice());
            Some((kt, vs))
        },
        _ => None,
    }
}

fn anns_hover_chars<H: Fn(HostQuery) -> HostReply>(anns: &Vec<Annotation>, h: &H) -> (out: Vec<char>)
    requires
        host_ok(*h),
    ensures
        out@ == anns_hover(*h, anns_model(anns@)),
{
    let ghost am = anns_model(anns@);
    let mut out: Vec<char> = Vec::new();
    let req = any_named(anns, "required");
    match first_named_at(anns, "deprecated") {
        Some(i) => {
            push_lit(&mut out, "\n");
            if req {
                push_lit(&mut out, "`@required` &nbsp;·&nbsp; ");
            }
            match &anns[i].arg {
                AnnotationArg::String(s) => {
                    push_lit(&mut out, "⚠ deprecated — ");
                    push_all(&mut out, chars_of(s).as_slice());
                },
                _ => {
                    push_lit(&mut out, "⚠ deprecated");
                },
            }
            push_lit(&mut out, "\n");
        },
        None => {
            if req {
                push_lit(&mut out, "\n`@required`\n");
            }
        },
    }
    assert(out@ =~= chips_text(am));
    push_lit(&mut out, "\n**Annotations**\n");
    let ghost head = out@;
    let mut i: usize = 0;
    assert(am.take(0) =~= Seq::<AnnModel>::empty());
    assert(out@ =~= head + ann_lines(*h, am.take(0)));
    while i < anns.len()
        invariant
            am == anns_model(anns@),
            i <= am.len(),
            host_ok(*h),
            out@ == head + ann_lines(*h, am.take(i as int)),
        decreases am.len() - i,
    {
        push_lit(&mut out, "- `");
        push_all(&mut out, format_annotation(&anns[i], h).as_slice());
        push_lit(&mut out, "`\n");
        assert(am.take(i + 1).drop_last() =~= am.take(i as int));
        assert(out@ =~= head + ann_lines(*h, am.take(i + 1)));
        i = i + 1;
    }
    assert(am.take(i as int) =~= am);
    let mut keys: Vec<Vec<char>> = Vec::new();
    let mut vals: Vec<Vec<char>> = Vec::new();
    let mut j: usize = 0;
    assert(am.take(0) =~= Seq::<AnnModel>::empty());
    while j < anns.len()
        invariant
            am == anns_model(anns@),
            j <= am.len(),
            keys@.len() == vals@.len(),
            keys@.len() == tag_pairs(am.take(j as int)).len(),
            forall|q: int|
                0 <= q < keys@.len() ==> (#[trigger] keys@[q])@ == tag_pairs(am.take(j as int))[q].0
                    && vals@[q]@ == tag_pairs(am.take(j as int))[q].1,
        decreases am.len() - j,
    {
        let ghost before = tag_pairs(am.take(j as int));
        assert(am.take(j + 1).drop_last() =~= am.take(j as int));
        assert(am.take(j + 1).last() == anns@[j as int]@);
        let ghost after = tag_pairs(am.take(j + 1));
        let ghost kb = keys@;
        let ghost vb = vals@;
        match tag_chars(&anns[j]) {
            Some((k, v)) => {
                keys.push(k);
                vals.push(v);
                assert forall|q: int| 0 <= q < keys@.len() implies (#[trigger] keys@[q])@ == after[q].0
                    && vals@[q]@ == after[q].1 by {
                    if q < kb.len() {
                        assert(keys@[q] == kb[q] && vals@[q] == vb[q]);
                    }
                }
            },
            None => {
                assert(after =~= before);
            },
        }
        j = j + 1;
    }
    assert(am.take(j as int) =~= am);
    let ghost ps = tag_pairs(am);
    if keys.len() > 0 {
        push_lit(&mut out, "\n**Tags**\n");
        let ghost mid = out@;
        let mut q: usize = 0;
        assert(ps.take(0) =~= Seq::<(Seq<char>, Seq<char>)>::empty());
        while q < keys.len()
            invariant
                ps == tag_pairs(am),
                keys@.len() == vals@.len(),
                keys@.len() == ps.len(),
                forall|t: int| 0 <= t < keys@.len() ==> (#[trigger] keys@[t])@ == ps[t].0 && vals@[t]@ == ps[t].1,
                q <= ps.len(),
                out@ == mid + tag_lines(ps.take(q as int)),
            decreases ps.len() - q,
        {
            push_lit(&mut out, "- *");
            push_all(&mut out, keys[q].as_slice());
            push_lit(&mut out, "* = `");
            push_all(&mut out, vals[q].as_slice());
            push_lit(&mut out, "`\n");
            assert(keys@[q as int]@ == ps[q as int].0);
            assert(ps.take(q + 1).drop_last() =~= ps.take(q as int));
            assert(out@ =~= mid + tag_lines(ps.take(q + 1)));
            q = q + 1;
        }
        assert(ps.take(q as int) =~= ps);
    }
    assert(out@ =~= anns_hover(*h, am));
    out
}

fn key_hover_chars<H: Fn(HostQuery) -> HostReply>(doc: &Document, key: &str, h: &H) -> (out: Vec<char>)
    requires
        host_ok(*h),
    ensures
        out@ == key_hover_md(*h, doc@, key@),
{
    let kc = to_chars(key);
    let mut out = to_chars("**`");
    push_all(&mut out, kc.as_slice());
    push_lit(&mut out, "`**");
    match resolve_value(&doc.config, kc.as_slice()) {
        Some(v) => {
            push_lit(&mut out, " &nbsp;·&nbsp; *");
            push_all(&mut out, chars_of(&v.type_label()).as_slice());
            push_lit(&mut out, "*\n");
            push_lit(&mut out, "\n```tomlplus\n= ");
            push_all(&mut out, display_chars(h, v).as_slice());
            push_lit(&mut out, "\n```\n");
        },
        None => {
            push_lit(&mut out, "\n");
        },
    }
    let ghost head = out@;
    proof {
        crate::parser::lemma_meta_find(doc.meta.model(), key@, 0);
        crate::value::lemma_dict_find_from_bound(doc.meta.model(), key@, 0);
    }
    match doc.meta.get(key) {
        Some(anns) => {
            let t = anns_hover_chars(anns, h);
            push_all(&mut out, t.as_slice());
        },
        None => {
            assert(out@ =~= head + Seq::<char>::empty());
        },
    }
    assert(out@ =~= key_hover_md(*h, doc@, key@));
    out
}

/// The hover of a key, over the key's range.
pub fn hover_for_key<H: Fn(HostQuery) -> HostReply>(
    doc: &Document,
    idx: &LineIndex,
    key: &str,
    span: Span,
    h: &H,
) -> (r: Hover)
    requires
        host_ok(*h),
    ensures
        r@ == (HoverModel { markdown: key_hover_md(*h, doc@, key@), range: range_of(*idx, span) }),
{
    let c = key_hover_chars(doc, key, h);
    Hover { markdown: string_from(c.as_slice()), range: span_to_range(span, idx) }
}

// ── Under the cursor ────────────────────────────────────────────────────────

/// The first reference whose span holds `o`.
pub open spec fn first_ref_at(rs: Seq<RefModel>, o: int) -> Option<RefModel>
    decreases rs.len(),
{
    if rs.len() == 0 {
        None
    } else if rs[0].span.spec_contains(o) {
        Some(rs[0])
    } else {
        first_ref_at(rs.skip(1), o)
    }
}

/// The first key whose span holds `o`.
pub open spec fn first_key_at(ks: Seq<(Seq<char>, Span)>, o: int) -> Option<(Seq<char>, Span)>
    decreases ks.len(),
{
    if ks.len() == 0 {
        None
    } else if ks[0].1.spec_contains(o) {
        Some(ks[0])
    } else {
        first_key_at(ks.skip(1), o)
    }
}

/// A reference under the cursor is hovered first, else a key.
pub open spec fn hover_model<E: Fn(&str) -> Option<String>, H: Fn(HostQuery) -> HostReply>(
    d: DocModel,
    idx: LineIndex,
    o: int,
    env: E,
    h: H,
) -> Option<HoverModel> {
    match first_ref_at(d.var_refs, o) {
        Some(r) => Some(HoverModel { markdown: var_hover_md(d, r, env, h), range: range_of(idx, r.span) }),
        None => match first_key_at(d.key_spans, o) {
            Some(k) => Some(HoverModel { markdown: key_hover_md(h, d, k.0), range: range_of(idx, k.1) }),
            None => None,
        },
    }
}

pub(crate) fn ref_at(doc: &Document, o: usize) -> (r: Option<usize>)
    ensures
        match first_ref_at(doc@.var_refs, o as int) {
            Some(m) => r is Some && r->0 < doc.var_refs@.len() && doc.var_refs@[r->0 as int].model() == m,
            None => r is None,
        },
{
    let ghost rs = doc@.var_refs;
    let mut i: usize = 0;
    assert(rs.skip(0) =~= rs);
    while i < doc.var_refs.len()
        invariant
            rs == doc@.var_refs,
            rs.len() == doc.var_refs@.len(),
            i <= rs.len(),
            first_ref_at(rs, o as int) == first_ref_at(rs.skip(i as int), o as int),
        decreases rs.len() - i,
    {
        assert(rs.skip(i as int)[0] == rs[i as int]);
        assert(rs.skip(i as int).skip(1) =~= rs.skip(i + 1));
        if doc.var_refs[i].span.contains(o) {
            return Some(i);
        }
        i = i + 1;
    }
    None
}

fn key_at_offset(doc: &Document, o: usize) -> (r: Option<usize>)
    ensures
        match first_key_at(doc@.key_spans, o as int) {
            Some(m) => r is Some && r->0 < doc@.key_spans.len() && doc@.key_spans[r->0 as int] == m,
            None => r is None,
        },
{
    let ghost ks = doc@.key_spans;
    let mut i: usize = 0;
    assert(ks.skip(0) =~= ks);
    while i < doc.key_spans.len()
        invariant
            ks == doc@.key_spans,
            i <= ks.len(),
            first_key_at(ks, o as int) == first_key_at(ks.skip(i as int), o as int),
        decreases ks.len() - i,
    {
        assert(ks.skip(i as int)[0] == ks[i as int]);
        assert(ks.skip(i as int).skip(1) =~= ks.skip(i + 1));
        if doc.key_spans.value_at(i).contains(o) {
            return Some(i);
        }
        i = i + 1;
    }
    None
}

/// The hover at a (line, column) position, if a reference or a key is
/// there.
pub fn hover_at<E: Fn(&str) -> Option<String>, H: Fn(HostQuery) -> HostReply>(
    doc: &Document,
    idx: &LineIndex,
    line: u32,
    character: u32,
    env: &E,
    h: &H,
) -> (r: Option<Hover>)
    requires
        line_start_of(*idx, line) + character <= usize::MAX,
        env_ok(*env),
        host_ok(*h),
    ensures
        match hover_model(doc@, *idx, line_start_of(*idx, line) + character, *env, *h) {
            Some(m) => r is Some && r->0@ == m,
            None => r is None,
        },
{
    let o = pos_to_offset(line, character, idx);
    match ref_at(doc, o) {
        Some(i) => Some(hover_for_var(doc, idx, &doc.var_refs[i], env, h)),
        None => match key_at_offset(doc, o) {
            Some(i) => {
                let k = doc.key_spans.key_at(i);
                let sp = *doc.key_spans.value_at(i);
                Some(hover_for_key(doc, idx, k.as_str(), sp, h))
            },
            None => None,
        },
    }
}

} // verus!
