//! Completion at a cursor position: annotations after `@`, type names on a
//! `@type:` line, variables after `$`.

use vstd::prelude::*;
use crate::display::{disp_value, display_chars};
use crate::host::{host_ok, HostQuery, HostReply};
use crate::hover::{builtin_doc, builtin_doc_text, line_start_of, pos_to_offset};
use crate::parser::{DocModel, Document};
use crate::span::LineIndex;
use crate::text::{
    blen, char_width, chars_of, eq_lit, is_ascii_ws, lemma_blen_take_mono, lemma_blen_take_step, push_all,
    push_lit, slice_of, starts_with_lit, string_from, to_chars, trim_start, trimmed_start,
};
use crate::value::{type_name_of, ValueModel};

verus! {

// ── Names known to the language ─────────────────────────────────────────────

pub open spec fn strs_view(v: Seq<&str>) -> Seq<Seq<char>> {
    v.map_values(|s: &str| s@)
}

pub open spec fn builtin_var_names() -> Seq<Seq<char>> {
    seq!["NOW"@, "TODAY"@, "TRUE"@, "FALSE"@, "NULL"@, "PID"@, "HOSTNAME"@, "PLATFORM"@, "CWD"@]
}

pub open spec fn annotation_names() -> Seq<Seq<char>> {
    seq![
        "required"@,
        "type"@,
        "min"@,
        "max"@,
        "minlen"@,
        "maxlen"@,
        "pattern"@,
        "enum"@,
        "positive"@,
        "nonzero"@,
        "nonempty"@,
        "deprecated"@,
        "tag"@,
        "internal"@,
        "readonly"@,
        "experimental"@,
    ]
}

pub open spec fn type_names() -> Seq<Seq<char>> {
    seq![
        "string"@,
        "int"@,
        "float"@,
        "bool"@,
        "dict"@,
        "list"@,
        "list[string]"@,
        "list[int]"@,
        "list[float]"@,
        "list[bool]"@,
        "url"@,
        "email"@,
        "path"@,
        "duration"@,
    ]
}

/// Builtin variable names that are always available.
pub fn builtin_vars() -> (r: Vec<&'static str>)
    ensures
        strs_view(r@) == builtin_var_names(),
{
    let mut v: Vec<&'static str> = Vec::new();
    v.push("NOW");
    v.push("TODAY");
    v.push("TRUE");
    v.push("FALSE");
    v.push("NULL");
    v.push("PID");
    v.push("HOSTNAME");
    v.push("PLATFORM");
    v.push("CWD");
    assert(strs_view(v@) =~= builtin_var_names());
    v
}

/// Annotation names known to the validator.
pub fn known_annotations() -> (r: Vec<&'static str>)
    ensures
        strs_view(r@) == annotation_names(),
{
    let mut v: Vec<&'static str> = Vec::new();
    v.push("required");
    v.push("type");
    v.push("min");
    v.push("max");
    v.push("minlen");
    v.push("maxlen");
    v.push("pattern");
    v.push("enum");
    v.push("positive");
    v.push("nonzero");
    v.push("nonempty");
    v.push("deprecated");
    v.push("tag");
    v.push("internal");
    v.push("readonly");
    v.push("experimental");
    assert(strs_view(v@) =~= annotation_names());
    v
}

/// Type names offered after `@type:`.
pub fn known_types() -> (r: Vec<&'static str>)
    ensures
        strs_view(r@) == type_names(),
{
    let mut v: Vec<&'static str> = Vec::new();
    v.push("string");
    v.push("int");
    v.push("float");
    v.push("bool");
    v.push("dict");
    v.push("list");
    v.push("list[string]");
    v.push("list[int]");
    v.push("list[float]");
    v.push("list[bool]");
    v.push("url");
    v.push("email");
    v.push("path");
    v.push("duration");
    assert(strs_view(v@) =~= type_names());
    v
}

// ── Completion items ────────────────────────────────────────────────────────

#[derive(Debug, Clone, Copy, PartialEq, Eq, Structural)]
pub enum CompletionKind {
    Keyword,
    TypeParameter,
    Variable,
    Constant,
}

#[derive(Debug, Clone, Copy, PartialEq, Eq, Structural)]
pub enum InsertFormat {
    PlainText,
    Snippet,
}

#[derive(Debug)]
pub struct CompletionItem {
    pub label: String,
    pub kind: CompletionKind,
    pub detail: String,
    /// Markdown.
    pub documentation: String,
    pub insert_text: Option<String>,
    pub insert_format: Option<InsertFormat>,
}

pub struct ItemModel {
    pub label: Seq<char>,
    pub kind: CompletionKind,
    pub detail: Seq<char>,
    pub documentation: Seq<char>,
    pub insert_text: Option<Seq<char>>,
    pub insert_format: Option<InsertFormat>,
}

impl View for CompletionItem {
    type V = ItemModel;

    open spec fn view(&self) -> ItemModel {
        ItemModel {
            label: self.label@,
            kind: self.kind,
            detail: self.detail@,
            documentation: self.documentation@,
            insert_text: match self.insert_text {
                Some(t) => Some(t@),
                None => None,
            },
            insert_format: self.insert_format,
        }
    }
}

pub open spec fn items_model(v: Seq<CompletionItem>) -> Seq<ItemModel> {
    v.map_values(|x: CompletionItem| x@)
}

/// The text inserted for an annotation, its format and its help.
pub open spec fn snippet_of(n: Seq<char>) -> (Seq<char>, InsertFormat, Seq<char>) {
    if n == "required"@ {
        ("@required"@, InsertFormat::PlainText, "**`@required`** — value must be present and non-empty."@)
    } else if n == "type"@ {
        (
            "@type: ${1:int}"@,
            InsertFormat::Snippet,
            "**`@type: T`** — declare the value's type. Common types: `string`, `int`, `float`, `bool`, `list`, `dict`, `url`, `email`, `duration`, `path`."@,
        )
    } else if n == "min"@ {
        ("@min: ${1:0}"@, InsertFormat::Snippet, "**`@min: N`** — numeric value must be ≥ N."@)
    } else if n == "max"@ {
        ("@max: ${1:100}"@, InsertFormat::Snippet, "**`@max: N`** — numeric value must be ≤ N."@)
    } else if n == "minlen"@ {
        ("@minlen: ${1:1}"@, InsertFormat::Snippet, "**`@minlen: N`** — string/array/dict length must be ≥ N."@)
    } else if n == "maxlen"@ {
        ("@maxlen: ${1:64}"@, InsertFormat::Snippet, "**`@maxlen: N`** — string/array/dict length must be ≤ N."@)
    } else if n == "pattern"@ {
        (
            "@pattern: \"${1:regex}\""@,
            InsertFormat::Snippet,
            "**`@pattern: \"regex\"`** — string must fully match the regex."@,
        )
    } else if n == "enum"@ {
        ("@enum: [${1:a, b, c}]"@, InsertFormat::Snippet, "**`@enum: [a, b, c]`** — string must be one of these values."@)
    } else if n == "positive"@ {
        ("@positive"@, InsertFormat::PlainText, "**`@positive`** — numeric value must be > 0."@)
    } else if n == "nonzero"@ {
        ("@nonzero"@, InsertFormat::PlainText, "**`@nonzero`** — numeric value must be ≠ 0."@)
    } else if n == "nonempty"@ {
        ("@nonempty"@, InsertFormat::PlainText, "**`@nonempty`** — string/array/dict must be non-empty."@)
    } else if n == "deprecated"@ {
        (
            "@deprecated(\"${1:replacement}\")"@,
            InsertFormat::Snippet,
            "**`@deprecated(msg)`** — mark a key as deprecated. Surfaces as an editor warning."@,
        )
    } else if n == "tag"@ {
        (
            "@tag: ${1:owner} = \"${2:team}\""@,
            InsertFormat::Snippet,
            "**`@tag: k = \"v\"`** — attach arbitrary metadata (no validation)."@,
        )
    } else if n == "internal"@ {
        ("@internal"@, InsertFormat::PlainText, "**`@internal`** — marks an implementation detail."@)
    } else if n == "readonly"@ {
        ("@readonly"@, InsertFormat::PlainText, "**`@readonly`** — value should not be modified at runtime."@)
    } else if n == "experimental"@ {
        ("@experimental"@, InsertFormat::PlainText, "**`@experimental`** — subject to change."@)
    } else {
        (""@, InsertFormat::PlainText, ""@)
    }
}

/// `(snippet, format, markdown help)` of an annotation; empty texts for an
/// unknown name.
pub fn annotation_snippet(name: &str) -> (r: (&'static str, InsertFormat, &'static str))
    ensures
        (r.0@, r.1, r.2@) == snippet_of(name@),
{
    let n = to_chars(name);
    let s = n.as_slice();
    if eq_lit(s, "required") {
        ("@required", InsertFormat::PlainText, "**`@required`** — value must be present and non-empty.")
    } else if eq_lit(s, "type") {
        (
            "@type: ${1:int}",
            InsertFormat::Snippet,
            "**`@type: T`** — declare the value's type. Common types: `string`, `int`, `float`, `bool`, `list`, `dict`, `url`, `email`, `duration`, `path`.",
        )
    } else if eq_lit(s, "min") {
        ("@min: ${1:0}", InsertFormat::Snippet, "**`@min: N`** — numeric value must be ≥ N.")
    } else if eq_lit(s, "max") {
        ("@max: ${1:100}", InsertFormat::Snippet, "**`@max: N`** — numeric value must be ≤ N.")
    } else if eq_lit(s, "minlen") {
        ("@minlen: ${1:1}", InsertFormat::Snippet, "**`@minlen: N`** — string/array/dict length must be ≥ N.")
    } else if eq_lit(s, "maxlen") {
        ("@maxlen: ${1:64}", InsertFormat::Snippet, "**`@maxlen: N`** — string/array/dict length must be ≤ N.")
    } else if eq_lit(s, "pattern") {
        (
            "@pattern: \"${1:regex}\"",
            InsertFormat::Snippet,
            "**`@pattern: \"regex\"`** — string must fully match the regex.",
        )
    } else if eq_lit(s, "enum") {
        ("@enum: [${1:a, b, c}]", InsertFormat::Snippet, "**`@enum: [a, b, c]`** — string must be one of these values.")
    } else if eq_lit(s, "positive") {
        ("@positive", InsertFormat::PlainText, "**`@positive`** — numeric value must be > 0.")
    } else if eq_lit(s, "nonzero") {
        ("@nonzero", InsertFormat::PlainText, "**`@nonzero`** — numeric value must be ≠ 0.")
    } else if eq_lit(s, "nonempty") {
        ("@nonempty", InsertFormat::PlainText, "**`@nonempty`** — string/array/dict must be non-empty.")
    } else if eq_lit(s, "deprecated") {
        (
            "@deprecated(\"${1:replacement}\")",
            InsertFormat::Snippet,
            "**`@deprecated(msg)`** — mark a key as deprecated. Surfaces as an editor warning.",
        )
    } else if eq_lit(s, "tag") {
        (
            "@tag: ${1:owner} = \"${2:team}\"",
            InsertFormat::Snippet,
            "**`@tag: k = \"v\"`** — attach arbitrary metadata (no validation).",
        )
    } else if eq_lit(s, "internal") {
        ("@internal", InsertFormat::PlainText, "**`@internal`** — marks an implementation detail.")
    } else if eq_lit(s, "readonly") {
        ("@readonly", InsertFormat::PlainText, "**`@readonly`** — value should not be modified at runtime.")
    } else if eq_lit(s, "experimental") {
        ("@experimental", InsertFormat::PlainText, "**`@experimental`** — subject to change.")
    } else {
        ("", InsertFormat::PlainText, "")
    }
}

pub open spec fn type_doc_text(t: Seq<char>) -> Seq<char> {
    if t == "string"@ {
        "UTF-8 string."@
    } else if t == "int"@ {
        "Signed 64-bit integer (dec/hex/oct/bin literals OK)."@
    } else if t == "float"@ {
        "IEEE-754 double (accepts integer literals too)."@
    } else if t == "bool"@ {
        "`true` or `false`."@
    } else if t == "dict"@ {
        "Inline or block dictionary `#{ … }#`."@
    } else if t == "list"@ {
        "Array `[…]`."@
    } else if t == "list[string]"@ {
        "Array whose every element is a string."@
    } else if t == "list[int]"@ {
        "Array whose every element is an integer."@
    } else if t == "list[float]"@ {
        "Array whose every element is numeric."@
    } else if t == "list[bool]"@ {
        "Array of booleans."@
    } else if t == "url"@ {
        "String beginning with `http://` or `https://`."@
    } else if t == "email"@ {
        "String matching a relaxed email regex."@
    } else if t == "path"@ {
        "String (filesystem path — not checked for existence)."@
    } else if t == "duration"@ {
        "Duration string like `30s`, `5m`, `2h`, `1d`."@
    } else {
        ""@
    }
}

/// Help text of a type name; empty for an unknown one.
pub fn type_doc(ty: &str) -> (r: &'static str)
    ensures
        r@ == type_doc_text(ty@),
{
    let n = to_chars(ty);
    let s = n.as_slice();
    if eq_lit(s, "string") {
        "UTF-8 string."
    } else if eq_lit(s, "int") {
        "Signed 64-bit integer (dec/hex/oct/bin literals OK)."
    } else if eq_lit(s, "float") {
        "IEEE-754 double (accepts integer literals too)."
    } else if eq_lit(s, "bool") {
        "`true` or `false`."
    } else if eq_lit(s, "dict") {
        "Inline or block dictionary `#{ … }#`."
    } else if eq_lit(s, "list") {
        "Array `[…]`."
    } else if eq_lit(s, "list[string]") {
        "Array whose every element is a string."
    } else if eq_lit(s, "list[int]") {
        "Array whose every element is an integer."
    } else if eq_lit(s, "list[float]") {
        "Array whose every element is numeric."
    } else if eq_lit(s, "list[bool]") {
        "Array of booleans."
    } else if eq_lit(s, "url") {
        "String beginning with `http://` or `https://`."
    } else if eq_lit(s, "email") {
        "String matching a relaxed email regex."
    } else if eq_lit(s, "path") {
        "String (filesystem path — not checked for existence)."
    } else if eq_lit(s, "duration") {
        "Duration string like `30s`, `5m`, `2h`, `1d`."
    } else {
        ""
    }
}

pub open spec fn ann_item(n: Seq<char>) -> ItemModel {
    ItemModel {
        label: "@"@ + n,
        kind: CompletionKind::Keyword,
        detail: "annotation"@,
        documentation: snippet_of(n).2,
        insert_text: Some(snippet_of(n).0),
        insert_format: Some(snippet_of(n).1),
    }
}

pub open spec fn ann_items() -> Seq<ItemModel> {
    annotation_names().map_values(|n: Seq<char>| ann_item(n))
}

pub open spec fn type_item(t: Seq<char>) -> ItemModel {
    ItemModel {
        label: t,
        kind: CompletionKind::TypeParameter,
        detail: "type"@,
        documentation: type_doc_text(t),
        insert_text: Some(t),
        insert_format: None,
    }
}

pub open spec fn type_items() -> Seq<ItemModel> {
    type_names().map_values(|t: Seq<char>| type_item(t))
}

pub open spec fn user_item<H: Fn(HostQuery) -> HostReply>(h: H, e: (Seq<char>, ValueModel)) -> ItemModel {
    ItemModel {
        label: "$"@ + e.0,
        kind: CompletionKind::Variable,
        detail: "user variable · "@ + type_name_of(e.1),
        documentation: "```tomlplus\n"@ + e.0 + " = "@ + disp_value(h, e.1) + "\n```"@,
        insert_text: None,
        insert_format: None,
    }
}

pub open spec fn builtin_item(b: Seq<char>) -> ItemModel {
    ItemModel {
        label: "$"@ + b,
        kind: CompletionKind::Constant,
        detail: "built-in"@,
        documentation: builtin_doc_text(b),
        insert_text: None,
        insert_format: None,
    }
}

pub open spec fn env_item() -> ItemModel {
    ItemModel {
        label: "$ENV."@,
        kind: CompletionKind::Variable,
        detail: "environment variable"@,
        documentation: "Reference an environment variable. Use `??` for a fallback when unset: `$ENV.PORT ?? 8080`."@,
        insert_text: Some("$ENV.${1:VAR_NAME}"@),
        insert_format: Some(InsertFormat::Snippet),
    }
}

/// User variables in key order, then the builtins, then `$ENV.`.
pub open spec fn variable_items<H: Fn(HostQuery) -> HostReply>(h: H, d: DocModel) -> Seq<ItemModel> {
    d.vars.map_values(|e: (Seq<char>, ValueModel)| user_item(h, e)) + builtin_var_names().map_values(
        |b: Seq<char>| builtin_item(b),
    ) + seq![env_item()]
}

fn lit_string(s: &str) -> (r: String)
    ensures
        r@ == s@,
{
    let c = to_chars(s);
    string_from(c.as_slice())
}

/// One item per known annotation.
pub fn annotation_completions() -> (r: Vec<CompletionItem>)
    ensures
        items_model(r@) == ann_items(),
{
    let names = known_annotations();
    let ghost nm = strs_view(names@);
    let mut out: Vec<CompletionItem> = Vec::new();
    let mut i: usize = 0;
    while i < names.len()
        invariant
            nm == strs_view(names@),
            nm == annotation_names(),
            i <= nm.len(),
            items_model(out@) == nm.take(i as int).map_values(|n: Seq<char>| ann_item(n)),
            out@.len() == i,
        decreases nm.len() - i,
    {
        let name = names[i];
        let (ins, fmt, doc) = annotation_snippet(name);
        let mut label = to_chars("@");
        push_all(&mut label, to_chars(name).as_slice());
        let ghost before = out@;
        out.push(
            CompletionItem {
                label: string_from(label.as_slice()),
                kind: CompletionKind::Keyword,
                detail: lit_string("annotation"),
                documentation: lit_string(doc),
                insert_text: Some(lit_string(ins)),
                insert_format: Some(fmt),
            },
        );
        assert(nm[i as int] == name@);
        assert(out@[i as int]@ == ann_item(nm[i as int]));
        assert forall|q: int| 0 <= q < i + 1 implies #[trigger] items_model(out@)[q] == nm.take(i + 1).map_values(
            |n: Seq<char>| ann_item(n),
        )[q] by {
            if q < i {
                assert(out@[q] == before[q]);
                assert(items_model(before)[q] == nm.take(i as int).map_values(|n: Seq<char>| ann_item(n))[q]);
            }
        }
        assert(items_model(out@) =~= nm.take(i + 1).map_values(|n: Seq<char>| ann_item(n)));
        i = i + 1;
    }
    assert(nm.take(i as int) =~= nm);
    out
}

/// One item per known type name.
pub fn type_completions() -> (r: Vec<CompletionItem>)
    ensures
        items_model(r@) == type_items(),
{
    let names = known_types();
    let ghost nm = strs_view(names@);
    let mut out: Vec<CompletionItem> = Vec::new();
    let mut i: usize = 0;
    while i < names.len()
        invariant
            nm == strs_view(names@),
            nm == type_names(),
            i <= nm.len(),
            items_model(out@) == nm.take(i as int).map_values(|t: Seq<char>| type_item(t)),
            out@.len() == i,
        decreases nm.len() - i,
    {
        let ty = names[i];
        let ghost before = out@;
        out.push(
            CompletionItem {
                label: lit_string(ty),
                kind: CompletionKind::TypeParameter,
                detail: lit_string("type"),
                documentation: lit_string(type_doc(ty)),
                insert_text: Some(lit_string(ty)),
                insert_format: None,
            },
        );
        assert(nm[i as int] == ty@);
        assert(out@[i as int]@ == type_item(nm[i as int]));
        assert forall|q: int| 0 <= q < i + 1 implies #[trigger] items_model(out@)[q] == nm.take(i + 1).map_values(
            |t: Seq<char>| type_item(t),
        )[q] by {
            if q < i {
                assert(out@[q] == before[q]);
                assert(items_model(before)[q] == nm.take(i as int).map_values(|t: Seq<char>| type_item(t))[q]);
            }
        }
        assert(items_model(out@) =~= nm.take(i + 1).map_values(|t: Seq<char>| type_item(t)));
        i = i + 1;
    }
    assert(nm.take(i as int) =~= nm);
    out
}

/// Items for the user variables, the builtins and `$ENV.`.
pub fn variable_completions<H: Fn(HostQuery) -> HostReply>(doc: &Document, h: &H) -> (r: Vec<CompletionItem>)
    requires
        host_ok(*h),
    ensures
        items_model(r@) == variable_items(*h, doc@),
{
    let ghost vm = doc@.vars;
    proof {
        doc.vars.lemma_model();
    }
    let mut out: Vec<CompletionItem> = Vec::new();
    let mut i: usize = 0;
    while i < doc.vars.len()
        invariant
            vm == doc@.vars,
            vm.len() == doc.vars.model().len(),
            i <= vm.len(),
            host_ok(*h),
            items_model(out@) == vm.take(i as int).map_values(|e: (Seq<char>, ValueModel)| user_item(*h, e)),
            out@.len() == i,
        decreases vm.len() - i,
    {
        let name = doc.vars.key_at(i);
        let v = doc.vars.value_at(i);
        let nc = chars_of(name);
        let mut label = to_chars("$");
        push_all(&mut label, nc.as_slice());
        let mut detail = to_chars("user variable · ");
        push_all(&mut detail, chars_of(&v.type_label()).as_slice());
        let mut docs = to_chars("```tomlplus\n");
        push_all(&mut docs, nc.as_slice());
        push_lit(&mut docs, " = ");
        push_all(&mut docs, display_chars(h, v).as_slice());
        push_lit(&mut docs, "\n```");
        let ghost before = out@;
        out.push(
            CompletionItem {
                label: string_from(label.as_slice()),
                kind: CompletionKind::Variable,
                detail: string_from(detail.as_slice()),
                documentation: string_from(docs.as_slice()),
                insert_text: None,
                insert_format: None,
            },
        );
        assert(vm[i as int] == (name@, v.model()));
        assert(out@[i as int]@ == user_item(*h, vm[i as int]));
        assert forall|q: int| 0 <= q < i + 1 implies #[trigger] items_model(out@)[q] == vm.take(i + 1).map_values(
            |e: (Seq<char>, ValueModel)| user_item(*h, e),
        )[q] by {
            if q < i {
                assert(out@[q] == before[q]);
                assert(items_model(before)[q] == vm.take(i as int).map_values(
                    |e: (Seq<char>, ValueModel)| user_item(*h, e),
                )[q]);
            }
        }
        assert(items_model(out@) =~= vm.take(i + 1).map_values(
            |e: (Seq<char>, ValueModel)| user_item(*h, e),
        ));
        i = i + 1;
    }
    assert(vm.take(i as int) =~= vm);
    let ghost first = items_model(out@);
    assert(first + builtin_var_names().take(0).map_values(|b: Seq<char>| builtin_item(b)) =~= first);
    let names = builtin_vars();
    let ghost nm = strs_view(names@);
    let mut j: usize = 0;
    while j < names.len()
        invariant
            nm == strs_view(names@),
            nm == builtin_var_names(),
            j <= nm.len(),
            items_model(out@) == first + nm.take(j as int).map_values(|b: Seq<char>| builtin_item(b)),
            out@.len() == first.len() + j,
        decreases nm.len() - j,
    {
        let b = names[j];
        let ghost before = out@;
        let mut label = to_chars("$");
        push_all(&mut label, to_chars(b).as_slice());
        out.push(
            CompletionItem {
                label: string_from(label.as_slice()),
                kind: CompletionKind::Constant,
                detail: lit_string("built-in"),
                documentation: lit_string(builtin_doc(b)),
                insert_text: None,
                insert_format: None,
            },
        );
        assert(nm[j as int] == b@);
        assert(out@[out@.len() - 1]@ == builtin_item(nm[j as int]));
        assert forall|q: int| 0 <= q < out@.len() implies #[trigger] items_model(out@)[q] == (first + nm.take(j + 1).map_values(
            |b: Seq<char>| builtin_item(b),
        ))[q] by {
            if q < out@.len() - 1 {
                assert(out@[q] == before[q]);
                assert(items_model(before)[q] == (first + nm.take(j as int).map_values(|b: Seq<char>| builtin_item(b)))[q]);
            }
        }
        assert(items_model(out@) =~= first + nm.take(j + 1).map_values(|b: Seq<char>| builtin_item(b)));
        j = j + 1;
    }
    assert(nm.take(j as int) =~= nm);
    let ghost second = items_model(out@);
    out.push(
        CompletionItem {
            label: lit_string("$ENV."),
            kind: CompletionKind::Variable,
            detail: lit_string("environment variable"),
            documentation: lit_string(
                "Reference an environment variable. Use `??` for a fallback when unset: `$ENV.PORT ?? 8080`.",
            ),
            insert_text: Some(lit_string("$ENV.${1:VAR_NAME}")),
            insert_format: Some(InsertFormat::Snippet),
        },
    );
    assert(items_model(out@) =~= second.push(env_item()));
    out
}

// ── The text before the cursor ──────────────────────────────────────────────

/// Character `k` of `s` starts at byte offset `off`.
pub open spec fn boundary(s: Seq<char>, k: int, off: int) -> bool {
    0 <= k <= s.len() && blen(s.take(k)) == off
}

/// The character index at byte offset `off` (meaningful where one exists).
pub open spec fn char_index(s: Seq<char>, off: int) -> int {
    choose|k: int| boundary(s, k, off)
}

/// `off`, clamped to the text's byte length.
pub open spec fn clamped(s: Seq<char>, off: int) -> int {
    if off <= blen(s) {
        off
    } else {
        blen(s) as int
    }
}

/// Start of the token that ends at character `k`: back over characters
/// other than ASCII whitespace, `=`, `,` and `(`, taking in a `@` or `$`
/// where one is met.
pub open spec fn token_start(s: Seq<char>, k: int) -> int
    decreases k,
{
    if k <= 0 || k > s.len() {
        0
    } else if s[k - 1] == '@' || s[k - 1] == '$' {
        k - 1
    } else if is_ascii_ws(s[k - 1]) || s[k - 1] == '=' || s[k - 1] == ',' || s[k - 1] == '(' {
        k
    } else {
        token_start(s, k - 1)
    }
}

pub open spec fn token_prefix(s: Seq<char>, k: int) -> Seq<char> {
    s.subrange(token_start(s, k), k)
}

/// Start of the line holding character `k`: just after the last newline
/// before it.
pub open spec fn line_begin(s: Seq<char>, k: int) -> int
    decreases k,
{
    if k <= 0 || k > s.len() {
        0
    } else if s[k - 1] == '\n' {
        k
    } else {
        line_begin(s, k - 1)
    }
}

/// The line up to character `k`, its leading whitespace removed, starts
/// with `needle`.
pub open spec fn line_has_prefix(s: Seq<char>, k: int, needle: Seq<char>) -> bool {
    let t = trim_start(s.subrange(line_begin(s, k), k));
    needle.len() <= t.len() && t.take(needle.len() as int) == needle
}

proof fn lemma_boundary_unique(s: Seq<char>, k1: int, k2: int, off: int)
    requires
        boundary(s, k1, off),
        boundary(s, k2, off),
    ensures
        k1 == k2,
{
    if k1 < k2 {
        lemma_blen_take_mono(s, k1, k2 - 1);
        lemma_blen_take_step(s, k2 - 1);
        crate::text::lemma_encode_char_len(s[k2 - 1]);
    } else if k2 < k1 {
        lemma_blen_take_mono(s, k2, k1 - 1);
        lemma_blen_take_step(s, k1 - 1);
        crate::text::lemma_encode_char_len(s[k1 - 1]);
    }
}

/// The character index whose byte offset is `off`.
fn find_char_index(chars: &Vec<char>, nbytes: usize, off: usize) -> (k: usize)
    requires
        nbytes == blen(chars@),
        exists|j: int| boundary(chars@, j, off as int),
    ensures
        boundary(chars@, k as int, off as int),
        k as int == char_index(chars@, off as int),
{
    let ghost s = chars@;
    let mut k: usize = 0;
    let mut acc: usize = 0;
    while k < chars.len() && acc < off
        invariant
            s == chars@,
            nbytes == blen(s),
            k <= s.len(),
            acc == blen(s.take(k as int)),
            k > 0 ==> blen(s.take(k - 1)) < off,
        decreases s.len() - k,
    {
        proof {
            lemma_blen_take_step(s, k as int);
            lemma_blen_take_mono(s, k + 1, k + 1);
        }
        acc = acc + char_width(chars[k]);
        k = k + 1;
    }
    proof {
        let j = choose|j: int| boundary(s, j, off as int);
        if acc != off {
            if acc < off {
                assert(k == s.len());
                assert(s.take(k as int) =~= s);
                lemma_blen_take_mono(s, j, j);
            } else {
                assert(k > 0);
                lemma_blen_take_step(s, k - 1);
                if j < k {
                    lemma_blen_take_mono(s, j, k - 1);
                } else {
                    lemma_blen_take_mono(s, k as int, j);
                }
            }
        }
        assert(boundary(s, k as int, off as int));
        lemma_boundary_unique(s, k as int, char_index(s, off as int), off as int);
    }
    k
}

fn token_start_at(chars: &Vec<char>, k: usize) -> (st: usize)
    requires
        k <= chars@.len(),
    ensures
        st as int == token_start(chars@, k as int),
        st <= k,
{
    let mut st = k;
    let mut done = false;
    while st > 0 && !done
        invariant
            st <= k <= chars@.len(),
            done ==> token_start(chars@, k as int) == st,
            !done ==> token_start(chars@, k as int) == token_start(chars@, st as int),
        decreases st + (if done {
            0int
        } else {
            1int
        }),
    {
        let c = chars[st - 1];
        if c == '@' || c == '$' {
            st = st - 1;
            done = true;
        } else if c == ' ' || c == '\t' || c == '\n' || c == '\r' || c == '\x0C' || c == '=' || c == ','
            || c == '(' {
            done = true;
        } else {
            st = st - 1;
        }
    }
    st
}

/// The token just before byte `offset` (clamped to the text): back to a
/// delimiter, or onto a `@` or `$`.
pub fn previous_token_prefix(text: &str, offset: usize) -> (r: String)
    requires
        exists|k: int| boundary(text@, k, clamped(text@, offset as int)),
    ensures
        r@ == token_prefix(text@, char_index(text@, clamped(text@, offset as int))),
{
    let chars = to_chars(text);
    let nbytes = text.as_bytes().len();
    let off = if offset <= nbytes {
        offset
    } else {
        nbytes
    };
    let k = find_char_index(&chars, nbytes, off);
    let st = token_start_at(&chars, k);
    let p = slice_of(chars.as_slice(), st, k);
    string_from(p.as_slice())
}

/// The line holding byte `offset`, up to it and without its leading
/// whitespace, starts with `needle`.
pub fn line_starts_with(text: &str, offset: usize, needle: &str) -> (r: bool)
    requires
        exists|k: int| boundary(text@, k, offset as int),
    ensures
        r == line_has_prefix(text@, char_index(text@, offset as int), needle@),
{
    let chars = to_chars(text);
    let nbytes = text.as_bytes().len();
    let k = find_char_index(&chars, nbytes, offset);
    let mut b = k;
    while b > 0 && chars[b - 1] != '\n'
        invariant
            b <= k <= chars@.len(),
            line_begin(chars@, k as int) == line_begin(chars@, b as int),
        decreases b,
    {
        b = b - 1;
    }
    let line = slice_of(chars.as_slice(), b, k);
    let t = trimmed_start(line.as_slice());
    starts_with_lit(t.as_slice(), needle)
}

/// What is offered at byte offset `o`: annotations after `@` (types on a
/// `@type:` line), variables after `$`, nothing elsewhere.
pub open spec fn completion_model<H: Fn(HostQuery) -> HostReply>(h: H, d: DocModel, s: Seq<char>, o: int) -> Seq<ItemModel> {
    let p = token_prefix(s, char_index(s, clamped(s, o)));
    if p.len() > 0 && p[0] == '@' {
        if line_has_prefix(s, char_index(s, o), "@type:"@) {
            type_items()
        } else {
            ann_items()
        }
    } else if p.len() > 0 && p[0] == '$' {
        variable_items(h, d)
    } else {
        Seq::empty()
    }
}

/// The text before a byte offset can be cut there: the offset falls on a
/// character boundary, or lies past the end and no `@` token ends the
/// text.
pub open spec fn completion_ok(s: Seq<char>, o: int) -> bool {
    &&& exists|k: int| boundary(s, k, clamped(s, o))
    &&& (o > blen(s) ==> !(token_prefix(s, s.len() as int).len() > 0 && token_prefix(s, s.len() as int)[0] == '@'))
}

/// Completion items at a (line, column) position of `text`, whose parse is
/// `doc`.
pub fn completion_at<H: Fn(HostQuery) -> HostReply>(
    doc: &Document,
    text: &str,
    idx: &LineIndex,
    line: u32,
    character: u32,
    h: &H,
) -> (r: Vec<CompletionItem>)
    requires
        line_start_of(*idx, line) + character <= usize::MAX,
        completion_ok(text@, line_start_of(*idx, line) + character),
        host_ok(*h),
    ensures
        items_model(r@) == completion_model(*h, doc@, text@, line_start_of(*idx, line) + character),
{
    let o = pos_to_offset(line, character, idx);
    let prefix = previous_token_prefix(text, o);
    let pc = chars_of(&prefix);
    if pc.len() > 0 && pc[0] == '@' {
        proof {
            let s = text@;
            if o as int > blen(s) {
                let k = choose|k: int| boundary(s, k, clamped(s, o as int));
                assert(s.take(s.len() as int) =~= s);
                assert(boundary(s, s.len() as int, clamped(s, o as int)));
                lemma_boundary_unique(s, s.len() as int, char_index(s, clamped(s, o as int)), clamped(s, o as int));
            }
            assert(clamped(s, o as int) == o);
        }
        if line_starts_with(text, o, "@type:") {
            type_completions()
        } else {
            annotation_completions()
        }
    } else if pc.len() > 0 && pc[0] == '$' {
        variable_completions(doc, h)
    } else {
        Vec::new()
    }
}

} // verus!
