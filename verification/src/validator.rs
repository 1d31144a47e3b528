//! Annotation-driven validator over a parsed [`Document`].

use vstd::prelude::*;
use crate::annotation::{AnnModel, Annotation, AnnotationArg, ArgModel};
use crate::error::{Diagnostic, DiagnosticCode, DiagnosticModel, Severity};
use crate::host::{
    float_compare, float_display, float_from_int, float_to_int, host_compare, host_display,
    host_from_int, host_ok, host_to_int, HostQuery, HostReply,
};
use crate::numeric::{int_text, int_to_text, nat_to_text};
use crate::parser::{anns_model, diags_model, DocModel, Document};
use crate::span::Span;
use crate::text::{
    chars_of, eq_lit, is_whitespace, is_ws, push_all, push_lit, slice_of, starts_with_lit,
    string_from, strings_model, to_chars,
};
use crate::value::{dict_get, empty_like, type_name_of, Dict, Value, ValueModel};

verus! {

// ── The regex engine ────────────────────────────────────────────────────────

#[verifier::external_type_specification]
#[verifier::external_body]
pub struct ExRegex(regex_lite::Regex);

#[verifier::external_type_specification]
#[verifier::external_body]
pub struct ExRegexError(regex_lite::Error);

/// Whether `regex_lite` accepts `pattern` as a regular expression.
pub uninterp spec fn regex_compiles(pattern: Seq<char>) -> bool;

/// Whether the regular expression `pattern` matches somewhere in `text`.
pub uninterp spec fn regex_accepts(pattern: Seq<char>, text: Seq<char>) -> bool;

/// The message of the error `regex_lite` reports for `pattern`.
pub uninterp spec fn regex_error_text(pattern: Seq<char>) -> Seq<char>;

/// A compiled regular expression and the pattern it was compiled from.
pub struct CompiledPattern {
    re: regex_lite::Regex,
    source: Ghost<Seq<char>>,
}

impl CompiledPattern {
    pub closed spec fn source(&self) -> Seq<char> {
        self.source@
    }
}

/// A pattern that did not compile, with the error.
pub struct PatternError {
    err: regex_lite::Error,
    source: Ghost<Seq<char>>,
}

impl PatternError {
    pub closed spec fn source(&self) -> Seq<char> {
        self.source@
    }
}

/// `regex_lite::Regex::new(pattern)`: succeeds exactly on the patterns
/// `regex_compiles` names; either way the pattern is kept alongside.
#[verifier::external_body]
fn regex_new(pattern: &str) -> (r: Result<CompiledPattern, PatternError>)
    ensures
        (r is Ok) == regex_compiles(pattern@),
        match r {
            Ok(p) => p.source() == pattern@,
            Err(e) => e.source() == pattern@,
        },
{
    match regex_lite::Regex::new(pattern) {
        Ok(re) => Ok(CompiledPattern { re, source: Ghost(pattern@) }),
        Err(err) => Err(PatternError { err, source: Ghost(pattern@) }),
    }
}

/// `regex_lite::Regex::is_match(text)`: the answer `regex_accepts` names
/// for the pattern the regex was compiled from.
#[verifier::external_body]
fn regex_is_match(p: &CompiledPattern, text: &str) -> (b: bool)
    ensures
        b == regex_accepts(p.source(), text@),
{
    p.re.is_match(text)
}

/// The `Display` text of a `regex_lite::Error`: the text `regex_error_text`
/// names for the pattern that failed.
#[verifier::external_body]
fn regex_error_message(e: &PatternError) -> (s: String)
    ensures
        s@ == regex_error_text(e.source()),
{
    e.err.to_string()
}

// ── Value tests ─────────────────────────────────────────────────────────────

/// `http://` or `https://` at the start.
pub open spec fn is_url(s: Seq<char>) -> bool {
    ("http://"@.len() <= s.len() && s.take("http://"@.len() as int) == "http://"@) || (
    "https://"@.len() <= s.len() && s.take("https://"@.len() as int) == "https://"@)
}

/// The e-mail test from character `i` on: `at` counts the `@`s so far (as
/// an `i32`), `dot` records a `.` after an `@` (not at the start).
pub open spec fn email_from(s: Seq<char>, i: int, at: i32, dot: bool) -> bool
    decreases s.len() - i,
{
    if i < 0 || i >= s.len() {
        at == 1 && dot && !(s.len() > 0 && s.last() == '.') && !(s.len() > 0 && s.last() == '@')
    } else {
        let c = s[i];
        let at2 = if c == '@' {
            vstd::wrapping::i32_specs::wrapping_add(at, 1)
        } else {
            at
        };
        if c == '@' && i == 0 {
            false
        } else if is_ws(c) {
            false
        } else {
            email_from(s, i + 1, at2, dot || (at2 >= 1 && c == '.' && i > 0))
        }
    }
}

/// One `@`, not first; a `.` after it; no whitespace; not ending in `.`
/// or `@`.
pub open spec fn is_email(s: Seq<char>) -> bool {
    email_from(s, 0, 0, false)
}



/// One or more ASCII digits followed by one of `s`, `m`, `h`, `d`.
pub open spec fn is_duration(s: Seq<char>) -> bool {
    s.len() >= 2 && (s.last() == 's' || s.last() == 'm' || s.last() == 'h' || s.last() == 'd')
        && forall|j: int| 0 <= j < s.len() - 1 ==> '0' <= #[trigger] s[j] <= '9'
}

/// `string`, `int`, `float`, `bool` elements for the `list[…]` types.
pub open spec fn elem_fits(kind: int, e: ValueModel) -> bool {
    if kind == 0 {
        e is Str
    } else if kind == 1 {
        e is Integer
    } else if kind == 2 {
        e is Float || e is Integer
    } else {
        e is Bool
    }
}

pub open spec fn list_fits(kind: int, v: ValueModel) -> bool {
    match v {
        ValueModel::Array(items) => forall|i: int| 0 <= i < items.len() ==> elem_fits(kind, #[trigger] items[i]),
        _ => false,
    }
}

/// Whether `v` has the `@type` named `t`; unknown type names pass.
pub open spec fn type_matches(t: Seq<char>, v: ValueModel) -> bool {
    if t == "string"@ {
        v is Str
    } else if t == "int"@ {
        v is Integer
    } else if t == "float"@ {
        v is Float || v is Integer
    } else if t == "bool"@ {
        v is Bool
    } else if t == "dict"@ {
        v is Dict
    } else if t == "list"@ {
        v is Array
    } else if t == "list[string]"@ {
        list_fits(0, v)
    } else if t == "list[int]"@ {
        list_fits(1, v)
    } else if t == "list[float]"@ {
        list_fits(2, v)
    } else if t == "list[bool]"@ {
        list_fits(3, v)
    } else if t == "url"@ {
        v matches ValueModel::Str(s) && is_url(s)
    } else if t == "email"@ {
        v matches ValueModel::Str(s) && is_email(s)
    } else if t == "path"@ {
        v is Str
    } else if t == "duration"@ {
        v matches ValueModel::Str(s) && is_duration(s)
    } else {
        true
    }
}

/// Annotations that only fit leaf values; they are ignored on dicts.
pub open spec fn leaf_only(n: Seq<char>) -> bool {
    n == "type"@ || n == "min"@ || n == "max"@ || n == "pattern"@ || n == "enum"@ || n
        == "positive"@ || n == "nonzero"@ || n == "minlen"@ || n == "maxlen"@
}

/// The last annotation called `name` that applies (a later one overrides
/// an earlier one).
pub open spec fn pick(anns: Seq<AnnModel>, is_dict: bool, name: Seq<char>) -> Option<AnnModel>
    decreases anns.len(),
{
    if anns.len() == 0 {
        None
    } else if anns.last().name == name && !(is_dict && leaf_only(name)) {
        Some(anns.last())
    } else {
        pick(anns.drop_last(), is_dict, name)
    }
}

pub open spec fn as_float<H: Fn(HostQuery) -> HostReply>(h: H, v: ValueModel) -> Option<u64> {
    match v {
        ValueModel::Integer(n) => Some(float_from_int(h, n)),
        ValueModel::Float(f) => Some(f),
        _ => None,
    }
}

pub open spec fn arg_num<H: Fn(HostQuery) -> HostReply>(h: H, a: ArgModel) -> Option<u64> {
    match a {
        ArgModel::Int(n) => Some(float_from_int(h, n)),
        ArgModel::Float(f) => Some(f),
        _ => None,
    }
}

pub open spec fn arg_int<H: Fn(HostQuery) -> HostReply>(h: H, a: ArgModel) -> Option<i64> {
    match a {
        ArgModel::Int(n) => Some(n),
        ArgModel::Float(f) => Some(float_to_int(h, f)),
        _ => None,
    }
}

/// Characters of a string, items of a list, entries of a dict.
pub open spec fn len_of(v: ValueModel) -> Option<int> {
    match v {
        ValueModel::Str(s) => Some(s.len() as int),
        ValueModel::Array(a) => Some(a.len() as int),
        ValueModel::Dict(d) => Some(d.len() as int),
        _ => None,
    }
}

/// The parts joined with `sep`.
pub open spec fn join_with(parts: Seq<Seq<char>>, sep: Seq<char>) -> Seq<char>
    decreases parts.len(),
{
    if parts.len() == 0 {
        Seq::empty()
    } else if parts.len() == 1 {
        parts[0]
    } else {
        join_with(parts.drop_last(), sep) + sep + parts.last()
    }
}

// ── The checks ──────────────────────────────────────────────────────────────

pub open spec fn kpre(key: Seq<char>) -> Seq<char> {
    "["@ + key + "] "@
}

pub open spec fn vdiag(message: Seq<char>, span: Span) -> DiagnosticModel {
    DiagnosticModel { message, span, severity: Severity::Error, code: DiagnosticCode::Validation }
}

pub open spec fn one_if(b: bool, d: DiagnosticModel) -> Seq<DiagnosticModel> {
    if b {
        seq![d]
    } else {
        Seq::empty()
    }
}

pub open spec fn check_required(anns: Seq<AnnModel>, key: Seq<char>, v: ValueModel, span: Span) -> Seq<DiagnosticModel> {
    one_if(
        pick(anns, v is Dict, "required"@) is Some && empty_like(v),
        vdiag(kpre(key) + "value is @required but is empty or null"@, span),
    )
}

pub open spec fn check_type(anns: Seq<AnnModel>, key: Seq<char>, v: ValueModel, span: Span) -> Seq<DiagnosticModel> {
    match pick(anns, v is Dict, "type"@) {
        Some(a) => match a.arg {
            ArgModel::Str(t) => one_if(
                !type_matches(t, v),
                vdiag(kpre(key) + "expected @type: "@ + t + ", got "@ + type_name_of(v), span),
            ),
            _ => Seq::empty(),
        },
        None => Seq::empty(),
    }
}

/// `@min` (`below`) or `@max` (`exceeds`): a number compared with the
/// argument.
pub open spec fn check_bound<H: Fn(HostQuery) -> HostReply>(
    h: H,
    anns: Seq<AnnModel>,
    key: Seq<char>,
    v: ValueModel,
    span: Span,
    is_min: bool,
) -> Seq<DiagnosticModel> {
    let name = if is_min {
        "min"@
    } else {
        "max"@
    };
    match pick(anns, v is Dict, name) {
        Some(a) => match (arg_num(h, a.arg), as_float(h, v)) {
            (Some(n), Some(x)) => one_if(
                float_compare(h, x, n) == Some(if is_min {
                    -1i64
                } else {
                    1i64
                }),
                vdiag(
                    kpre(key) + "value "@ + float_display(h, x) + (if is_min {
                        " is below @min: "@
                    } else {
                        " exceeds @max: "@
                    }) + float_display(h, n),
                    span,
                ),
            ),
            _ => Seq::empty(),
        },
        None => Seq::empty(),
    }
}

/// `@minlen` / `@maxlen`: a length compared with the argument.
pub open spec fn check_len<H: Fn(HostQuery) -> HostReply>(
    h: H,
    anns: Seq<AnnModel>,
    key: Seq<char>,
    v: ValueModel,
    span: Span,
    is_min: bool,
) -> Seq<DiagnosticModel> {
    let name = if is_min {
        "minlen"@
    } else {
        "maxlen"@
    };
    match pick(anns, v is Dict, name) {
        Some(a) => match (arg_int(h, a.arg), len_of(v)) {
            (Some(n), Some(l)) => one_if(
                if is_min {
                    (l as i64) < n
                } else {
                    (l as i64) > n
                },
                vdiag(
                    kpre(key) + "length "@ + int_text(l) + (if is_min {
                        " is below @minlen: "@
                    } else {
                        " exceeds @maxlen: "@
                    }) + int_text(n as int),
                    span,
                ),
            ),
            _ => Seq::empty(),
        },
        None => Seq::empty(),
    }
}

/// The regex a `@pattern` argument stands for: anchored at both ends.
pub open spec fn anchored(pat: Seq<char>) -> Seq<char> {
    "^(?:"@ + pat + ")$"@
}

pub open spec fn check_pattern(anns: Seq<AnnModel>, key: Seq<char>, v: ValueModel, span: Span) -> Seq<DiagnosticModel> {
    match pick(anns, v is Dict, "pattern"@) {
        Some(a) => match (a.arg, v) {
            (ArgModel::Str(pat), ValueModel::Str(s)) => if !regex_compiles(anchored(pat)) {
                seq![
                    DiagnosticModel {
                        message: kpre(key) + "invalid @pattern regex: "@ + regex_error_text(anchored(pat)),
                        span: a.span,
                        severity: Severity::Error,
                        code: DiagnosticCode::BadAnnotation,
                    },
                ]
            } else {
                one_if(
                    !regex_accepts(anchored(pat), s),
                    vdiag(kpre(key) + "value `"@ + s + "` does not match @pattern: `"@ + pat + "`"@, span),
                )
            },
            _ => Seq::empty(),
        },
        None => Seq::empty(),
    }
}

pub open spec fn check_enum(anns: Seq<AnnModel>, key: Seq<char>, v: ValueModel, span: Span) -> Seq<DiagnosticModel> {
    match pick(anns, v is Dict, "enum"@) {
        Some(a) => match (a.arg, v) {
            (ArgModel::List(cs), ValueModel::Str(s)) => one_if(
                !cs.contains(s),
                vdiag(kpre(key) + "value `"@ + s + "` not in @enum: ["@ + join_with(cs, ", "@) + "]"@, span),
            ),
            _ => Seq::empty(),
        },
        None => Seq::empty(),
    }
}

pub open spec fn check_positive<H: Fn(HostQuery) -> HostReply>(
    h: H,
    anns: Seq<AnnModel>,
    key: Seq<char>,
    v: ValueModel,
    span: Span,
) -> Seq<DiagnosticModel> {
    match (pick(anns, v is Dict, "positive"@), as_float(h, v)) {
        (Some(_), Some(x)) => one_if(
            float_compare(h, x, 0) == Some(-1i64) || float_compare(h, x, 0) == Some(0i64),
            vdiag(kpre(key) + "value "@ + float_display(h, x) + " must be @positive (> 0)"@, span),
        ),
        _ => Seq::empty(),
    }
}

pub open spec fn is_zero<H: Fn(HostQuery) -> HostReply>(h: H, v: ValueModel) -> bool {
    match v {
        ValueModel::Integer(n) => n == 0,
        ValueModel::Float(f) => float_compare(h, f, 0) == Some(0i64),
        _ => false,
    }
}

pub open spec fn check_nonzero<H: Fn(HostQuery) -> HostReply>(
    h: H,
    anns: Seq<AnnModel>,
    key: Seq<char>,
    v: ValueModel,
    span: Span,
) -> Seq<DiagnosticModel> {
    one_if(
        pick(anns, v is Dict, "nonzero"@) is Some && is_zero(h, v),
        vdiag(kpre(key) + "value must be @nonzero"@, span),
    )
}

pub open spec fn check_nonempty(anns: Seq<AnnModel>, key: Seq<char>, v: ValueModel, span: Span) -> Seq<DiagnosticModel> {
    one_if(
        pick(anns, v is Dict, "nonempty"@) is Some && empty_like(v),
        vdiag(kpre(key) + "value must be @nonempty"@, span),
    )
}

pub open spec fn check_deprecated(anns: Seq<AnnModel>, key: Seq<char>, v: ValueModel, span: Span) -> Seq<DiagnosticModel> {
    match pick(anns, v is Dict, "deprecated"@) {
        Some(a) => seq![
            DiagnosticModel {
                message: match a.arg {
                    ArgModel::Str(s) => "`"@ + key + "` is deprecated: "@ + s,
                    _ => "`"@ + key + "` is deprecated"@,
                },
                span,
                severity: Severity::Warning,
                code: DiagnosticCode::Deprecated,
            },
        ],
        None => Seq::empty(),
    }
}

/// Every check for one key, in order.
pub open spec fn checks<H: Fn(HostQuery) -> HostReply>(
    h: H,
    key: Seq<char>,
    v: ValueModel,
    anns: Seq<AnnModel>,
    span: Span,
) -> Seq<DiagnosticModel> {
    check_required(anns, key, v, span) + check_type(anns, key, v, span) + check_bound(
        h,
        anns,
        key,
        v,
        span,
        true,
    ) + check_bound(h, anns, key, v, span, false) + check_len(h, anns, key, v, span, true)
        + check_len(h, anns, key, v, span, false) + check_pattern(anns, key, v, span) + check_enum(
        anns,
        key,
        v,
        span,
    ) + check_positive(h, anns, key, v, span) + check_nonzero(h, anns, key, v, span)
        + check_nonempty(anns, key, v, span) + check_deprecated(anns, key, v, span)
}

// ── Resolving dotted keys ───────────────────────────────────────────────────

/// `s` split at every `sep` (`str::split`).
pub open spec fn split_at_from(s: Seq<char>, sep: char, i: int, start: int) -> Seq<Seq<char>>
    decreases s.len() - i,
{
    if i < 0 || i >= s.len() {
        seq![s.subrange(start, s.len() as int)]
    } else if s[i] == sep {
        seq![s.subrange(start, i)] + split_at_from(s, sep, i + 1, i + 1)
    } else {
        split_at_from(s, sep, i + 1, start)
    }
}

pub open spec fn split_dots(s: Seq<char>) -> Seq<Seq<char>> {
    split_at_from(s, '.', 0, 0)
}

/// The value at the path `parts` (the first in `m`, the rest in nested
/// dicts).
pub open spec fn resolve_parts(m: Seq<(Seq<char>, ValueModel)>, parts: Seq<Seq<char>>) -> Option<ValueModel>
    decreases parts.len(),
{
    if parts.len() == 0 {
        None
    } else {
        match dict_get(m, parts[0]) {
            None => None,
            Some(v) => if parts.len() == 1 {
                Some(v)
            } else {
                match v {
                    ValueModel::Dict(d) => resolve_parts(d, parts.drop_first()),
                    _ => None,
                }
            },
        }
    }
}

/// The value a dotted key names in the config.
pub open spec fn resolve(config: Seq<(Seq<char>, ValueModel)>, dotted: Seq<char>) -> Option<ValueModel> {
    resolve_parts(config, split_dots(dotted))
}

// ── The whole document ──────────────────────────────────────────────────────

/// The diagnostics for the `i`-th annotated key, when it resolves.
pub open spec fn entry_diags<H: Fn(HostQuery) -> HostReply>(h: H, d: DocModel, i: int) -> Seq<DiagnosticModel> {
    let key = d.meta[i].0;
    match resolve(d.config, key) {
        None => Seq::empty(),
        Some(v) => checks(
            h,
            key,
            v,
            d.meta[i].1,
            match dict_get(d.key_spans, key) {
                Some(s) => s,
                None => Span::dummy_spec(),
            },
        ),
    }
}

pub open spec fn validate_from<H: Fn(HostQuery) -> HostReply>(h: H, d: DocModel, i: int) -> Seq<DiagnosticModel>
    decreases d.meta.len() - i,
{
    if i < 0 || i >= d.meta.len() {
        Seq::empty()
    } else {
        entry_diags(h, d, i) + validate_from(h, d, i + 1)
    }
}

/// The diagnostics of a document: each annotated key that resolves, in the
/// order the keys were annotated.
pub open spec fn sp_validate<H: Fn(HostQuery) -> HostReply>(h: H, d: DocModel) -> Seq<DiagnosticModel> {
    validate_from(h, d, 0)
}


// ── Executable checks ───────────────────────────────────────────────────────


fn url_like(s: &[char]) -> (r: bool)
    ensures
        r == is_url(s@),
{
    starts_with_lit(s, "http://") || starts_with_lit(s, "https://")
}

fn email_like(s: &[char]) -> (r: bool)
    ensures
        r == is_email(s@),
{
    let n = s.len();
    let mut at: i32 = 0;
    let mut dot = false;
    let mut i: usize = 0;
    while i < n
        invariant
            n == s@.len(),
            i <= n,
            is_email(s@) == email_from(s@, i as int, at, dot),
        decreases n - i,
    {
        let c = s[i];
        if c == '@' {
            at = at.wrapping_add(1);
            if i == 0 {
                return false;
            }
        }
        if at >= 1 && c == '.' && i > 0 {
            dot = true;
        }
        if is_whitespace(c) {
            return false;
        }
        i = i + 1;
    }
    at == 1 && dot && !(n > 0 && s[n - 1] == '.') && !(n > 0 && s[n - 1] == '@')
}

fn duration_like(s: &[char]) -> (r: bool)
    ensures
        r == is_duration(s@),
{
    let n = s.len();
    if n < 2 {
        return false;
    }
    let last = s[n - 1];
    if !(last == 's' || last == 'm' || last == 'h' || last == 'd') {
        return false;
    }
    let mut j: usize = 0;
    while j < n - 1
        invariant
            n == s@.len(),
            n >= 1,
            j <= n - 1,
            forall|q: int| 0 <= q < j ==> '0' <= #[trigger] s@[q] <= '9',
        decreases n - 1 - j,
    {
        if !('0' <= s[j] && s[j] <= '9') {
            return false;
        }
        j = j + 1;
    }
    true
}

fn elem_fits_value(kind: u8, e: &Value) -> (r: bool)
    ensures
        r == elem_fits(kind as int, e.model()),
{
    match e {
        Value::String(_) => kind == 0,
        Value::Integer(_) => kind == 1 || kind == 2,
        Value::Float(_) => kind == 2,
        Value::Bool(_) => kind != 0 && kind != 1 && kind != 2,
        _ => false,
    }
}

fn list_fits_value(kind: u8, v: &Value) -> (r: bool)
    ensures
        r == list_fits(kind as int, v.model()),
{
    match v {
        Value::Array(items) => {
            let ghost m = v.model();
            let mut i: usize = 0;
            while i < items.len()
                invariant
                    *v == Value::Array(*items),
                    m == v.model(),
                    i <= items@.len(),
                    m->Array_0.len() == items@.len(),
                    forall|q: int| 0 <= q < i ==> elem_fits(kind as int, #[trigger] m->Array_0[q]),
                decreases items@.len() - i,
            {
                assert(m->Array_0[i as int] == items@[i as int].model());
                if !elem_fits_value(kind, &items[i]) {
                    return false;
                }
                i = i + 1;
            }
            true
        },
        _ => false,
    }
}

fn type_fits(t: &[char], v: &Value) -> (r: bool)
    ensures
        r == type_matches(t@, v.model()),
{
    if eq_lit(t, "string") {
        matches!(v, Value::String(_))
    } else if eq_lit(t, "int") {
        matches!(v, Value::Integer(_))
    } else if eq_lit(t, "float") {
        matches!(v, Value::Float(_)) || matches!(v, Value::Integer(_))
    } else if eq_lit(t, "bool") {
        matches!(v, Value::Bool(_))
    } else if eq_lit(t, "dict") {
        matches!(v, Value::Dict(_))
    } else if eq_lit(t, "list") {
        matches!(v, Value::Array(_))
    } else if eq_lit(t, "list[string]") {
        list_fits_value(0, v)
    } else if eq_lit(t, "list[int]") {
        list_fits_value(1, v)
    } else if eq_lit(t, "list[float]") {
        list_fits_value(2, v)
    } else if eq_lit(t, "list[bool]") {
        list_fits_value(3, v)
    } else if eq_lit(t, "url") {
        match v {
            Value::String(s) => url_like(chars_of(s).as_slice()),
            _ => false,
        }
    } else if eq_lit(t, "email") {
        match v {
            Value::String(s) => email_like(chars_of(s).as_slice()),
            _ => false,
        }
    } else if eq_lit(t, "path") {
        matches!(v, Value::String(_))
    } else if eq_lit(t, "duration") {
        match v {
            Value::String(s) => duration_like(chars_of(s).as_slice()),
            _ => false,
        }
    } else {
        true
    }
}

fn is_leaf_only(n: &str) -> (r: bool)
    ensures
        r == leaf_only(n@),
{
    let c = to_chars(n);
    let s = c.as_slice();
    eq_lit(s, "type") || eq_lit(s, "min") || eq_lit(s, "max") || eq_lit(s, "pattern") || eq_lit(s, "enum")
        || eq_lit(s, "positive") || eq_lit(s, "nonzero") || eq_lit(s, "minlen") || eq_lit(s, "maxlen")
}

/// Index of the annotation [`pick`] chooses.
fn pick_ann(anns: &Vec<Annotation>, is_dict: bool, name: &str) -> (r: Option<usize>)
    ensures
        match r {
            Some(i) => i < anns@.len() && pick(anns_model(anns@), is_dict, name@) == Some(anns@[i as int]@),
            None => pick(anns_model(anns@), is_dict, name@) is None,
        },
{
    let ghost am = anns_model(anns@);
    let skip = is_dict && is_leaf_only(name);
    let nc = to_chars(name);
    let mut i: usize = anns.len();
    assert(am.take(i as int) =~= am);
    while i > 0
        invariant
            i <= anns@.len(),
            am == anns_model(anns@),
            skip == (is_dict && leaf_only(name@)),
            nc@ == name@,
            pick(am, is_dict, name@) == pick(am.take(i as int), is_dict, name@),
        decreases i,
    {
        let a = &anns[i - 1];
        let an = chars_of(&a.name);
        assert(am.take(i as int).last() == a@);
        assert(am.take(i as int).drop_last() =~= am.take(i - 1));
        if crate::text::seq_eq(an.as_slice(), nc.as_slice()) && !skip {
            return Some(i - 1);
        }
        i = i - 1;
    }
    None
}

fn value_as_float<H: Fn(HostQuery) -> HostReply>(h: &H, v: &Value) -> (r: Option<u64>)
    requires
        host_ok(*h),
    ensures
        r == as_float(*h, v.model()),
{
    match v {
        Value::Integer(n) => Some(host_from_int(h, *n)),
        Value::Float(f) => Some(*f),
        _ => None,
    }
}

fn arg_as_num<H: Fn(HostQuery) -> HostReply>(h: &H, a: &AnnotationArg) -> (r: Option<u64>)
    requires
        host_ok(*h),
    ensures
        r == arg_num(*h, a.model()),
{
    match a {
        AnnotationArg::Int(n) => Some(host_from_int(h, *n)),
        AnnotationArg::Float(f) => Some(*f),
        _ => None,
    }
}

fn arg_as_int<H: Fn(HostQuery) -> HostReply>(h: &H, a: &AnnotationArg) -> (r: Option<i64>)
    requires
        host_ok(*h),
    ensures
        r == arg_int(*h, a.model()),
{
    match a {
        AnnotationArg::Int(n) => Some(*n),
        AnnotationArg::Float(f) => Some(host_to_int(h, *f)),
        _ => None,
    }
}

fn value_len(v: &Value) -> (r: Option<usize>)
    ensures
        match r {
            Some(l) => len_of(v.model()) == Some(l as int),
            None => len_of(v.model()) is None,
        },
{
    match v {
        Value::String(s) => Some(s.as_str().unicode_len()),
        Value::Array(a) => Some(a.len()),
        Value::Dict(d) => {
            proof {
                d.lemma_model();
            }
            Some(d.len())
        },
        _ => None,
    }
}

fn key_prefix(key: &[char]) -> (r: Vec<char>)
    ensures
        r@ == kpre(key@),
{
    let mut m = to_chars("[");
    push_all(&mut m, key);
    push_lit(&mut m, "] ");
    m
}

fn no_diags() -> (r: Vec<Diagnostic>)
    ensures
        diags_model(r@) == Seq::<DiagnosticModel>::empty(),
{
    let r: Vec<Diagnostic> = Vec::new();
    assert(diags_model(r@) =~= Seq::<DiagnosticModel>::empty());
    r
}

fn one_diag(d: Diagnostic) -> (r: Vec<Diagnostic>)
    ensures
        diags_model(r@) == seq![d@],
{
    let mut r: Vec<Diagnostic> = Vec::new();
    let ghost dm = d@;
    r.push(d);
    assert(diags_model(r@) =~= seq![dm]);
    r
}

fn validation_error(m: Vec<char>, span: Span) -> (d: Diagnostic)
    ensures
        d@ == vdiag(m@, span),
{
    Diagnostic::error(string_from(m.as_slice()), span, DiagnosticCode::Validation)
}

fn extend_diags(out: &mut Vec<Diagnostic>, more: Vec<Diagnostic>)
    ensures
        diags_model(final(out)@) == diags_model(old(out)@) + diags_model(more@),
{
    let mut m = more;
    let ghost a = out@;
    let ghost b = m@;
    out.append(&mut m);
    assert(diags_model(out@) =~= diags_model(a) + diags_model(b));
}

fn run_required(anns: &Vec<Annotation>, key: &[char], v: &Value, span: Span) -> (r: Vec<Diagnostic>)
    ensures
        diags_model(r@) == check_required(anns_model(anns@), key@, v.model(), span),
{
    let is_dict = matches!(v, Value::Dict(_));
    if pick_ann(anns, is_dict, "required").is_some() && v.is_empty_like() {
        let mut m = key_prefix(key);
        push_lit(&mut m, "value is @required but is empty or null");
        one_diag(validation_error(m, span))
    } else {
        no_diags()
    }
}

fn run_type(anns: &Vec<Annotation>, key: &[char], v: &Value, span: Span) -> (r: Vec<Diagnostic>)
    ensures
        diags_model(r@) == check_type(anns_model(anns@), key@, v.model(), span),
{
    let is_dict = matches!(v, Value::Dict(_));
    match pick_ann(anns, is_dict, "type") {
        Some(i) => match &anns[i].arg {
            AnnotationArg::String(t) => {
                let tc = chars_of(t);
                proof {
                    reveal_strlit("duration");
                }
                if !type_fits(tc.as_slice(), v) {
                    let mut m = key_prefix(key);
                    push_lit(&mut m, "expected @type: ");
                    push_all(&mut m, tc.as_slice());
                    push_lit(&mut m, ", got ");
                    let tn = v.type_label();
                    push_all(&mut m, chars_of(&tn).as_slice());
                    one_diag(validation_error(m, span))
                } else {
                    no_diags()
                }
            },
            _ => no_diags(),
        },
        None => no_diags(),
    }
}

fn run_bound<H: Fn(HostQuery) -> HostReply>(
    h: &H,
    anns: &Vec<Annotation>,
    key: &[char],
    v: &Value,
    span: Span,
    is_min: bool,
) -> (r: Vec<Diagnostic>)
    requires
        host_ok(*h),
    ensures
        diags_model(r@) == check_bound(*h, anns_model(anns@), key@, v.model(), span, is_min),
{
    let is_dict = matches!(v, Value::Dict(_));
    let name = if is_min {
        "min"
    } else {
        "max"
    };
    match pick_ann(anns, is_dict, name) {
        Some(i) => match (arg_as_num(h, &anns[i].arg), value_as_float(h, v)) {
            (Some(n), Some(x)) => {
                let want: i64 = if is_min {
                    -1
                } else {
                    1
                };
                let hit = match host_compare(h, x, n) {
                    Some(k) => k == want,
                    None => false,
                };
                if hit {
                    let mut m = key_prefix(key);
                    push_lit(&mut m, "value ");
                    push_all(&mut m, host_display(h, x).as_slice());
                    if is_min {
                        push_lit(&mut m, " is below @min: ");
                    } else {
                        push_lit(&mut m, " exceeds @max: ");
                    }
                    push_all(&mut m, host_display(h, n).as_slice());
                    one_diag(validation_error(m, span))
                } else {
                    no_diags()
                }
            },
            _ => no_diags(),
        },
        None => no_diags(),
    }
}

fn run_len<H: Fn(HostQuery) -> HostReply>(
    h: &H,
    anns: &Vec<Annotation>,
    key: &[char],
    v: &Value,
    span: Span,
    is_min: bool,
) -> (r: Vec<Diagnostic>)
    requires
        host_ok(*h),
    ensures
        diags_model(r@) == check_len(*h, anns_model(anns@), key@, v.model(), span, is_min),
{
    let is_dict = matches!(v, Value::Dict(_));
    let name = if is_min {
        "minlen"
    } else {
        "maxlen"
    };
    match pick_ann(anns, is_dict, name) {
        Some(i) => match (arg_as_int(h, &anns[i].arg), value_len(v)) {
            (Some(n), Some(l)) => {
                let li = l as i64;
                let hit = if is_min {
                    li < n
                } else {
                    li > n
                };
                if hit {
                    let mut m = key_prefix(key);
                    push_lit(&mut m, "length ");
                    push_all(&mut m, nat_to_text(l as u64).as_slice());
                    if is_min {
                        push_lit(&mut m, " is below @minlen: ");
                    } else {
                        push_lit(&mut m, " exceeds @maxlen: ");
                    }
                    push_all(&mut m, int_to_text(n).as_slice());
                    one_diag(validation_error(m, span))
                } else {
                    no_diags()
                }
            },
            _ => no_diags(),
        },
        None => no_diags(),
    }
}

fn run_pattern(anns: &Vec<Annotation>, key: &[char], v: &Value, span: Span) -> (r: Vec<Diagnostic>)
    ensures
        diags_model(r@) == check_pattern(anns_model(anns@), key@, v.model(), span),
{
    let is_dict = matches!(v, Value::Dict(_));
    match pick_ann(anns, is_dict, "pattern") {
        Some(i) => {
            let a = &anns[i];
            match (&a.arg, v) {
                (AnnotationArg::String(pat), Value::String(s)) => {
                    let pc = chars_of(pat);
                    let mut full = to_chars("^(?:");
                    push_all(&mut full, pc.as_slice());
                    push_lit(&mut full, ")$");
                    let fs = string_from(full.as_slice());
                    match regex_new(fs.as_str()) {
                        Ok(p) => {
                            if !regex_is_match(&p, s.as_str()) {
                                let mut m = key_prefix(key);
                                push_lit(&mut m, "value `");
                                push_all(&mut m, chars_of(s).as_slice());
                                push_lit(&mut m, "` does not match @pattern: `");
                                push_all(&mut m, pc.as_slice());
                                push_lit(&mut m, "`");
                                one_diag(validation_error(m, span))
                            } else {
                                no_diags()
                            }
                        },
                        Err(e) => {
                            let et = regex_error_message(&e);
                            let mut m = key_prefix(key);
                            push_lit(&mut m, "invalid @pattern regex: ");
                            push_all(&mut m, chars_of(&et).as_slice());
                            one_diag(
                                Diagnostic::error(string_from(m.as_slice()), a.span, DiagnosticCode::BadAnnotation),
                            )
                        },
                    }
                },
                _ => no_diags(),
            }
        },
        None => no_diags(),
    }
}

fn join_choices(cs: &Vec<String>) -> (r: Vec<char>)
    ensures
        r@ == join_with(strings_model(cs@), ", "@),
{
    let ghost ps = strings_model(cs@);
    let n = cs.len();
    if n == 0 {
        return Vec::new();
    }
    let mut out = chars_of(&cs[0]);
    assert(ps.take(1) =~= seq![ps[0]]);
    let mut i: usize = 1;
    while i < n
        invariant
            n == cs@.len(),
            ps == strings_model(cs@),
            1 <= i <= n,
            out@ == join_with(ps.take(i as int), ", "@),
        decreases n - i,
    {
        let ghost before = out@;
        push_lit(&mut out, ", ");
        push_all(&mut out, chars_of(&cs[i]).as_slice());
        assert(ps.take(i + 1).drop_last() =~= ps.take(i as int));
        assert(out@ =~= before + ", "@ + ps[i as int]);
        i = i + 1;
    }
    assert(ps.take(n as int) =~= ps);
    out
}

fn run_enum(anns: &Vec<Annotation>, key: &[char], v: &Value, span: Span) -> (r: Vec<Diagnostic>)
    ensures
        diags_model(r@) == check_enum(anns_model(anns@), key@, v.model(), span),
{
    let is_dict = matches!(v, Value::Dict(_));
    match pick_ann(anns, is_dict, "enum") {
        Some(i) => match (&anns[i].arg, v) {
            (AnnotationArg::List(cs), Value::String(s)) => {
                let sc = chars_of(s);
                let ghost ps = strings_model(cs@);
                let mut found = false;
                let mut j: usize = 0;
                while j < cs.len() && !found
                    invariant
                        ps == strings_model(cs@),
                        j <= cs@.len(),
                        !found ==> forall|q: int| 0 <= q < j ==> ps[q] != sc@,
                        found ==> ps.contains(sc@),
                    decreases cs@.len() - j, if found { 0int } else { 1int },
                {
                    let c = chars_of(&cs[j]);
                    if crate::text::seq_eq(c.as_slice(), sc.as_slice()) {
                        assert(ps[j as int] == sc@);
                        found = true;
                    } else {
                        j = j + 1;
                    }
                }
                if !found {
                    let mut m = key_prefix(key);
                    push_lit(&mut m, "value `");
                    push_all(&mut m, sc.as_slice());
                    push_lit(&mut m, "` not in @enum: [");
                    push_all(&mut m, join_choices(cs).as_slice());
                    push_lit(&mut m, "]");
                    one_diag(validation_error(m, span))
                } else {
                    no_diags()
                }
            },
            _ => no_diags(),
        },
        None => no_diags(),
    }
}

fn run_positive<H: Fn(HostQuery) -> HostReply>(
    h: &H,
    anns: &Vec<Annotation>,
    key: &[char],
    v: &Value,
    span: Span,
) -> (r: Vec<Diagnostic>)
    requires
        host_ok(*h),
    ensures
        diags_model(r@) == check_positive(*h, anns_model(anns@), key@, v.model(), span),
{
    let is_dict = matches!(v, Value::Dict(_));
    match (pick_ann(anns, is_dict, "positive"), value_as_float(h, v)) {
        (Some(_), Some(x)) => {
            let hit = match host_compare(h, x, 0) {
                Some(k) => k == -1 || k == 0,
                None => false,
            };
            if hit {
                let mut m = key_prefix(key);
                push_lit(&mut m, "value ");
                push_all(&mut m, host_display(h, x).as_slice());
                push_lit(&mut m, " must be @positive (> 0)");
                one_diag(validation_error(m, span))
            } else {
                no_diags()
            }
        },
        _ => no_diags(),
    }
}

fn run_nonzero<H: Fn(HostQuery) -> HostReply>(
    h: &H,
    anns: &Vec<Annotation>,
    key: &[char],
    v: &Value,
    span: Span,
) -> (r: Vec<Diagnostic>)
    requires
        host_ok(*h),
    ensures
        diags_model(r@) == check_nonzero(*h, anns_model(anns@), key@, v.model(), span),
{
    let is_dict = matches!(v, Value::Dict(_));
    let zero = match v {
        Value::Integer(n) => *n == 0,
        Value::Float(f) => match host_compare(h, *f, 0) {
            Some(k) => k == 0,
            None => false,
        },
        _ => false,
    };
    if pick_ann(anns, is_dict, "nonzero").is_some() && zero {
        let mut m = key_prefix(key);
        push_lit(&mut m, "value must be @nonzero");
        one_diag(validation_error(m, span))
    } else {
        no_diags()
    }
}

fn run_nonempty(anns: &Vec<Annotation>, key: &[char], v: &Value, span: Span) -> (r: Vec<Diagnostic>)
    ensures
        diags_model(r@) == check_nonempty(anns_model(anns@), key@, v.model(), span),
{
    let is_dict = matches!(v, Value::Dict(_));
    if pick_ann(anns, is_dict, "nonempty").is_some() && v.is_empty_like() {
        let mut m = key_prefix(key);
        push_lit(&mut m, "value must be @nonempty");
        one_diag(validation_error(m, span))
    } else {
        no_diags()
    }
}

fn run_deprecated(anns: &Vec<Annotation>, key: &[char], v: &Value, span: Span) -> (r: Vec<Diagnostic>)
    ensures
        diags_model(r@) == check_deprecated(anns_model(anns@), key@, v.model(), span),
{
    let is_dict = matches!(v, Value::Dict(_));
    match pick_ann(anns, is_dict, "deprecated") {
        Some(i) => {
            let mut m = to_chars("`");
            push_all(&mut m, key);
            match &anns[i].arg {
                AnnotationArg::String(s) => {
                    push_lit(&mut m, "` is deprecated: ");
                    push_all(&mut m, chars_of(s).as_slice());
                },
                _ => {
                    push_lit(&mut m, "` is deprecated");
                },
            }
            one_diag(Diagnostic::warning(string_from(m.as_slice()), span, DiagnosticCode::Deprecated))
        },
        None => no_diags(),
    }
}

/// All checks of one annotated key, in order.
fn validate_one<H: Fn(HostQuery) -> HostReply>(
    h: &H,
    key: &[char],
    v: &Value,
    anns: &Vec<Annotation>,
    span: Span,
) -> (r: Vec<Diagnostic>)
    requires
        host_ok(*h),
    ensures
        diags_model(r@) == checks(*h, key@, v.model(), anns_model(anns@), span),
{
    let mut out = run_required(anns, key, v, span);
    extend_diags(&mut out, run_type(anns, key, v, span));
    extend_diags(&mut out, run_bound(h, anns, key, v, span, true));
    extend_diags(&mut out, run_bound(h, anns, key, v, span, false));
    extend_diags(&mut out, run_len(h, anns, key, v, span, true));
    extend_diags(&mut out, run_len(h, anns, key, v, span, false));
    extend_diags(&mut out, run_pattern(anns, key, v, span));
    extend_diags(&mut out, run_enum(anns, key, v, span));
    extend_diags(&mut out, run_positive(h, anns, key, v, span));
    extend_diags(&mut out, run_nonzero(h, anns, key, v, span));
    extend_diags(&mut out, run_nonempty(anns, key, v, span));
    extend_diags(&mut out, run_deprecated(anns, key, v, span));
    out
}

fn split_dotted(s: &[char]) -> (r: Vec<Vec<char>>)
    ensures
        r@.map_values(|p: Vec<char>| p@) == split_dots(s@),
{
    let n = s.len();
    let mut out: Vec<Vec<char>> = Vec::new();
    let mut start: usize = 0;
    let mut i: usize = 0;
    assert(out@.map_values(|p: Vec<char>| p@) + split_dots(s@) =~= split_dots(s@));
    while i < n
        invariant
            n == s@.len(),
            start <= i <= n,
            out@.map_values(|p: Vec<char>| p@) + split_at_from(s@, '.', i as int, start as int) == split_dots(
                s@,
            ),
        decreases n - i,
    {
        if s[i] == '.' {
            let ghost before = out@.map_values(|p: Vec<char>| p@);
            let piece = slice_of(s, start, i);
            let ghost pm = piece@;
            out.push(piece);
            assert(out@.map_values(|p: Vec<char>| p@) =~= before + seq![pm]);
            start = i + 1;
        }
        i = i + 1;
    }
    let ghost before = out@.map_values(|p: Vec<char>| p@);
    let piece = slice_of(s, start, n);
    let ghost pm = piece@;
    out.push(piece);
    assert(out@.map_values(|p: Vec<char>| p@) =~= before + seq![pm]);
    out
}

/// The value a dotted key names in `config`.
pub fn resolve_value<'a>(config: &'a Dict, dotted: &[char]) -> (r: Option<&'a Value>)
    ensures
        match resolve(config.model(), dotted@) {
            Some(m) => r is Some && r->0.model() == m,
            None => r is None,
        },
{
    let parts = split_dotted(dotted);
    let ghost ps = parts@.map_values(|p: Vec<char>| p@);
    let n = parts.len();
    if n == 0 {
        return None;
    }
    let mut node: &'a Dict = config;
    let mut i: usize = 0;
    assert(ps.skip(0) =~= ps);
    while i < n
        invariant
            n == parts@.len(),
            ps == parts@.map_values(|p: Vec<char>| p@),
            i < n,
            resolve(config.model(), dotted@) == resolve_parts(node.model(), ps.skip(i as int)),
        decreases n - i,
    {
        let ghost rest = ps.skip(i as int);
        assert(rest[0] == parts@[i as int]@);
        assert(rest.drop_first() =~= ps.skip(i + 1));
        match node.find(parts[i].as_slice()) {
            None => {
                return None;
            },
            Some(idx) => {
                proof {
                    node.lemma_model();
                }
                let v = node.value_at(idx);
                if i + 1 == n {
                    return Some(v);
                }
                match v {
                    Value::Dict(d) => {
                        node = d;
                    },
                    _ => {
                        return None;
                    },
                }
            },
        }
        i = i + 1;
    }
    None
}

/// Checks every annotated key of `doc` against its annotations.
pub fn validate<H: Fn(HostQuery) -> HostReply>(doc: &Document, h: &H) -> (r: Vec<Diagnostic>)
    requires
        host_ok(*h),
    ensures
        diags_model(r@) == sp_validate(*h, doc@),
{
    let ghost d = doc@;
    let mut out: Vec<Diagnostic> = Vec::new();
    let n = doc.meta.len();
    let mut i: usize = 0;
    assert(diags_model(out@) + validate_from(*h, d, 0) =~= sp_validate(*h, d));
    while i < n
        invariant
            d == doc@,
            n == d.meta.len(),
            i <= n,
            host_ok(*h),
            diags_model(out@) + validate_from(*h, d, i as int) == sp_validate(*h, d),
        decreases n - i,
    {
        let ks = doc.meta.key_at(i);
        let key = chars_of(ks);
        let anns = doc.meta.value_at(i);
        assert(d.meta[i as int] == (key@, anns_model(anns@)));
        match resolve_value(&doc.config, key.as_slice()) {
            None => {},
            Some(v) => {
                let span = match doc.key_spans.get(ks.as_str()) {
                    Some(s) => *s,
                    None => Span::dummy(),
                };
                let more = validate_one(h, key.as_slice(), v, anns, span);
                extend_diags(&mut out, more);
            },
        }
        let ghost e = entry_diags(*h, d, i as int);
        assert(diags_model(out@) + validate_from(*h, d, i + 1) =~= sp_validate(*h, d));
        i = i + 1;
    }
    assert(diags_model(out@) =~= diags_model(out@) + validate_from(*h, d, i as int));
    out
}


// ── Laws ────────────────────────────────────────────────────────────────────

proof fn lemma_pick_leaf_on_dict(anns: Seq<AnnModel>, name: Seq<char>)
    requires
        leaf_only(name),
    ensures
        pick(anns, true, name) is None,
    decreases anns.len(),
{
    if anns.len() > 0 {
        lemma_pick_leaf_on_dict(anns.drop_last(), name);
    }
}

/// On a section dict the leaf-only annotations (`@type`, `@min`, `@max`,
/// `@minlen`, `@maxlen`, `@pattern`, `@enum`, `@positive`, `@nonzero`) are
/// skipped: for a dict value, only `@required`, `@nonempty` and
/// `@deprecated` can report anything.
pub proof fn law_leaf_checks_skip_dicts<H: Fn(HostQuery) -> HostReply>(
    h: H,
    key: Seq<char>,
    v: ValueModel,
    anns: Seq<AnnModel>,
    span: Span,
)
    requires
        v is Dict,
    ensures
        checks(h, key, v, anns, span) == check_required(anns, key, v, span) + check_nonempty(
            anns,
            key,
            v,
            span,
        ) + check_deprecated(anns, key, v, span),
{
    lemma_pick_leaf_on_dict(anns, "type"@);
    lemma_pick_leaf_on_dict(anns, "min"@);
    lemma_pick_leaf_on_dict(anns, "max"@);
    lemma_pick_leaf_on_dict(anns, "minlen"@);
    lemma_pick_leaf_on_dict(anns, "maxlen"@);
    lemma_pick_leaf_on_dict(anns, "pattern"@);
    lemma_pick_leaf_on_dict(anns, "enum"@);
    lemma_pick_leaf_on_dict(anns, "positive"@);
    lemma_pick_leaf_on_dict(anns, "nonzero"@);
    let e = Seq::<DiagnosticModel>::empty();
    assert(check_required(anns, key, v, span) + e + e + e + e + e + e + e + e + e + check_nonempty(
        anns,
        key,
        v,
        span,
    ) + check_deprecated(anns, key, v, span) =~= check_required(anns, key, v, span) + check_nonempty(
        anns,
        key,
        v,
        span,
    ) + check_deprecated(anns, key, v, span));
}

/// What a validation diagnostic can be: an error about the value, at the
/// key, or about a broken annotation, or a warning that the key is
/// deprecated, at the key.
pub open spec fn diag_shape(dg: DiagnosticModel, key_span: Span) -> bool {
    ||| dg.severity == Severity::Error && dg.code == DiagnosticCode::Validation && dg.span == key_span
    ||| dg.severity == Severity::Error && dg.code == DiagnosticCode::BadAnnotation
    ||| dg.severity == Severity::Warning && dg.code == DiagnosticCode::Deprecated && dg.span == key_span
}

pub open spec fn all_shaped(ds: Seq<DiagnosticModel>, key_span: Span) -> bool {
    forall|k: int| 0 <= k < ds.len() ==> diag_shape(#[trigger] ds[k], key_span)
}

proof fn lemma_shaped_concat(a: Seq<DiagnosticModel>, b: Seq<DiagnosticModel>, sp: Span)
    requires
        all_shaped(a, sp),
        all_shaped(b, sp),
    ensures
        all_shaped(a + b, sp),
{
    assert forall|k: int| 0 <= k < (a + b).len() implies diag_shape(#[trigger] (a + b)[k], sp) by {
        if k < a.len() {
            assert((a + b)[k] == a[k]);
        } else {
            assert((a + b)[k] == b[k - a.len()]);
        }
    }
}

/// Each check for a key reports at most one diagnostic, of one of the
/// three shapes.
pub proof fn law_checks_shape<H: Fn(HostQuery) -> HostReply>(
    h: H,
    key: Seq<char>,
    v: ValueModel,
    anns: Seq<AnnModel>,
    span: Span,
)
    ensures
        all_shaped(checks(h, key, v, anns, span), span),
        check_required(anns, key, v, span).len() <= 1,
        check_type(anns, key, v, span).len() <= 1,
        check_bound(h, anns, key, v, span, true).len() <= 1,
        check_bound(h, anns, key, v, span, false).len() <= 1,
        check_len(h, anns, key, v, span, true).len() <= 1,
        check_len(h, anns, key, v, span, false).len() <= 1,
        check_pattern(anns, key, v, span).len() <= 1,
        check_enum(anns, key, v, span).len() <= 1,
        check_positive(h, anns, key, v, span).len() <= 1,
        check_nonzero(h, anns, key, v, span).len() <= 1,
        check_nonempty(anns, key, v, span).len() <= 1,
        check_deprecated(anns, key, v, span).len() <= 1,
{
    let a1 = check_required(anns, key, v, span);
    let a2 = check_type(anns, key, v, span);
    let a3 = check_bound(h, anns, key, v, span, true);
    let a4 = check_bound(h, anns, key, v, span, false);
    let a5 = check_len(h, anns, key, v, span, true);
    let a6 = check_len(h, anns, key, v, span, false);
    let a7 = check_pattern(anns, key, v, span);
    let a8 = check_enum(anns, key, v, span);
    let a9 = check_positive(h, anns, key, v, span);
    let a10 = check_nonzero(h, anns, key, v, span);
    let a11 = check_nonempty(anns, key, v, span);
    let a12 = check_deprecated(anns, key, v, span);
    assert(all_shaped(a1, span));
    assert(all_shaped(a2, span));
    assert(all_shaped(a3, span));
    assert(all_shaped(a4, span));
    assert(all_shaped(a5, span));
    assert(all_shaped(a6, span));
    assert(all_shaped(a7, span));
    assert(all_shaped(a8, span));
    assert(all_shaped(a9, span));
    assert(all_shaped(a10, span));
    assert(all_shaped(a11, span));
    assert(all_shaped(a12, span));
    lemma_shaped_concat(a1, a2, span);
    lemma_shaped_concat(a1 + a2, a3, span);
    lemma_shaped_concat(a1 + a2 + a3, a4, span);
    lemma_shaped_concat(a1 + a2 + a3 + a4, a5, span);
    lemma_shaped_concat(a1 + a2 + a3 + a4 + a5, a6, span);
    lemma_shaped_concat(a1 + a2 + a3 + a4 + a5 + a6, a7, span);
    lemma_shaped_concat(a1 + a2 + a3 + a4 + a5 + a6 + a7, a8, span);
    lemma_shaped_concat(a1 + a2 + a3 + a4 + a5 + a6 + a7 + a8, a9, span);
    lemma_shaped_concat(a1 + a2 + a3 + a4 + a5 + a6 + a7 + a8 + a9, a10, span);
    lemma_shaped_concat(a1 + a2 + a3 + a4 + a5 + a6 + a7 + a8 + a9 + a10, a11, span);
    lemma_shaped_concat(a1 + a2 + a3 + a4 + a5 + a6 + a7 + a8 + a9 + a10 + a11, a12, span);
}

pub open spec fn kind_ok(dg: DiagnosticModel) -> bool {
    ||| dg.severity == Severity::Error && dg.code == DiagnosticCode::Validation
    ||| dg.severity == Severity::Error && dg.code == DiagnosticCode::BadAnnotation
    ||| dg.severity == Severity::Warning && dg.code == DiagnosticCode::Deprecated
}

proof fn lemma_validate_from_kinds<H: Fn(HostQuery) -> HostReply>(h: H, d: DocModel, i: int)
    ensures
        forall|k: int|
            0 <= k < validate_from(h, d, i).len() ==> kind_ok(#[trigger] validate_from(h, d, i)[k]),
    decreases d.meta.len() - i,
{
    if 0 <= i < d.meta.len() {
        lemma_validate_from_kinds(h, d, i + 1);
        let key = d.meta[i].0;
        let e = entry_diags(h, d, i);
        let rest = validate_from(h, d, i + 1);
        match resolve(d.config, key) {
            None => {},
            Some(v) => {
                let sp = match dict_get(d.key_spans, key) {
                    Some(s) => s,
                    None => Span::dummy_spec(),
                };
                law_checks_shape(h, key, v, d.meta[i].1, sp);
            },
        }
        assert forall|k: int| 0 <= k < (e + rest).len() implies kind_ok(#[trigger] (e + rest)[k]) by {
            if k < e.len() {
                assert((e + rest)[k] == e[k]);
                assert(diag_shape(e[k], match dict_get(d.key_spans, key) {
                    Some(s) => s,
                    None => Span::dummy_spec(),
                }));
            } else {
                assert((e + rest)[k] == rest[k - e.len()]);
            }
        }
    }
}

/// Every diagnostic of validation is an error about a value or about a
/// broken annotation, or a deprecation warning.
pub proof fn law_validate_kinds<H: Fn(HostQuery) -> HostReply>(h: H, d: DocModel)
    ensures
        forall|k: int| 0 <= k < sp_validate(h, d).len() ==> kind_ok(#[trigger] sp_validate(h, d)[k]),
{
    lemma_validate_from_kinds(h, d, 0);
}

/// Unknown `@type` names pass every value.
pub proof fn law_unknown_type_passes(t: Seq<char>, v: ValueModel)
    requires
        t != "string"@ && t != "int"@ && t != "float"@ && t != "bool"@ && t != "dict"@ && t
            != "list"@ && t != "list[string]"@ && t != "list[int]"@ && t != "list[float]"@ && t
            != "list[bool]"@ && t != "url"@ && t != "email"@ && t != "path"@ && t != "duration"@,
    ensures
        type_matches(t, v),
{
}

// ── What one annotation reports ─────────────────────────────────────────────

proof fn lemma_pick_one(a: AnnModel, is_dict: bool, name: Seq<char>)
    ensures
        pick(seq![a], is_dict, name) == (if a.name == name && !(is_dict && leaf_only(name)) {
            Some(a)
        } else {
            None::<AnnModel>
        }),
{
    reveal_with_fuel(pick, 2);
    let anns = seq![a];
    assert(anns.last() == a);
    assert(anns.drop_last() =~= Seq::<AnnModel>::empty());
}

/// The annotation names, told apart by their length and first two characters.
proof fn lemma_ann_names()
    ensures
        "required"@.len() == 8 && "required"@[0] == 'r' && "required"@[1] == 'e',
        "type"@.len() == 4 && "type"@[0] == 't' && "type"@[1] == 'y',
        "min"@.len() == 3 && "min"@[0] == 'm' && "min"@[1] == 'i',
        "max"@.len() == 3 && "max"@[0] == 'm' && "max"@[1] == 'a',
        "minlen"@.len() == 6 && "minlen"@[0] == 'm' && "minlen"@[1] == 'i',
        "maxlen"@.len() == 6 && "maxlen"@[0] == 'm' && "maxlen"@[1] == 'a',
        "pattern"@.len() == 7 && "pattern"@[0] == 'p' && "pattern"@[1] == 'a',
        "enum"@.len() == 4 && "enum"@[0] == 'e' && "enum"@[1] == 'n',
        "positive"@.len() == 8 && "positive"@[0] == 'p' && "positive"@[1] == 'o',
        "nonzero"@.len() == 7 && "nonzero"@[0] == 'n' && "nonzero"@[1] == 'o',
        "nonempty"@.len() == 8 && "nonempty"@[0] == 'n' && "nonempty"@[1] == 'o',
        "deprecated"@.len() == 10 && "deprecated"@[0] == 'd' && "deprecated"@[1] == 'e',
{
    reveal_strlit("required");
    reveal_strlit("type");
    reveal_strlit("min");
    reveal_strlit("max");
    reveal_strlit("minlen");
    reveal_strlit("maxlen");
    reveal_strlit("pattern");
    reveal_strlit("enum");
    reveal_strlit("positive");
    reveal_strlit("nonzero");
    reveal_strlit("nonempty");
    reveal_strlit("deprecated");
}

/// Whether a lone `@min`, `@max`, `@minlen`, `@maxlen`, `@positive`,
/// `@nonzero` or `@enum` annotation finds the value at fault: below the
/// minimum, above the maximum, shorter or longer than allowed, not above
/// zero, zero, or a string outside the choices.
pub open spec fn breaks<H: Fn(HostQuery) -> HostReply>(h: H, a: AnnModel, v: ValueModel) -> bool {
    if a.name == "min"@ || a.name == "max"@ {
        match (arg_num(h, a.arg), as_float(h, v)) {
            (Some(n), Some(x)) => float_compare(h, x, n) == Some(if a.name == "min"@ {
                -1i64
            } else {
                1i64
            }),
            _ => false,
        }
    } else if a.name == "minlen"@ || a.name == "maxlen"@ {
        match (arg_int(h, a.arg), len_of(v)) {
            (Some(n), Some(l)) => if a.name == "minlen"@ {
                (l as i64) < n
            } else {
                (l as i64) > n
            },
            _ => false,
        }
    } else if a.name == "positive"@ {
        match as_float(h, v) {
            Some(x) => float_compare(h, x, 0) == Some(-1i64) || float_compare(h, x, 0) == Some(0i64),
            None => false,
        }
    } else if a.name == "nonzero"@ {
        is_zero(h, v)
    } else {
        match (a.arg, v) {
            (ArgModel::List(cs), ValueModel::Str(s)) => !cs.contains(s),
            _ => false,
        }
    }
}

/// A value that is not a dict, under one annotation among `@min`, `@max`,
/// `@minlen`, `@maxlen`, `@positive`, `@nonzero` and `@enum`, gets at most
/// one diagnostic, and gets one exactly when the annotation finds it at
/// fault; that one is a validation error at the key.
pub proof fn law_one_annotation_one_error<H: Fn(HostQuery) -> HostReply>(
    h: H,
    key: Seq<char>,
    v: ValueModel,
    a: AnnModel,
    span: Span,
)
    requires
        !(v is Dict),
        a.name == "min"@ || a.name == "max"@ || a.name == "minlen"@ || a.name == "maxlen"@ || a.name
            == "positive"@ || a.name == "nonzero"@ || a.name == "enum"@,
    ensures
        checks(h, key, v, seq![a], span).len() <= 1,
        checks(h, key, v, seq![a], span).len() == 1 <==> breaks(h, a, v),
        checks(h, key, v, seq![a], span).len() == 1 ==> checks(h, key, v, seq![a], span)[0] == vdiag(
            checks(h, key, v, seq![a], span)[0].message,
            span,
        ),
{
    lemma_ann_names();
    let d = v is Dict;
    lemma_pick_one(a, d, "required"@);
    lemma_pick_one(a, d, "type"@);
    lemma_pick_one(a, d, "min"@);
    lemma_pick_one(a, d, "max"@);
    lemma_pick_one(a, d, "minlen"@);
    lemma_pick_one(a, d, "maxlen"@);
    lemma_pick_one(a, d, "pattern"@);
    lemma_pick_one(a, d, "enum"@);
    lemma_pick_one(a, d, "positive"@);
    lemma_pick_one(a, d, "nonzero"@);
    lemma_pick_one(a, d, "nonempty"@);
    lemma_pick_one(a, d, "deprecated"@);
    let anns = seq![a];
    let e = Seq::<DiagnosticModel>::empty();
    let c1 = check_required(anns, key, v, span);
    let c2 = check_type(anns, key, v, span);
    let c3 = check_bound(h, anns, key, v, span, true);
    let c4 = check_bound(h, anns, key, v, span, false);
    let c5 = check_len(h, anns, key, v, span, true);
    let c6 = check_len(h, anns, key, v, span, false);
    let c7 = check_pattern(anns, key, v, span);
    let c8 = check_enum(anns, key, v, span);
    let c9 = check_positive(h, anns, key, v, span);
    let c10 = check_nonzero(h, anns, key, v, span);
    let c11 = check_nonempty(anns, key, v, span);
    let c12 = check_deprecated(anns, key, v, span);
    let all = checks(h, key, v, anns, span);
    assert(all == c1 + c2 + c3 + c4 + c5 + c6 + c7 + c8 + c9 + c10 + c11 + c12);
    assert(c1 == e && c2 == e && c7 == e && c11 == e && c12 == e);
    if a.name == "min"@ {
        assert(c4 == e && c5 == e && c6 == e && c8 == e && c9 == e && c10 == e);
        assert(all =~= c3);
    } else if a.name == "max"@ {
        assert(c3 == e && c5 == e && c6 == e && c8 == e && c9 == e && c10 == e);
        assert(all =~= c4);
    } else if a.name == "minlen"@ {
        assert(c3 == e && c4 == e && c6 == e && c8 == e && c9 == e && c10 == e);
        assert(all =~= c5);
    } else if a.name == "maxlen"@ {
        assert(c3 == e && c4 == e && c5 == e && c8 == e && c9 == e && c10 == e);
        assert(all =~= c6);
    } else if a.name == "positive"@ {
        assert(c3 == e && c4 == e && c5 == e && c6 == e && c8 == e && c10 == e);
        assert(all =~= c9);
    } else if a.name == "nonzero"@ {
        assert(c3 == e && c4 == e && c5 == e && c6 == e && c8 == e && c9 == e);
        assert(all =~= c10);
    } else {
        assert(c3 == e && c4 == e && c5 == e && c6 == e && c9 == e && c10 == e);
        assert(all =~= c8);
    }
}

// ── What validation reports of a document ───────────────────────────────────

proof fn lemma_validate_from_silent<H: Fn(HostQuery) -> HostReply>(h: H, d: DocModel, i: int)
    requires
        forall|j: int| 0 <= j < d.meta.len() ==> resolve(d.config, (#[trigger] d.meta[j]).0) is None,
    ensures
        validate_from(h, d, i) == Seq::<DiagnosticModel>::empty(),
    decreases d.meta.len() - i,
{
    if 0 <= i < d.meta.len() {
        lemma_validate_from_silent(h, d, i + 1);
        assert(resolve(d.config, d.meta[i].0) is None);
        assert(validate_from(h, d, i) =~= Seq::<DiagnosticModel>::empty());
    }
}

/// When no annotated key names a value of the configuration, validation
/// reports nothing.
pub proof fn law_validate_silent_without_values<H: Fn(HostQuery) -> HostReply>(h: H, d: DocModel)
    requires
        forall|j: int| 0 <= j < d.meta.len() ==> resolve(d.config, (#[trigger] d.meta[j]).0) is None,
    ensures
        sp_validate(h, d) == Seq::<DiagnosticModel>::empty(),
{
    lemma_validate_from_silent(h, d, 0);
}

/// How many deprecation warnings a list holds.
pub open spec fn deprecations(ds: Seq<DiagnosticModel>) -> nat
    decreases ds.len(),
{
    if ds.len() == 0 {
        0
    } else {
        deprecations(ds.drop_last()) + (if ds.last().code == DiagnosticCode::Deprecated {
            1nat
        } else {
            0nat
        })
    }
}

/// Some annotation in the list is called `name`.
pub open spec fn has_ann(anns: Seq<AnnModel>, name: Seq<char>) -> bool {
    exists|j: int| 0 <= j < anns.len() && (#[trigger] anns[j]).name == name
}

/// How many annotated keys from the `i`-th on name a value and carry
/// `@deprecated`.
pub open spec fn deprecated_keys<H: Fn(HostQuery) -> HostReply>(h: H, d: DocModel, i: int) -> nat
    decreases d.meta.len() - i,
{
    if i < 0 || i >= d.meta.len() {
        0
    } else {
        (if resolve(d.config, d.meta[i].0) is Some && has_ann(d.meta[i].1, "deprecated"@) {
            1nat
        } else {
            0nat
        }) + deprecated_keys(h, d, i + 1)
    }
}

proof fn lemma_deprecations_concat(a: Seq<DiagnosticModel>, b: Seq<DiagnosticModel>)
    ensures
        deprecations(a + b) == deprecations(a) + deprecations(b),
    decreases b.len(),
{
    if b.len() > 0 {
        lemma_deprecations_concat(a, b.drop_last());
        assert((a + b).drop_last() =~= a + b.drop_last());
        assert((a + b).last() == b.last());
    } else {
        assert(a + b =~= a);
    }
}

proof fn lemma_no_deprecations(ds: Seq<DiagnosticModel>)
    requires
        forall|k: int| 0 <= k < ds.len() ==> (#[trigger] ds[k]).code != DiagnosticCode::Deprecated,
    ensures
        deprecations(ds) == 0,
    decreases ds.len(),
{
    if ds.len() > 0 {
        lemma_no_deprecations(ds.drop_last());
    }
}

proof fn lemma_pick_has(anns: Seq<AnnModel>, is_dict: bool, name: Seq<char>)
    requires
        !leaf_only(name),
    ensures
        pick(anns, is_dict, name) is Some <==> has_ann(anns, name),
    decreases anns.len(),
{
    if anns.len() > 0 {
        lemma_pick_has(anns.drop_last(), is_dict, name);
        let p = anns.drop_last();
        if has_ann(p, name) {
            let j = choose|j: int| 0 <= j < p.len() && (#[trigger] p[j]).name == name;
            assert(anns[j] == p[j]);
        }
        if has_ann(anns, name) && anns.last().name != name {
            let j = choose|j: int| 0 <= j < anns.len() && (#[trigger] anns[j]).name == name;
            assert(p[j] == anns[j]);
        }
    }
}

proof fn lemma_checks_deprecations<H: Fn(HostQuery) -> HostReply>(
    h: H,
    key: Seq<char>,
    v: ValueModel,
    anns: Seq<AnnModel>,
    span: Span,
)
    ensures
        deprecations(checks(h, key, v, anns, span)) == (if has_ann(anns, "deprecated"@) {
            1nat
        } else {
            0nat
        }),
{
    lemma_ann_names();
    reveal_with_fuel(deprecations, 2);
    assert(!leaf_only("deprecated"@));
    lemma_pick_has(anns, v is Dict, "deprecated"@);
    let rest = check_required(anns, key, v, span) + check_type(anns, key, v, span) + check_bound(
        h,
        anns,
        key,
        v,
        span,
        true,
    ) + check_bound(h, anns, key, v, span, false) + check_len(h, anns, key, v, span, true)
        + check_len(h, anns, key, v, span, false) + check_pattern(anns, key, v, span) + check_enum(
        anns,
        key,
        v,
        span,
    ) + check_positive(h, anns, key, v, span) + check_nonzero(h, anns, key, v, span)
        + check_nonempty(anns, key, v, span);
    let last = check_deprecated(anns, key, v, span);
    law_checks_shape(h, key, v, anns, span);
    let all = checks(h, key, v, anns, span);
    assert(all == rest + last);
    assert forall|k: int| 0 <= k < rest.len() implies (#[trigger] rest[k]).code != DiagnosticCode::Deprecated by {
        assert(all[k] == rest[k]);
        assert(diag_shape(all[k], span));
        if rest[k].code == DiagnosticCode::Deprecated {
            assert(false);
        }
    }
    lemma_no_deprecations(rest);
    lemma_deprecations_concat(rest, last);
    if last.len() > 0 {
        assert(last.drop_last() =~= Seq::<DiagnosticModel>::empty());
    }
}

proof fn lemma_validate_from_deprecations<H: Fn(HostQuery) -> HostReply>(h: H, d: DocModel, i: int)
    ensures
        deprecations(validate_from(h, d, i)) == deprecated_keys(h, d, i),
    decreases d.meta.len() - i,
{
    if 0 <= i < d.meta.len() {
        lemma_validate_from_deprecations(h, d, i + 1);
        let key = d.meta[i].0;
        lemma_deprecations_concat(entry_diags(h, d, i), validate_from(h, d, i + 1));
        match resolve(d.config, key) {
            None => {},
            Some(v) => {
                let sp = match dict_get(d.key_spans, key) {
                    Some(s) => s,
                    None => Span::dummy_spec(),
                };
                lemma_checks_deprecations(h, key, v, d.meta[i].1, sp);
            },
        }
    }
}

/// Validation warns once for each annotated key that names a value and
/// carries `@deprecated`.
pub proof fn law_validate_deprecations<H: Fn(HostQuery) -> HostReply>(h: H, d: DocModel)
    ensures
        deprecations(sp_validate(h, d)) == deprecated_keys(h, d, 0),
{
    lemma_validate_from_deprecations(h, d, 0);
}

/// A `@type: url` check accepts exactly the strings that begin with
/// `http://` or `https://`; so a string value under a lone `@type: url`
/// gets no diagnostic if and only if it begins so.
pub proof fn law_url_type<H: Fn(HostQuery) -> HostReply>(
    h: H,
    key: Seq<char>,
    s: Seq<char>,
    a: AnnModel,
    span: Span,
)
    ensures
        type_matches("url"@, ValueModel::Str(s)) <==> ((s.len() >= 7 && s.take(7) == seq![
            'h',
            't',
            't',
            'p',
            ':',
            '/',
            '/',
        ]) || (s.len() >= 8 && s.take(8) == seq!['h', 't', 't', 'p', 's', ':', '/', '/'])),
        a.name == "type"@ && a.arg == ArgModel::Str("url"@) ==> (checks(h, key, ValueModel::Str(s), seq![a], span).len()
            == 0 <==> type_matches("url"@, ValueModel::Str(s))),
{
    reveal_strlit("url");
    reveal_strlit("http://");
    reveal_strlit("https://");
    reveal_strlit("string");
    reveal_strlit("int");
    reveal_strlit("float");
    reveal_strlit("bool");
    reveal_strlit("dict");
    reveal_strlit("list");
    reveal_strlit("list[string]");
    reveal_strlit("list[int]");
    reveal_strlit("list[float]");
    reveal_strlit("list[bool]");
    assert("url"@.len() == 3 && "url"@[0] == 'u');
    assert("int"@.len() == 3 && "int"@[0] == 'i');
    assert("string"@.len() == 6 && "float"@.len() == 5 && "bool"@.len() == 4 && "dict"@.len() == 4 && "list"@.len() == 4);
    assert("list[string]"@.len() == 12 && "list[int]"@.len() == 9 && "list[float]"@.len() == 11
        && "list[bool]"@.len() == 10);
    assert("http://"@ =~= seq!['h', 't', 't', 'p', ':', '/', '/']);
    assert("https://"@ =~= seq!['h', 't', 't', 'p', 's', ':', '/', '/']);
    if a.name == "type"@ && a.arg == ArgModel::Str("url"@) {
        lemma_ann_names();
        let v = ValueModel::Str(s);
        let d = v is Dict;
        lemma_pick_one(a, d, "required"@);
        lemma_pick_one(a, d, "type"@);
        lemma_pick_one(a, d, "min"@);
        lemma_pick_one(a, d, "max"@);
        lemma_pick_one(a, d, "minlen"@);
        lemma_pick_one(a, d, "maxlen"@);
        lemma_pick_one(a, d, "pattern"@);
        lemma_pick_one(a, d, "enum"@);
        lemma_pick_one(a, d, "positive"@);
        lemma_pick_one(a, d, "nonzero"@);
        lemma_pick_one(a, d, "nonempty"@);
        lemma_pick_one(a, d, "deprecated"@);
        let anns = seq![a];
        let e = Seq::<DiagnosticModel>::empty();
        assert(check_required(anns, key, v, span) == e);
        assert(check_bound(h, anns, key, v, span, true) == e);
        assert(check_bound(h, anns, key, v, span, false) == e);
        assert(check_len(h, anns, key, v, span, true) == e);
        assert(check_len(h, anns, key, v, span, false) == e);
        assert(check_pattern(anns, key, v, span) == e);
        assert(check_enum(anns, key, v, span) == e);
        assert(check_positive(h, anns, key, v, span) == e);
        assert(check_nonzero(h, anns, key, v, span) == e);
        assert(check_nonempty(anns, key, v, span) == e);
        assert(check_deprecated(anns, key, v, span) == e);
        assert(checks(h, key, v, anns, span) =~= check_type(anns, key, v, span));
    }
}

/// The `@type` names, told apart by their length and first character.
proof fn lemma_type_names()
    ensures
        "string"@.len() == 6 && "string"@[0] == 's',
        "int"@.len() == 3 && "int"@[0] == 'i',
        "float"@.len() == 5 && "float"@[0] == 'f',
        "bool"@.len() == 4 && "bool"@[0] == 'b',
        "dict"@.len() == 4 && "dict"@[0] == 'd',
        "list"@.len() == 4 && "list"@[0] == 'l',
        "list[string]"@.len() == 12 && "list[string]"@[0] == 'l',
        "list[int]"@.len() == 9 && "list[int]"@[0] == 'l',
        "list[float]"@.len() == 11 && "list[float]"@[0] == 'l',
        "list[bool]"@.len() == 10 && "list[bool]"@[0] == 'l',
        "url"@.len() == 3 && "url"@[0] == 'u',
        "email"@.len() == 5 && "email"@[0] == 'e',
        "path"@.len() == 4 && "path"@[0] == 'p',
        "duration"@.len() == 8 && "duration"@[0] == 'd',
{
    reveal_strlit("string");
    reveal_strlit("int");
    reveal_strlit("float");
    reveal_strlit("bool");
    reveal_strlit("dict");
    reveal_strlit("list");
    reveal_strlit("list[string]");
    reveal_strlit("list[int]");
    reveal_strlit("list[float]");
    reveal_strlit("list[bool]");
    reveal_strlit("url");
    reveal_strlit("email");
    reveal_strlit("path");
    reveal_strlit("duration");
}

/// What each `@type` name accepts: `string` and `path` a string, `int` an
/// integer, `float` a float or an integer, `bool`, `dict` and `list` their
/// kind, `list[string]`, `list[int]`, `list[float]` and `list[bool]` a list
/// of such items (integers counting as floats), and `duration` one or more
/// ASCII digits followed by `s`, `m`, `h` or `d`.
pub proof fn law_type_names(v: ValueModel)
    ensures
        type_matches("string"@, v) <==> v is Str,
        type_matches("path"@, v) <==> v is Str,
        type_matches("int"@, v) <==> v is Integer,
        type_matches("float"@, v) <==> (v is Float || v is Integer),
        type_matches("bool"@, v) <==> v is Bool,
        type_matches("dict"@, v) <==> v is Dict,
        type_matches("list"@, v) <==> v is Array,
        type_matches("list[string]"@, v) <==> (v matches ValueModel::Array(xs) && forall|i: int|
            0 <= i < xs.len() ==> #[trigger] xs[i] is Str),
        type_matches("list[int]"@, v) <==> (v matches ValueModel::Array(xs) && forall|i: int|
            0 <= i < xs.len() ==> #[trigger] xs[i] is Integer),
        type_matches("list[float]"@, v) <==> (v matches ValueModel::Array(xs) && forall|i: int|
            0 <= i < xs.len() ==> (#[trigger] xs[i] is Float || xs[i] is Integer)),
        type_matches("list[bool]"@, v) <==> (v matches ValueModel::Array(xs) && forall|i: int|
            0 <= i < xs.len() ==> #[trigger] xs[i] is Bool),
        type_matches("duration"@, v) <==> (v matches ValueModel::Str(s) && s.len() >= 2 && (s.last() == 's'
            || s.last() == 'm' || s.last() == 'h' || s.last() == 'd') && forall|j: int|
            0 <= j < s.len() - 1 ==> '0' <= #[trigger] s[j] <= '9'),
{
    lemma_type_names();
    if let ValueModel::Array(xs) = v {
        assert((forall|i: int| 0 <= i < xs.len() ==> #[trigger] xs[i] is Str) <==> list_fits(0, v)) by {
            if list_fits(0, v) {
                assert forall|i: int| 0 <= i < xs.len() implies #[trigger] xs[i] is Str by {
                    assert(elem_fits(0, xs[i]));
                }
            }
        }
        assert((forall|i: int| 0 <= i < xs.len() ==> #[trigger] xs[i] is Integer) <==> list_fits(1, v)) by {
            if list_fits(1, v) {
                assert forall|i: int| 0 <= i < xs.len() implies #[trigger] xs[i] is Integer by {
                    assert(elem_fits(1, xs[i]));
                }
            }
        }
        assert((forall|i: int| 0 <= i < xs.len() ==> (#[trigger] xs[i] is Float || xs[i] is Integer)) <==> list_fits(
            2,
            v,
        )) by {
            if list_fits(2, v) {
                assert forall|i: int| 0 <= i < xs.len() implies (#[trigger] xs[i] is Float || xs[i] is Integer) by {
                    assert(elem_fits(2, xs[i]));
                }
            }
        }
        assert((forall|i: int| 0 <= i < xs.len() ==> #[trigger] xs[i] is Bool) <==> list_fits(3, v)) by {
            if list_fits(3, v) {
                assert forall|i: int| 0 <= i < xs.len() implies #[trigger] xs[i] is Bool by {
                    assert(elem_fits(3, xs[i]));
                }
            }
        }
    }
}

/// How many `@` characters a text holds.
pub open spec fn at_count(t: Seq<char>) -> nat
    decreases t.len(),
{
    if t.len() == 0 {
        0
    } else {
        at_count(t.drop_last()) + (if t.last() == '@' {
            1nat
        } else {
            0nat
        })
    }
}

proof fn lemma_at_count_bound(t: Seq<char>)
    ensures
        at_count(t) <= t.len(),
    decreases t.len(),
{
    if t.len() > 0 {
        lemma_at_count_bound(t.drop_last());
    }
}

proof fn lemma_at_count_step(s: Seq<char>, i: int)
    requires
        0 <= i < s.len(),
    ensures
        at_count(s.take(i + 1)) == at_count(s.take(i)) + (if s[i] == '@' {
            1nat
        } else {
            0nat
        }),
{
    assert(s.take(i + 1).drop_last() =~= s.take(i));
    assert(s.take(i + 1).last() == s[i]);
}

/// A `.` after an `@`, not first, among the first `n` characters.
pub open spec fn dot_after_at(s: Seq<char>, n: int) -> bool {
    exists|k: int| 0 < k < n && s[k] == '.' && at_count(#[trigger] s.take(k)) >= 1
}

proof fn lemma_email_from(s: Seq<char>, i: int, at: i32, dot: bool)
    requires
        0 <= i <= s.len(),
        s.len() < i32::MAX,
        at as int == at_count(s.take(i)),
        dot == dot_after_at(s, i),
        i > 0 ==> s[0] != '@',
        forall|j: int| 0 <= j < i ==> !is_ws(#[trigger] s[j]),
    ensures
        email_from(s, i, at, dot) == (at_count(s) == 1 && !(s.len() > 0 && s[0] == '@') && (forall|j: int|
            0 <= j < s.len() ==> !is_ws(#[trigger] s[j])) && dot_after_at(s, s.len() as int) && !(s.len() > 0
            && (s.last() == '.' || s.last() == '@'))),
    decreases s.len() - i,
{
    if i >= s.len() {
        assert(s.take(i) =~= s);
    } else {
        let c = s[i];
        lemma_at_count_step(s, i);
        lemma_at_count_bound(s.take(i));
        let at2 = if c == '@' {
            vstd::wrapping::i32_specs::wrapping_add(at, 1)
        } else {
            at
        };
        assert(at2 as int == at_count(s.take(i + 1)));
        if c == '@' && i == 0 {
        } else if is_ws(c) {
            assert(!(forall|j: int| 0 <= j < s.len() ==> !is_ws(#[trigger] s[j])));
        } else {
            let dot2 = dot || (at2 >= 1 && c == '.' && i > 0);
            assert(dot2 == dot_after_at(s, i + 1)) by {
                if dot2 && !dot {
                    assert(s.take(i + 1).drop_last() =~= s.take(i));
                    assert(at_count(s.take(i)) >= 1);
                }
                if dot_after_at(s, i + 1) && !dot {
                    let k = choose|k: int| 0 < k < i + 1 && s[k] == '.' && at_count(#[trigger] s.take(k)) >= 1;
                    assert(k == i);
                }
            }
            lemma_email_from(s, i + 1, at2, dot2);
        }
    }
}

/// A `@type: email` check accepts exactly the strings with one `@`, not
/// first, a `.` somewhere after it, no whitespace, and not ending in `.`
/// or `@` (for texts shorter than `i32::MAX` characters, the limit of the
/// `@` counter).
pub proof fn law_email_type(s: Seq<char>)
    requires
        s.len() < i32::MAX,
    ensures
        type_matches("email"@, ValueModel::Str(s)) <==> (at_count(s) == 1 && !(s.len() > 0 && s[0] == '@')
            && (forall|j: int| 0 <= j < s.len() ==> !is_ws(#[trigger] s[j])) && dot_after_at(s, s.len() as int)
            && !(s.len() > 0 && (s.last() == '.' || s.last() == '@'))),
{
    lemma_type_names();
    assert(s.take(0) =~= Seq::<char>::empty());
    lemma_email_from(s, 0, 0, false);
}

/// A value under a lone `@required` or `@nonempty` gets one diagnostic,
/// a validation error at the key, exactly when it is null, an empty
/// string, an empty list or an empty dict, and none otherwise.
pub proof fn law_required_flags_empty<H: Fn(HostQuery) -> HostReply>(
    h: H,
    key: Seq<char>,
    v: ValueModel,
    a: AnnModel,
    span: Span,
)
    requires
        a.name == "required"@ || a.name == "nonempty"@,
    ensures
        checks(h, key, v, seq![a], span).len() <= 1,
        checks(h, key, v, seq![a], span).len() == 1 <==> (v is Null || v == ValueModel::Str(Seq::empty())
            || v == ValueModel::Array(Seq::empty()) || v == ValueModel::Dict(Seq::empty())),
        checks(h, key, v, seq![a], span).len() == 1 ==> checks(h, key, v, seq![a], span)[0] == vdiag(
            checks(h, key, v, seq![a], span)[0].message,
            span,
        ),
{
    lemma_ann_names();
    let d = v is Dict;
    lemma_pick_one(a, d, "required"@);
    lemma_pick_one(a, d, "type"@);
    lemma_pick_one(a, d, "min"@);
    lemma_pick_one(a, d, "max"@);
    lemma_pick_one(a, d, "minlen"@);
    lemma_pick_one(a, d, "maxlen"@);
    lemma_pick_one(a, d, "pattern"@);
    lemma_pick_one(a, d, "enum"@);
    lemma_pick_one(a, d, "positive"@);
    lemma_pick_one(a, d, "nonzero"@);
    lemma_pick_one(a, d, "nonempty"@);
    lemma_pick_one(a, d, "deprecated"@);
    let anns = seq![a];
    let e = Seq::<DiagnosticModel>::empty();
    let c1 = check_required(anns, key, v, span);
    let c11 = check_nonempty(anns, key, v, span);
    assert(check_type(anns, key, v, span) == e);
    assert(check_bound(h, anns, key, v, span, true) == e);
    assert(check_bound(h, anns, key, v, span, false) == e);
    assert(check_len(h, anns, key, v, span, true) == e);
    assert(check_len(h, anns, key, v, span, false) == e);
    assert(check_pattern(anns, key, v, span) == e);
    assert(check_enum(anns, key, v, span) == e);
    assert(check_positive(h, anns, key, v, span) == e);
    assert(check_nonzero(h, anns, key, v, span) == e);
    assert(check_deprecated(anns, key, v, span) == e);
    if a.name == "required"@ {
        assert(c11 == e);
        assert(checks(h, key, v, anns, span) =~= c1);
    } else {
        assert(c1 == e);
        assert(checks(h, key, v, anns, span) =~= c11);
    }
    match v {
        ValueModel::Str(t) => {
            if t.len() == 0 {
                assert(t =~= Seq::<char>::empty());
            }
        },
        ValueModel::Array(t) => {
            if t.len() == 0 {
                assert(t =~= Seq::<ValueModel>::empty());
            }
        },
        ValueModel::Dict(t) => {
            if t.len() == 0 {
                assert(t =~= Seq::<(Seq<char>, ValueModel)>::empty());
            }
        },
        _ => {},
    }
}

/// A string value under a lone `@pattern: p` is matched against the whole
/// pattern, `^(?:p)$`: it gets no diagnostic when that regex accepts it,
/// one validation error at the key when it compiles and does not, and one
/// error about the annotation when it does not compile.
pub proof fn law_pattern_matches_whole<H: Fn(HostQuery) -> HostReply>(
    h: H,
    key: Seq<char>,
    text: Seq<char>,
    a: AnnModel,
    pat: Seq<char>,
    span: Span,
)
    requires
        a.name == "pattern"@,
        a.arg == ArgModel::Str(pat),
    ensures
        ({
            let re = seq!['^', '(', '?', ':'] + pat + seq![')', '$'];
            let ds = checks(h, key, ValueModel::Str(text), seq![a], span);
            &&& ds.len() <= 1
            &&& regex_compiles(re) ==> (ds.len() == 0 <==> regex_accepts(re, text))
            &&& regex_compiles(re) && ds.len() == 1 ==> ds[0] == vdiag(ds[0].message, span)
            &&& !regex_compiles(re) ==> ds.len() == 1 && ds[0].code == DiagnosticCode::BadAnnotation
        }),
{
    lemma_ann_names();
    reveal_strlit("^(?:");
    reveal_strlit(")$");
    let v = ValueModel::Str(text);
    let d = v is Dict;
    lemma_pick_one(a, d, "required"@);
    lemma_pick_one(a, d, "type"@);
    lemma_pick_one(a, d, "min"@);
    lemma_pick_one(a, d, "max"@);
    lemma_pick_one(a, d, "minlen"@);
    lemma_pick_one(a, d, "maxlen"@);
    lemma_pick_one(a, d, "pattern"@);
    lemma_pick_one(a, d, "enum"@);
    lemma_pick_one(a, d, "positive"@);
    lemma_pick_one(a, d, "nonzero"@);
    lemma_pick_one(a, d, "nonempty"@);
    lemma_pick_one(a, d, "deprecated"@);
    let anns = seq![a];
    let e = Seq::<DiagnosticModel>::empty();
    assert(check_required(anns, key, v, span) == e);
    assert(check_type(anns, key, v, span) == e);
    assert(check_bound(h, anns, key, v, span, true) == e);
    assert(check_bound(h, anns, key, v, span, false) == e);
    assert(check_len(h, anns, key, v, span, true) == e);
    assert(check_len(h, anns, key, v, span, false) == e);
    assert(check_enum(anns, key, v, span) == e);
    assert(check_positive(h, anns, key, v, span) == e);
    assert(check_nonzero(h, anns, key, v, span) == e);
    assert(check_nonempty(anns, key, v, span) == e);
    assert(check_deprecated(anns, key, v, span) == e);
    assert(checks(h, key, v, anns, span) =~= check_pattern(anns, key, v, span));
    assert(anchored(pat) =~= seq!['^', '(', '?', ':'] + pat + seq![')', '$']);
}

/// A value that is not a dict, under a lone `@type: t`, gets no diagnostic
/// when it has the type `t` and one validation error at the key when it
/// does not; a dict gets none (the check is skipped on dicts).
pub proof fn law_type_check<H: Fn(HostQuery) -> HostReply>(
    h: H,
    key: Seq<char>,
    v: ValueModel,
    a: AnnModel,
    t: Seq<char>,
    span: Span,
)
    requires
        a.name == "type"@,
        a.arg == ArgModel::Str(t),
    ensures
        checks(h, key, v, seq![a], span).len() <= 1,
        !(v is Dict) ==> (checks(h, key, v, seq![a], span).len() == 0 <==> type_matches(t, v)),
        v is Dict ==> checks(h, key, v, seq![a], span).len() == 0,
        checks(h, key, v, seq![a], span).len() == 1 ==> checks(h, key, v, seq![a], span)[0] == vdiag(
            checks(h, key, v, seq![a], span)[0].message,
            span,
        ),
{
    lemma_ann_names();
    let d = v is Dict;
    lemma_pick_one(a, d, "required"@);
    lemma_pick_one(a, d, "type"@);
    lemma_pick_one(a, d, "min"@);
    lemma_pick_one(a, d, "max"@);
    lemma_pick_one(a, d, "minlen"@);
    lemma_pick_one(a, d, "maxlen"@);
    lemma_pick_one(a, d, "pattern"@);
    lemma_pick_one(a, d, "enum"@);
    lemma_pick_one(a, d, "positive"@);
    lemma_pick_one(a, d, "nonzero"@);
    lemma_pick_one(a, d, "nonempty"@);
    lemma_pick_one(a, d, "deprecated"@);
    let anns = seq![a];
    let e = Seq::<DiagnosticModel>::empty();
    assert(check_required(anns, key, v, span) == e);
    assert(check_bound(h, anns, key, v, span, true) == e);
    assert(check_bound(h, anns, key, v, span, false) == e);
    assert(check_len(h, anns, key, v, span, true) == e);
    assert(check_len(h, anns, key, v, span, false) == e);
    assert(check_pattern(anns, key, v, span) == e);
    assert(check_enum(anns, key, v, span) == e);
    assert(check_positive(h, anns, key, v, span) == e);
    assert(check_nonzero(h, anns, key, v, span) == e);
    assert(check_nonempty(anns, key, v, span) == e);
    assert(check_deprecated(anns, key, v, span) == e);
    assert(checks(h, key, v, anns, span) =~= check_type(anns, key, v, span));
}

proof fn lemma_pick_pair(a1: AnnModel, a2: AnnModel, is_dict: bool, name: Seq<char>)
    requires
        a1.name == a2.name,
    ensures
        pick(seq![a1, a2], is_dict, name) == pick(seq![a2], is_dict, name),
{
    reveal_with_fuel(pick, 3);
    let p = seq![a1, a2];
    assert(p.last() == a2);
    assert(p.drop_last() =~= seq![a1]);
    lemma_pick_one(a1, is_dict, name);
    lemma_pick_one(a2, is_dict, name);
}

/// Of two annotations with the same name on one key, the later one counts:
/// the key is checked as if it carried the later one alone.
pub proof fn law_later_annotation_counts<H: Fn(HostQuery) -> HostReply>(
    h: H,
    key: Seq<char>,
    v: ValueModel,
    a1: AnnModel,
    a2: AnnModel,
    span: Span,
)
    requires
        a1.name == a2.name,
    ensures
        checks(h, key, v, seq![a1, a2], span) == checks(h, key, v, seq![a2], span),
{
    let d = v is Dict;
    lemma_pick_pair(a1, a2, d, "required"@);
    lemma_pick_pair(a1, a2, d, "type"@);
    lemma_pick_pair(a1, a2, d, "min"@);
    lemma_pick_pair(a1, a2, d, "max"@);
    lemma_pick_pair(a1, a2, d, "minlen"@);
    lemma_pick_pair(a1, a2, d, "maxlen"@);
    lemma_pick_pair(a1, a2, d, "pattern"@);
    lemma_pick_pair(a1, a2, d, "enum"@);
    lemma_pick_pair(a1, a2, d, "positive"@);
    lemma_pick_pair(a1, a2, d, "nonzero"@);
    lemma_pick_pair(a1, a2, d, "nonempty"@);
    lemma_pick_pair(a1, a2, d, "deprecated"@);
    let p = seq![a1, a2];
    let q = seq![a2];
    assert(check_required(p, key, v, span) == check_required(q, key, v, span));
    assert(check_type(p, key, v, span) == check_type(q, key, v, span));
    assert(check_bound(h, p, key, v, span, true) == check_bound(h, q, key, v, span, true));
    assert(check_bound(h, p, key, v, span, false) == check_bound(h, q, key, v, span, false));
    assert(check_len(h, p, key, v, span, true) == check_len(h, q, key, v, span, true));
    assert(check_len(h, p, key, v, span, false) == check_len(h, q, key, v, span, false));
    assert(check_pattern(p, key, v, span) == check_pattern(q, key, v, span));
    assert(check_enum(p, key, v, span) == check_enum(q, key, v, span));
    assert(check_positive(h, p, key, v, span) == check_positive(h, q, key, v, span));
    assert(check_nonzero(h, p, key, v, span) == check_nonzero(h, q, key, v, span));
    assert(check_nonempty(p, key, v, span) == check_nonempty(q, key, v, span));
    assert(check_deprecated(p, key, v, span) == check_deprecated(q, key, v, span));
}

} // verus!
