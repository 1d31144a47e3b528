//! `@annotation` line parsing.
//!
//! Surface forms:
//!     `@name`                — flag
//!     `@name: arg`           — colon form (most validators)
//!     `@name(arg)`           — parenthesised form (`@deprecated("msg")`)
//!
//! Sub-spans are captured for the `@name` head, the argument and each list
//! item, so an editor can paint them separately.

use vstd::prelude::*;
use crate::error::{err_model, ErrModel, ParseError};
use crate::host::{float_parse, host_ok, host_parse_float, HostQuery, HostReply};
use crate::numeric::{parse_i64_radix, parse_int};
use crate::span::Span;
use crate::text::{
    eq_lit, lead_bytes, leading_ws_bytes, push_all, push_lit, slice_of, string_from, to_chars, trim,
    trim_end, trim_start, trimmed, trimmed_end, trimmed_start, wadd, wblen, wbyte_len,
    strings_model, clone_strings,
};

verus! {

#[derive(Debug, PartialEq)]
pub enum AnnotationArg {
    NoArg,
    String(String),
    Int(i64),
    /// Bits of an IEEE-754 double.
    Float(u64),
    List(Vec<String>),
}

#[derive(Debug, PartialEq)]
pub struct Annotation {
    pub name: String,
    pub arg: AnnotationArg,
    /// Span of the whole annotation line, including `@`.
    pub span: Span,
    /// Span of the `@name` head.
    pub name_span: Span,
    /// Span of the argument text (after `:` or inside `(...)`); `None` for
    /// flags.
    pub arg_span: Option<Span>,
    /// For `@enum: [a, b, c]`: the span of each list element.
    pub list_item_spans: Vec<Span>,
}

pub enum ArgModel {
    NoArg,
    Str(Seq<char>),
    Int(i64),
    Float(u64),
    List(Seq<Seq<char>>),
}

pub struct AnnModel {
    pub name: Seq<char>,
    pub arg: ArgModel,
    pub span: Span,
    pub name_span: Span,
    pub arg_span: Option<Span>,
    pub list_item_spans: Seq<Span>,
}

impl AnnotationArg {
    pub open spec fn model(self) -> ArgModel {
        match self {
            AnnotationArg::NoArg => ArgModel::NoArg,
            AnnotationArg::String(s) => ArgModel::Str(s@),
            AnnotationArg::Int(n) => ArgModel::Int(n),
            AnnotationArg::Float(f) => ArgModel::Float(f),
            AnnotationArg::List(v) => ArgModel::List(strings_model(v@)),
        }
    }
}

impl View for Annotation {
    type V = AnnModel;

    open spec fn view(&self) -> AnnModel {
        AnnModel {
            name: self.name@,
            arg: self.arg.model(),
            span: self.span,
            name_span: self.name_span,
            arg_span: self.arg_span,
            list_item_spans: self.list_item_spans@,
        }
    }
}

fn clone_spans(v: &Vec<Span>) -> (r: Vec<Span>)
    ensures
        r@ == v@,
{
    let mut out: Vec<Span> = Vec::new();
    let mut i: usize = 0;
    while i < v.len()
        invariant
            i <= v@.len(),
            out@ == v@.take(i as int),
        decreases v@.len() - i,
    {
        out.push(v[i]);
        assert(out@ =~= v@.take(i + 1));
        i = i + 1;
    }
    assert(v@.take(i as int) =~= v@);
    out
}

impl Clone for AnnotationArg {
    fn clone(&self) -> (r: Self)
        ensures
            r.model() == self.model(),
    {
        match self {
            AnnotationArg::NoArg => AnnotationArg::NoArg,
            AnnotationArg::String(s) => AnnotationArg::String(s.clone()),
            AnnotationArg::Int(n) => AnnotationArg::Int(*n),
            AnnotationArg::Float(f) => AnnotationArg::Float(*f),
            AnnotationArg::List(v) => AnnotationArg::List(clone_strings(v)),
        }
    }
}

impl Clone for Annotation {
    fn clone(&self) -> (r: Self)
        ensures
            r@ == self@,
    {
        Annotation {
            name: self.name.clone(),
            arg: self.arg.clone(),
            span: self.span,
            name_span: self.name_span,
            arg_span: self.arg_span,
            list_item_spans: clone_spans(&self.list_item_spans),
        }
    }
}

/// Annotations that describe a key rather than constrain its value.
pub open spec fn is_metadata_name(n: Seq<char>) -> bool {
    n == "required"@ || n == "deprecated"@ || n == "internal"@ || n == "readonly"@ || n
        == "experimental"@
}

/// Annotations that constrain a value.
pub open spec fn is_validation_name(n: Seq<char>) -> bool {
    n == "min"@ || n == "max"@ || n == "minlen"@ || n == "maxlen"@ || n == "pattern"@ || n
        == "enum"@ || n == "nonzero"@ || n == "positive"@ || n == "nonempty"@
}

impl Annotation {
    pub fn is_metadata(&self) -> (r: bool)
        ensures
            r == is_metadata_name(self.name@),
    {
        let n = crate::text::chars_of(&self.name);
        eq_lit(n.as_slice(), "required") || eq_lit(n.as_slice(), "deprecated") || eq_lit(
            n.as_slice(),
            "internal",
        ) || eq_lit(n.as_slice(), "readonly") || eq_lit(n.as_slice(), "experimental")
    }

    pub fn is_validation(&self) -> (r: bool)
        ensures
            r == is_validation_name(self.name@),
    {
        let n = crate::text::chars_of(&self.name);
        eq_lit(n.as_slice(), "min") || eq_lit(n.as_slice(), "max") || eq_lit(n.as_slice(), "minlen")
            || eq_lit(n.as_slice(), "maxlen") || eq_lit(n.as_slice(), "pattern") || eq_lit(
            n.as_slice(),
            "enum",
        ) || eq_lit(n.as_slice(), "nonzero") || eq_lit(n.as_slice(), "positive") || eq_lit(
            n.as_slice(),
            "nonempty",
        )
    }

    pub fn is_type(&self) -> (r: bool)
        ensures
            r == (self.name@ == "type"@),
    {
        let n = crate::text::chars_of(&self.name);
        eq_lit(n.as_slice(), "type")
    }

    pub fn is_tag(&self) -> (r: bool)
        ensures
            r == (self.name@ == "tag"@),
    {
        let n = crate::text::chars_of(&self.name);
        eq_lit(n.as_slice(), "tag")
    }
}

// ── Arguments ───────────────────────────────────────────────────────────────

/// `s` without one pair of surrounding double quotes.
pub open spec fn strip_quotes(s: Seq<char>) -> Seq<char> {
    if s.len() >= 2 && s[0] == '"' && s.last() == '"' {
        s.subrange(1, s.len() - 1)
    } else {
        s
    }
}

fn strip_quotes_chars(s: &[char]) -> (r: Vec<char>)
    ensures
        r@ == strip_quotes(s@),
{
    let n = s.len();
    if n >= 2 && s[0] == '"' && s[n - 1] == '"' {
        slice_of(s, 1, n - 1)
    } else {
        slice_of(s, 0, n)
    }
}

/// Adds one comma-separated list chunk (at byte `cursor` of the list body,
/// which starts at `istart`) unless it is blank.
pub open spec fn add_chunk(
    chunk: Seq<char>,
    cursor: usize,
    istart: usize,
    parts: Seq<Seq<char>>,
    spans: Seq<Span>,
) -> (Seq<Seq<char>>, Seq<Span>) {
    if trim(chunk).len() == 0 {
        (parts, spans)
    } else {
        let base = wadd(istart, cursor);
        (
            parts.push(strip_quotes(trim(chunk))),
            spans.push(Span { start: wadd(base, lead_bytes(chunk)), end: wadd(base, wblen(trim_end(chunk))) }),
        )
    }
}

/// Text between whitespace-only stretches, and not starting or ending with
/// whitespace itself, is what `trim` gives back.
proof fn lemma_trim_padded(a: Seq<char>, y: Seq<char>, b: Seq<char>)
    requires
        forall|i: int| 0 <= i < a.len() ==> crate::text::is_ws(#[trigger] a[i]),
        forall|i: int| 0 <= i < b.len() ==> crate::text::is_ws(#[trigger] b[i]),
        y.len() > 0,
        !crate::text::is_ws(y[0]),
        !crate::text::is_ws(y.last()),
    ensures
        trim(a + y + b) == y,
{
    let s = a + y + b;
    assert(s =~= a + (y + b));
    crate::text::lemma_ws_prefix_len_bound(a);
    crate::text::lemma_ws_prefix_concat(a, y + b);
    crate::text::lemma_ws_prefix_len_bound(y + b);
    assert((y + b)[0] == y[0]);
    assert(crate::text::ws_prefix_len(y + b) == 0);
    let t = crate::text::trim_start(s);
    assert(t =~= y + b);
    crate::text::lemma_ws_suffix_len_bound(t);
    let k = crate::text::ws_suffix_len(t);
    if k < b.len() {
        assert(t[t.len() - k - 1] == b[b.len() - k - 1]);
    } else if k > b.len() {
        assert(t[y.len() - 1] == y.last());
    }
    assert(crate::text::trim_end(t) =~= y);
}

/// One comma-separated chunk of a list argument gives its item without the
/// whitespace around it and without one pair of double quotes around it; a
/// chunk of whitespace alone gives no item.
pub proof fn law_list_chunk(
    a: Seq<char>,
    y: Seq<char>,
    b: Seq<char>,
    cursor: usize,
    istart: usize,
    parts: Seq<Seq<char>>,
    spans: Seq<Span>,
)
    requires
        forall|i: int| 0 <= i < a.len() ==> crate::text::is_ws(#[trigger] a[i]),
        forall|i: int| 0 <= i < b.len() ==> crate::text::is_ws(#[trigger] b[i]),
    ensures
        add_chunk(a + b, cursor, istart, parts, spans).0 == parts,
        add_chunk(a + seq!['"'] + y + seq!['"'] + b, cursor, istart, parts, spans).0 == parts.push(y),
        y.len() > 0 && !crate::text::is_ws(y[0]) && !crate::text::is_ws(y.last()) && !(y.len() >= 2 && y[0]
            == '"' && y.last() == '"') ==> add_chunk(a + y + b, cursor, istart, parts, spans).0 == parts.push(y),
{
    crate::text::lemma_trim_blank(a + b);
    assert forall|j: int| 0 <= j < (a + b).len() implies crate::text::is_ws(#[trigger] (a + b)[j]) by {
        if j < a.len() {
            assert((a + b)[j] == a[j]);
        } else {
            assert((a + b)[j] == b[j - a.len()]);
        }
    }
    let q = seq!['"'] + y + seq!['"'];
    lemma_trim_padded(a, q, b);
    assert(a + seq!['"'] + y + seq!['"'] + b =~= a + q + b);
    assert(q.subrange(1, q.len() - 1) =~= y);
    if y.len() > 0 && !crate::text::is_ws(y[0]) && !crate::text::is_ws(y.last()) {
        lemma_trim_padded(a, y, b);
    }
}

/// The items of a list body split on every `,`, from character `i` on; the
/// current chunk began at character `start`, byte `cursor`.
pub open spec fn list_from(
    inner: Seq<char>,
    i: int,
    start: int,
    cursor: usize,
    istart: usize,
    parts: Seq<Seq<char>>,
    spans: Seq<Span>,
) -> (Seq<Seq<char>>, Seq<Span>)
    decreases inner.len() - i,
{
    if i < 0 || i >= inner.len() {
        add_chunk(inner.subrange(start, inner.len() as int), cursor, istart, parts, spans)
    } else if inner[i] == ',' {
        let chunk = inner.subrange(start, i);
        let (p2, s2) = add_chunk(chunk, cursor, istart, parts, spans);
        list_from(inner, i + 1, i + 1, wadd(wadd(cursor, wblen(chunk)), 1), istart, p2, s2)
    } else {
        list_from(inner, i + 1, start, cursor, istart, parts, spans)
    }
}

/// An annotation argument: a `[a, b]` list (items unquoted, with spans), a
/// quoted string, an integer, a float, or else the text itself.
pub open spec fn sp_arg<H: Fn(HostQuery) -> HostReply>(h: H, raw0: Seq<char>, arg_span: Span) -> Result<
    (ArgModel, Seq<Span>),
    ErrModel,
> {
    let raw = trim(raw0);
    if raw.len() == 0 {
        Err(ErrModel { message: "annotation argument is empty"@, span: arg_span })
    } else if raw[0] == '[' && raw.last() == ']' {
        let (parts, spans) = list_from(
            raw.subrange(1, raw.len() - 1),
            0,
            0,
            0,
            wadd(arg_span.start, 1),
            Seq::empty(),
            Seq::empty(),
        );
        Ok((ArgModel::List(parts), spans))
    } else if raw.len() >= 2 && raw[0] == '"' && raw.last() == '"' {
        Ok((ArgModel::Str(raw.subrange(1, raw.len() - 1)), Seq::empty()))
    } else {
        match parse_int(raw, 10) {
            Some(n) => Ok((ArgModel::Int(n), Seq::empty())),
            None => match float_parse(h, raw) {
                Some(f) => Ok((ArgModel::Float(f), Seq::empty())),
                None => Ok((ArgModel::Str(raw), Seq::empty())),
            },
        }
    }
}

fn parse_list(inner: &[char], istart: usize) -> (r: (Vec<String>, Vec<Span>))
    ensures
        (strings_model(r.0@), r.1@) == list_from(
            inner@,
            0,
            0,
            0,
            istart,
            Seq::empty(),
            Seq::empty(),
        ),
{
    let n = inner.len();
    let mut parts: Vec<String> = Vec::new();
    let mut spans: Vec<Span> = Vec::new();
    let mut start: usize = 0;
    let mut cursor: usize = 0;
    let mut pos: usize = 0;
    let mut i: usize = 0;
    let ghost whole = list_from(inner@, 0, 0, 0, istart, Seq::empty(), Seq::empty());
    assert(strings_model(parts@) =~= Seq::<Seq<char>>::empty());
    assert(spans@ =~= Seq::<Span>::empty());
    while i < n
        invariant
            n == inner@.len(),
            start <= i <= n,
            whole == list_from(
                inner@,
                i as int,
                start as int,
                cursor,
                istart,
                strings_model(parts@),
                spans@,
            ),
        decreases n - i,
    {
        if inner[i] == ',' {
            let chunk = slice_of(inner, start, i);
            push_chunk(chunk.as_slice(), cursor, istart, &mut parts, &mut spans);
            cursor = cursor.wrapping_add(wbyte_len(chunk.as_slice())).wrapping_add(1);
            start = i + 1;
        }
        i = i + 1;
    }
    let chunk = slice_of(inner, start, n);
    push_chunk(chunk.as_slice(), cursor, istart, &mut parts, &mut spans);
    (parts, spans)
}

fn push_chunk(chunk: &[char], cursor: usize, istart: usize, parts: &mut Vec<String>, spans: &mut Vec<Span>)
    ensures
        (strings_model(final(parts)@), final(spans)@) == add_chunk(
            chunk@,
            cursor,
            istart,
            strings_model(old(parts)@),
            old(spans)@,
        ),
{
    let t = trimmed(chunk);
    if t.len() > 0 {
        let ghost before = parts@;
        let u = strip_quotes_chars(t.as_slice());
        parts.push(string_from(u.as_slice()));
        assert(strings_model(parts@) =~= strings_model(before).push(
            strip_quotes(trim(chunk@)),
        ));
        let base = istart.wrapping_add(cursor);
        let te = trimmed_end(chunk);
        spans.push(
            Span::new(
                base.wrapping_add(leading_ws_bytes(chunk)),
                base.wrapping_add(wbyte_len(te.as_slice())),
            ),
        );
    }
}

fn parse_arg<H: Fn(HostQuery) -> HostReply>(h: &H, raw0: &[char], arg_span: Span) -> (r: Result<
    (AnnotationArg, Vec<Span>),
    ParseError,
>)
    requires
        host_ok(*h),
    ensures
        match r {
            Ok((a, v)) => sp_arg(*h, raw0@, arg_span) == Ok::<(ArgModel, Seq<Span>), ErrModel>(
                (a.model(), v@),
            ),
            Err(e) => sp_arg(*h, raw0@, arg_span) == Err::<(ArgModel, Seq<Span>), ErrModel>(
                err_model(e),
            ),
        },
{
    let raw = trimmed(raw0);
    let n = raw.len();
    if n == 0 {
        let m = to_chars("annotation argument is empty");
        return Err(ParseError::Generic { message: string_from(m.as_slice()), span: arg_span });
    }
    if raw[0] == '[' && raw[n - 1] == ']' {
        let inner = slice_of(raw.as_slice(), 1, n - 1);
        let (parts, spans) = parse_list(inner.as_slice(), arg_span.start.wrapping_add(1));
        return Ok((AnnotationArg::List(parts), spans));
    }
    if n >= 2 && raw[0] == '"' && raw[n - 1] == '"' {
        let inner = slice_of(raw.as_slice(), 1, n - 1);
        return Ok((AnnotationArg::String(string_from(inner.as_slice())), Vec::new()));
    }
    match parse_i64_radix(raw.as_slice(), 10) {
        Some(v) => {
            return Ok((AnnotationArg::Int(v), Vec::new()));
        },
        None => {},
    }
    match host_parse_float(h, raw.as_slice()) {
        Some(f) => Ok((AnnotationArg::Float(f), Vec::new())),
        None => Ok((AnnotationArg::String(string_from(raw.as_slice())), Vec::new())),
    }
}

// ── Annotation lines ────────────────────────────────────────────────────────

pub open spec fn name_char_ok(c: char, first: bool) -> bool {
    let alpha = ('a' <= c <= 'z') || ('A' <= c <= 'Z');
    if first {
        alpha || c == '_'
    } else {
        alpha || ('0' <= c <= '9') || c == '_'
    }
}

/// Length of the identifier at the start of `s` (a letter or `_`, then
/// letters, digits and `_`), counting from `j`.
pub open spec fn name_len_from(s: Seq<char>, j: int) -> int
    decreases s.len() - j,
{
    if j < 0 || j >= s.len() || !name_char_ok(s[j], j == 0) {
        j
    } else {
        name_len_from(s, j + 1)
    }
}

pub proof fn lemma_name_len_bound(s: Seq<char>, j: int)
    requires
        0 <= j <= s.len(),
    ensures
        j <= name_len_from(s, j) <= s.len(),
    decreases s.len() - j,
{
    if j < s.len() && name_char_ok(s[j], j == 0) {
        lemma_name_len_bound(s, j + 1);
    }
}

/// What `parse_annotation(line, line_span)` yields: the `@name` head, then
/// nothing, `: arg`, or `(arg)`.
pub open spec fn sp_annotation<H: Fn(HostQuery) -> HostReply>(h: H, line: Seq<char>, ls: Span) -> Result<
    AnnModel,
    ErrModel,
> {
    let t = trim(line);
    if t.len() == 0 || t[0] != '@' {
        Err(ErrModel { message: "annotation must start with `@`"@, span: ls })
    } else {
        let after = t.skip(1);
        let nl = name_len_from(after, 0);
        if nl == 0 {
            Err(ErrModel { message: "annotation missing name"@, span: ls })
        } else {
            let name = after.take(nl);
            let name_span = Span { start: ls.start, end: wadd(ls.start, (nl + 1) as usize) };
            let rest = trim_start(after.skip(nl));
            let rest_off = wblen(t.take(t.len() - rest.len()));
            let base = wadd(wadd(ls.start, rest_off), 1);
            if rest.len() == 0 {
                Ok(
                    AnnModel {
                        name,
                        arg: ArgModel::NoArg,
                        span: ls,
                        name_span,
                        arg_span: None,
                        list_item_spans: Seq::empty(),
                    },
                )
            } else if rest[0] == ':' {
                let ac = rest.skip(1);
                let span = Span { start: wadd(base, lead_bytes(ac)), end: wadd(base, wblen(trim_end(ac))) };
                match sp_arg(h, trim(ac), span) {
                    Err(e) => Err(e),
                    Ok((a, items)) => Ok(
                        AnnModel {
                            name,
                            arg: a,
                            span: ls,
                            name_span,
                            arg_span: Some(span),
                            list_item_spans: items,
                        },
                    ),
                }
            } else if rest[0] == '(' && rest.last() == ')' {
                let ir = rest.subrange(1, rest.len() - 1);
                let span = Span { start: wadd(base, lead_bytes(ir)), end: wadd(base, wblen(trim_end(ir))) };
                Ok(
                    AnnModel {
                        name,
                        arg: ArgModel::Str(strip_quotes(trim(ir))),
                        span: ls,
                        name_span,
                        arg_span: Some(span),
                        list_item_spans: Seq::empty(),
                    },
                )
            } else {
                Err(
                    ErrModel {
                        message: "invalid annotation syntax: `"@ + line + "`"@,
                        span: ls,
                    },
                )
            }
        }
    }
}

/// Parses one annotation line; `line_span` is the span of the line's text
/// starting at `@`.
pub fn parse_annotation<H: Fn(HostQuery) -> HostReply>(line: &str, line_span: Span, h: &H) -> (r:
    Result<Annotation, ParseError>)
    requires
        host_ok(*h),
    ensures
        match r {
            Ok(a) => sp_annotation(*h, line@, line_span) == Ok::<AnnModel, ErrModel>(a@),
            Err(e) => sp_annotation(*h, line@, line_span) == Err::<AnnModel, ErrModel>(
                err_model(e),
            ),
        },
{
    let lc = to_chars(line);
    let t = trimmed(lc.as_slice());
    let tn = t.len();
    if tn == 0 || t[0] != '@' {
        let m = to_chars("annotation must start with `@`");
        return Err(ParseError::Generic { message: string_from(m.as_slice()), span: line_span });
    }
    let after = slice_of(t.as_slice(), 1, tn);
    assert(after@ =~= t@.skip(1));
    let an = after.len();
    proof {
        lemma_name_len_bound(after@, 0);
    }
    let mut nl: usize = 0;
    while nl < an && ((after[nl] >= 'a' && after[nl] <= 'z') || (after[nl] >= 'A' && after[nl] <= 'Z')
        || (nl > 0 && after[nl] >= '0' && after[nl] <= '9') || after[nl] == '_')
        invariant
            an == after@.len(),
            nl <= an,
            name_len_from(after@, 0) == name_len_from(after@, nl as int),
        decreases an - nl,
    {
        nl = nl + 1;
    }
    if nl == 0 {
        let m = to_chars("annotation missing name");
        return Err(ParseError::Generic { message: string_from(m.as_slice()), span: line_span });
    }
    let name = slice_of(after.as_slice(), 0, nl);
    assert(name@ =~= after@.take(nl as int));
    let name_span = Span::new(line_span.start, line_span.start.wrapping_add(nl + 1));
    let tail = slice_of(after.as_slice(), nl, an);
    assert(tail@ =~= after@.skip(nl as int));
    let rest = trimmed_start(tail.as_slice());
    proof {
        crate::text::lemma_ws_prefix_len_bound(tail@);
    }
    let rn = rest.len();
    let head = slice_of(t.as_slice(), 0, tn - rn);
    assert(head@ =~= t@.take(t@.len() - rest@.len()));
    let rest_off = wbyte_len(head.as_slice());
    let base = line_span.start.wrapping_add(rest_off).wrapping_add(1);
    if rn == 0 {
        return Ok(
            Annotation {
                name: string_from(name.as_slice()),
                arg: AnnotationArg::NoArg,
                span: line_span,
                name_span,
                arg_span: None,
                list_item_spans: Vec::new(),
            },
        );
    }
    if rest[0] == ':' {
        let ac = slice_of(rest.as_slice(), 1, rn);
        assert(ac@ =~= rest@.skip(1));
        let ace = trimmed_end(ac.as_slice());
        let span = Span::new(
            base.wrapping_add(leading_ws_bytes(ac.as_slice())),
            base.wrapping_add(wbyte_len(ace.as_slice())),
        );
        let arg_str = trimmed(ac.as_slice());
        return match parse_arg(h, arg_str.as_slice(), span) {
            Err(e) => Err(e),
            Ok((a, items)) => Ok(
                Annotation {
                    name: string_from(name.as_slice()),
                    arg: a,
                    span: line_span,
                    name_span,
                    arg_span: Some(span),
                    list_item_spans: items,
                },
            ),
        };
    }
    if rest[0] == '(' && rest[rn - 1] == ')' {
        let ir = slice_of(rest.as_slice(), 1, rn - 1);
        let ire = trimmed_end(ir.as_slice());
        let span = Span::new(
            base.wrapping_add(leading_ws_bytes(ir.as_slice())),
            base.wrapping_add(wbyte_len(ire.as_slice())),
        );
        let inner = trimmed(ir.as_slice());
        let sq = strip_quotes_chars(inner.as_slice());
        return Ok(
            Annotation {
                name: string_from(name.as_slice()),
                arg: AnnotationArg::String(string_from(sq.as_slice())),
                span: line_span,
                name_span,
                arg_span: Some(span),
                list_item_spans: Vec::new(),
            },
        );
    }
    let mut m = to_chars("invalid annotation syntax: `");
    push_all(&mut m, lc.as_slice());
    push_lit(&mut m, "`");
    Err(ParseError::Generic { message: string_from(m.as_slice()), span: line_span })
}

} // verus!
