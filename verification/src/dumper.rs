//! Pretty-printer / round-trip serializer.

use vstd::prelude::*;
use crate::annotation::{AnnModel, Annotation, AnnotationArg, ArgModel};
use crate::host::{
    float_display, float_literal, host_display, host_literal, host_ok, HostQuery, HostReply,
};
use crate::error::ErrModel;
use crate::numeric::{digit_of, int_text, int_to_text, nat_text};
use crate::span::Span;
use crate::value_parser::{
    drop_underscores, escape_of, radix_prefix, sp_number, sp_string, unescape,
};
use crate::parser::{anns_model, DocModel, Document};
use crate::text::{
    chars_of, push_all, push_lit, string_from, strings_model, to_chars, trim_end, trimmed_end,
};
use crate::validator::join_with;
use crate::value::{dict_get, Dict, Value, ValueModel};

verus! {

// ── Values ──────────────────────────────────────────────────────────────────

/// How a character is written inside a quoted string.
pub open spec fn escape_char(c: char) -> Seq<char> {
    if c == '\\' {
        seq!['\\', '\\']
    } else if c == '"' {
        seq!['\\', '"']
    } else if c == '\n' {
        seq!['\\', 'n']
    } else if c == '\t' {
        seq!['\\', 't']
    } else if c == '\r' {
        seq!['\\', 'r']
    } else {
        seq![c]
    }
}

pub open spec fn escape_all(s: Seq<char>) -> Seq<char>
    decreases s.len(),
{
    if s.len() == 0 {
        Seq::empty()
    } else {
        escape_all(s.drop_last()) + escape_char(s.last())
    }
}

/// A quoted string holds no raw newline, tab or carriage return: those
/// three are written as `\n`, `\t`, `\r` (other characters, other
/// control characters among them, are written as they are).
pub proof fn law_quote_no_line_breaks(s: Seq<char>)
    ensures
        forall|i: int|
            0 <= i < quote(s).len() ==> #[trigger] quote(s)[i] != '\n' && quote(s)[i] != '\t' && quote(s)[i] != '\r',
{
    lemma_escape_no_breaks(s);
    let q = quote(s);
    assert forall|i: int| 0 <= i < q.len() implies #[trigger] q[i] != '\n' && q[i] != '\t' && q[i] != '\r' by {
        if 0 < i < q.len() - 1 {
            assert(q[i] == escape_all(s)[i - 1]);
        }
    }
}

proof fn lemma_escape_no_breaks(s: Seq<char>)
    ensures
        forall|i: int|
            0 <= i < escape_all(s).len() ==> #[trigger] escape_all(s)[i] != '\n' && escape_all(s)[i] != '\t'
                && escape_all(s)[i] != '\r',
    decreases s.len(),
{
    if s.len() > 0 {
        lemma_escape_no_breaks(s.drop_last());
        let a = escape_all(s.drop_last());
        let e = escape_all(s);
        let c = escape_char(s.last());
        assert forall|i: int| 0 <= i < e.len() implies #[trigger] e[i] != '\n' && e[i] != '\t' && e[i] != '\r' by {
            if i < a.len() {
                assert(e[i] == a[i]);
            } else {
                assert(e[i] == c[i - a.len()]);
            }
        }
    }
}

/// A string in double quotes with `\`, `"`, newline, tab and carriage
/// return escaped.
pub open spec fn quote(s: Seq<char>) -> Seq<char> {
    seq!['"'] + escape_all(s) + seq!['"']
}

/// How a value is written.
pub open spec fn fmt_value<H: Fn(HostQuery) -> HostReply>(h: H, v: ValueModel) -> Seq<char>
    decreases v,
{
    match v {
        ValueModel::Null => "null"@,
        ValueModel::Bool(b) => if b {
            "true"@
        } else {
            "false"@
        },
        ValueModel::Integer(n) => int_text(n as int),
        ValueModel::Float(f) => float_literal(h, f),
        ValueModel::Str(s) => quote(s),
        ValueModel::Array(xs) => "["@ + fmt_items(h, xs) + "]"@,
        ValueModel::Dict(d) => "#{ "@ + fmt_entries(h, d) + " }#"@,
    }
}

/// The items written and joined with `, `.
pub open spec fn fmt_items<H: Fn(HostQuery) -> HostReply>(h: H, xs: Seq<ValueModel>) -> Seq<char>
    decreases xs,
{
    if xs.len() == 0 {
        Seq::empty()
    } else if xs.len() == 1 {
        fmt_value(h, xs[0])
    } else {
        fmt_items(h, xs.subrange(0, xs.len() - 1)) + ", "@ + fmt_value(h, xs[xs.len() - 1])
    }
}

/// The entries written as `key = value` and joined with `, `.
pub open spec fn fmt_entries<H: Fn(HostQuery) -> HostReply>(h: H, d: Seq<(Seq<char>, ValueModel)>) -> Seq<char>
    decreases d,
{
    if d.len() == 0 {
        Seq::empty()
    } else if d.len() == 1 {
        proof {
            assert(decreases_to!(d => d[0]));
        }
        d[0].0 + " = "@ + fmt_value(h, d[0].1)
    } else {
        proof {
            assert(decreases_to!(d => d[d.len() - 1]));
        }
        fmt_entries(h, d.subrange(0, d.len() - 1)) + ", "@ + d[d.len() - 1].0 + " = "@ + fmt_value(
            h,
            d[d.len() - 1].1,
        )
    }
}

fn quote_chars(s: &[char]) -> (r: Vec<char>)
    ensures
        r@ == quote(s@),
{
    let mut out: Vec<char> = Vec::new();
    out.push('"');
    let mut i: usize = 0;
    while i < s.len()
        invariant
            i <= s@.len(),
            out@ == seq!['"'] + escape_all(s@.take(i as int)),
        decreases s@.len() - i,
    {
        let ghost before = out@;
        let c = s[i];
        if c == '\\' {
            out.push('\\');
            out.push('\\');
        } else if c == '"' {
            out.push('\\');
            out.push('"');
        } else if c == '\n' {
            out.push('\\');
            out.push('n');
        } else if c == '\t' {
            out.push('\\');
            out.push('t');
        } else if c == '\r' {
            out.push('\\');
            out.push('r');
        } else {
            out.push(c);
        }
        assert(s@.take(i + 1).drop_last() =~= s@.take(i as int));
        assert(out@ =~= before + escape_char(c));
        i = i + 1;
    }
    assert(s@.take(i as int) =~= s@);
    out.push('"');
    out
}

/// `format_value(v)`: how the dumper writes a value.
pub fn format_value<H: Fn(HostQuery) -> HostReply>(v: &Value, depth: usize, h: &H) -> (r: String)
    requires
        host_ok(*h),
    ensures
        r@ == fmt_value(*h, v.model()),
{
    let c = format_chars(h, v);
    string_from(c.as_slice())
}

fn format_chars<H: Fn(HostQuery) -> HostReply>(h: &H, v: &Value) -> (r: Vec<char>)
    requires
        host_ok(*h),
    ensures
        r@ == fmt_value(*h, v.model()),
    decreases v,
{
    match v {
        Value::Null => to_chars("null"),
        Value::Bool(b) => if *b {
            to_chars("true")
        } else {
            to_chars("false")
        },
        Value::Integer(n) => int_to_text(*n),
        Value::Float(f) => host_literal(h, *f),
        Value::String(s) => quote_chars(chars_of(s).as_slice()),
        Value::Array(xs) => {
            let ghost m = v.model()->Array_0;
            let mut out = to_chars("[");
            let mut i: usize = 0;
            assert(m.take(0) =~= Seq::<ValueModel>::empty());
            while i < xs.len()
                invariant
                    *v == Value::Array(*xs),
                    m == v.model()->Array_0,
                    m.len() == xs@.len(),
                    i <= xs@.len(),
                    host_ok(*h),
                    out@ == "["@ + fmt_items(*h, m.take(i as int)),
                decreases xs@.len() - i,
            {
                proof {
                    assert(decreases_to!(v => v->Array_0));
                    assert(decreases_to!(v->Array_0 => v->Array_0[i as int]));
                }
                let ghost before = out@;
                let ghost t = m.take(i + 1);
                assert(m[i as int] == xs@[i as int].model());
                assert(t.subrange(0, t.len() - 1) =~= m.take(i as int));
                assert(t[t.len() - 1] == m[i as int]);
                if i > 0 {
                    push_lit(&mut out, ", ");
                }
                let item = format_chars(h, &xs[i]);
                push_all(&mut out, item.as_slice());
                if i == 0 {
                    assert(fmt_items(*h, m.take(0)) =~= Seq::<char>::empty());
                    assert(out@ =~= "["@ + fmt_items(*h, t));
                } else {
                    assert(out@ =~= "["@ + fmt_items(*h, t));
                }
                i = i + 1;
            }
            assert(m.take(i as int) =~= m);
            push_lit(&mut out, "]");
            out
        },
        Value::Dict(d) => {
            let ghost m = d.model();
            proof {
                d.lemma_model();
            }
            let mut out = to_chars("#{ ");
            let mut i: usize = 0;
            assert(m.take(0) =~= Seq::<(Seq<char>, ValueModel)>::empty());
            while i < d.entries.len()
                invariant
                    *v == Value::Dict(*d),
                    m == d.model(),
                    m.len() == d.entries@.len(),
                    i <= d.entries@.len(),
                    host_ok(*h),
                    out@ == "#{ "@ + fmt_entries(*h, m.take(i as int)),
                decreases d.entries@.len() - i,
            {
                proof {
                    assert(decreases_to!(v => v->Dict_0));
                    assert(decreases_to!(v->Dict_0 => v->Dict_0.entries));
                    assert(decreases_to!(v->Dict_0.entries => v->Dict_0.entries[i as int]));
                    assert(decreases_to!(v->Dict_0.entries[i as int] => v->Dict_0.entries[i as int].1));
                    d.lemma_model();
                }
                let ghost before = out@;
                let ghost t = m.take(i + 1);
                assert(t.subrange(0, t.len() - 1) =~= m.take(i as int));
                assert(t[t.len() - 1] == m[i as int]);
                if i > 0 {
                    push_lit(&mut out, ", ");
                }
                push_all(&mut out, chars_of(&d.entries[i].0).as_slice());
                push_lit(&mut out, " = ");
                let item = format_chars(h, &d.entries[i].1);
                push_all(&mut out, item.as_slice());
                assert(out@ =~= "#{ "@ + fmt_entries(*h, t));
                i = i + 1;
            }
            assert(m.take(i as int) =~= m);
            push_lit(&mut out, " }#");
            out
        },
    }
}

// ── Documents ───────────────────────────────────────────────────────────────

/// How an annotation is written back.
pub open spec fn fmt_ann<H: Fn(HostQuery) -> HostReply>(h: H, a: AnnModel) -> Seq<char> {
    match a.arg {
        ArgModel::NoArg => "@"@ + a.name,
        ArgModel::Str(s) => "@"@ + a.name + ": "@ + s,
        ArgModel::Int(n) => "@"@ + a.name + ": "@ + int_text(n as int),
        ArgModel::Float(f) => "@"@ + a.name + ": "@ + float_display(h, f),
        ArgModel::List(xs) => "@"@ + a.name + ": ["@ + join_with(xs, ", "@) + "]"@,
    }
}

/// One line per annotation.
pub open spec fn anns_text<H: Fn(HostQuery) -> HostReply>(h: H, anns: Seq<AnnModel>, indent: Seq<char>) -> Seq<char>
    decreases anns.len(),
{
    if anns.len() == 0 {
        Seq::empty()
    } else {
        anns_text(h, anns.drop_last(), indent) + indent + fmt_ann(h, anns.last()) + "\n"@
    }
}

/// The annotation lines of a dotted key, if it has any.
pub open spec fn meta_text<H: Fn(HostQuery) -> HostReply>(h: H, d: DocModel, key: Seq<char>, indent: Seq<char>) -> Seq<char> {
    match dict_get(d.meta, key) {
        Some(anns) => anns_text(h, anns, indent),
        None => Seq::empty(),
    }
}

/// `key = value` lines of the `[vars]` section.
pub open spec fn vars_text<H: Fn(HostQuery) -> HostReply>(h: H, m: Seq<(Seq<char>, ValueModel)>) -> Seq<char>
    decreases m.len(),
{
    if m.len() == 0 {
        Seq::empty()
    } else {
        vars_text(h, m.drop_last()) + m.last().0 + " = "@ + fmt_value(h, m.last().1) + "\n"@
    }
}

/// The top-level keys that are not dicts, with their annotations.
pub open spec fn top_text<H: Fn(HostQuery) -> HostReply>(h: H, d: DocModel, m: Seq<(Seq<char>, ValueModel)>) -> Seq<char>
    decreases m.len(),
{
    if m.len() == 0 {
        Seq::empty()
    } else {
        let (k, v) = m.last();
        top_text(h, d, m.drop_last()) + if v is Dict {
            Seq::empty()
        } else {
            meta_text(h, d, k, Seq::empty()) + k + " = "@ + fmt_value(h, v) + "\n"@
        }
    }
}

pub open spec fn has_leaf(m: Seq<(Seq<char>, ValueModel)>) -> bool {
    exists|i: int| 0 <= i < m.len() && !((#[trigger] m[i]).1 is Dict)
}

/// The entries of a block dict at `fq`, indented.
pub open spec fn block_text<H: Fn(HostQuery) -> HostReply>(
    h: H,
    d: DocModel,
    fq: Seq<char>,
    m: Seq<(Seq<char>, ValueModel)>,
) -> Seq<char>
    decreases m.len(),
{
    if m.len() == 0 {
        Seq::empty()
    } else {
        let (k, v) = m.last();
        block_text(h, d, fq, m.drop_last()) + meta_text(h, d, fq + "."@ + k, "  "@) + "  "@ + k + " = "@
            + fmt_value(h, v) + "\n"@
    }
}

/// The keys of section `sec`: dicts as `#{ … }#` blocks, others as lines.
pub open spec fn section_text<H: Fn(HostQuery) -> HostReply>(
    h: H,
    d: DocModel,
    sec: Seq<char>,
    m: Seq<(Seq<char>, ValueModel)>,
) -> Seq<char>
    decreases m.len(),
{
    if m.len() == 0 {
        Seq::empty()
    } else {
        let (k, v) = m.last();
        let fq = sec + "."@ + k;
        section_text(h, d, sec, m.drop_last()) + meta_text(h, d, fq, Seq::empty()) + match v {
            ValueModel::Dict(inner) => k + " = #{\n"@ + block_text(h, d, fq, inner) + "}#\n"@,
            _ => k + " = "@ + fmt_value(h, v) + "\n"@,
        }
    }
}

/// The top-level dicts as `[section]`s.
pub open spec fn sections_text<H: Fn(HostQuery) -> HostReply>(h: H, d: DocModel, m: Seq<(Seq<char>, ValueModel)>) -> Seq<char>
    decreases m.len(),
{
    if m.len() == 0 {
        Seq::empty()
    } else {
        let (k, v) = m.last();
        sections_text(h, d, m.drop_last()) + match v {
            ValueModel::Dict(sub) => meta_text(h, d, k, Seq::empty()) + "["@ + k + "]\n"@ + section_text(
                h,
                d,
                k,
                sub,
            ) + "\n"@,
            _ => Seq::empty(),
        }
    }
}

/// The text `dumps` writes: `[vars]`, then the top-level keys, then the
/// sections, with trailing whitespace replaced by one newline.
pub open spec fn sp_dumps<H: Fn(HostQuery) -> HostReply>(h: H, d: DocModel) -> Seq<char> {
    let vars = if d.vars.len() > 0 {
        "[vars]\n"@ + vars_text(h, d.vars) + "\n"@
    } else {
        Seq::empty()
    };
    let top = top_text(h, d, d.config) + if has_leaf(d.config) {
        "\n"@
    } else {
        Seq::empty()
    };
    trim_end(vars + top + sections_text(h, d, d.config)) + "\n"@
}

pub(crate) fn format_annotation<H: Fn(HostQuery) -> HostReply>(a: &Annotation, h: &H) -> (r: Vec<char>)
    requires
        host_ok(*h),
    ensures
        r@ == fmt_ann(*h, a@),
{
    let mut out = to_chars("@");
    push_all(&mut out, chars_of(&a.name).as_slice());
    match &a.arg {
        AnnotationArg::NoArg => {},
        AnnotationArg::String(s) => {
            push_lit(&mut out, ": ");
            push_all(&mut out, chars_of(s).as_slice());
        },
        AnnotationArg::Int(n) => {
            push_lit(&mut out, ": ");
            push_all(&mut out, int_to_text(*n).as_slice());
        },
        AnnotationArg::Float(f) => {
            push_lit(&mut out, ": ");
            push_all(&mut out, host_display(h, *f).as_slice());
        },
        AnnotationArg::List(xs) => {
            push_lit(&mut out, ": [");
            push_all(&mut out, join_strings(xs).as_slice());
            push_lit(&mut out, "]");
        },
    }
    out
}

fn join_strings(cs: &Vec<String>) -> (r: Vec<char>)
    ensures
        r@ == join_with(strings_model(cs@), ", "@),
{
    let ghost ps = strings_model(cs@);
    let n = cs.len();
    if n == 0 {
        return Vec::new();
    }
    let mut out = chars_of(&cs[0]);
    assert(ps.take(1) =~= seq![ps[0]]);
    let mut i: usize = 1;
    while i < n
        invariant
            n == cs@.len(),
            ps == strings_model(cs@),
            1 <= i <= n,
            out@ == join_with(ps.take(i as int), ", "@),
        decreases n - i,
    {
        let ghost before = out@;
        push_lit(&mut out, ", ");
        push_all(&mut out, chars_of(&cs[i]).as_slice());
        assert(ps.take(i + 1).drop_last() =~= ps.take(i as int));
        assert(out@ =~= before + ", "@ + ps[i as int]);
        i = i + 1;
    }
    assert(ps.take(n as int) =~= ps);
    out
}

fn emit_annotations<H: Fn(HostQuery) -> HostReply>(out: &mut Vec<char>, anns: &Vec<Annotation>, indent: &str, h: &H)
    requires
        host_ok(*h),
    ensures
        final(out)@ == old(out)@ + anns_text(*h, anns_model(anns@), indent@),
{
    let ghost am = anns_model(anns@);
    let ghost start = out@;
    let mut i: usize = 0;
    assert(am.take(0) =~= Seq::<AnnModel>::empty());
    assert(start + anns_text(*h, am.take(0), indent@) =~= start);
    while i < anns.len()
        invariant
            am == anns_model(anns@),
            i <= anns@.len(),
            host_ok(*h),
            out@ == start + anns_text(*h, am.take(i as int), indent@),
        decreases anns@.len() - i,
    {
        let ghost before = out@;
        push_lit(out, indent);
        push_all(out, format_annotation(&anns[i], h).as_slice());
        out.push('\n');
        proof {
            reveal_strlit("\n");
        }
        assert(am.take(i + 1).drop_last() =~= am.take(i as int));
        assert(am.take(i + 1).last() == anns@[i as int]@);
        assert(out@ =~= start + anns_text(*h, am.take(i + 1), indent@));
        i = i + 1;
    }
    assert(am.take(i as int) =~= am);
}

fn emit_meta<H: Fn(HostQuery) -> HostReply>(out: &mut Vec<char>, doc: &Document, key: &[char], indent: &str, h: &H)
    requires
        host_ok(*h),
    ensures
        final(out)@ == old(out)@ + meta_text(*h, doc@, key@, indent@),
{
    let ks = string_from(key);
    proof {
        crate::parser::lemma_meta_find(doc.meta.model(), key@, 0);
        crate::value::lemma_dict_find_from_bound(doc.meta.model(), key@, 0);
    }
    match doc.meta.get(ks.as_str()) {
        Some(anns) => {
            emit_annotations(out, anns, indent, h);
        },
        None => {
            assert(out@ =~= out@ + Seq::<char>::empty());
        },
    }
}

fn push_value_line<H: Fn(HostQuery) -> HostReply>(out: &mut Vec<char>, indent: &str, k: &String, v: &Value, h: &H)
    requires
        host_ok(*h),
    ensures
        final(out)@ == old(out)@ + indent@ + k@ + " = "@ + fmt_value(*h, v.model()) + "\n"@,
{
    let ghost start = out@;
    push_lit(out, indent);
    push_all(out, chars_of(k).as_slice());
    push_lit(out, " = ");
    push_all(out, format_chars(h, v).as_slice());
    push_lit(out, "\n");
    assert(out@ =~= start + indent@ + k@ + " = "@ + fmt_value(*h, v.model()) + "\n"@);
}

fn dotted(a: &[char], b: &String) -> (r: Vec<char>)
    ensures
        r@ == a@ + "."@ + b@,
{
    let mut s = crate::text::slice_of(a, 0, a.len());
    assert(s@ =~= a@);
    push_lit(&mut s, ".");
    push_all(&mut s, chars_of(b).as_slice());
    s
}

fn emit_block<H: Fn(HostQuery) -> HostReply>(out: &mut Vec<char>, doc: &Document, fq: &[char], inner: &Dict, h: &H)
    requires
        host_ok(*h),
    ensures
        final(out)@ == old(out)@ + block_text(*h, doc@, fq@, inner.model()),
{
    let ghost m = inner.model();
    let ghost start = out@;
    proof {
        inner.lemma_model();
    }
    let mut i: usize = 0;
    assert(m.take(0) =~= Seq::<(Seq<char>, ValueModel)>::empty());
    assert(start + block_text(*h, doc@, fq@, m.take(0)) =~= start);
    while i < inner.entries.len()
        invariant
            m == inner.model(),
            m.len() == inner.entries@.len(),
            i <= m.len(),
            host_ok(*h),
            out@ == start + block_text(*h, doc@, fq@, m.take(i as int)),
        decreases m.len() - i,
    {
        proof {
            inner.lemma_model();
        }
        let ghost before = out@;
        let k = &inner.entries[i].0;
        let ifq = dotted(fq, k);
        emit_meta(out, doc, ifq.as_slice(), "  ", h);
        push_value_line(out, "  ", k, &inner.entries[i].1, h);
        assert(m.take(i + 1).drop_last() =~= m.take(i as int));
        assert(m.take(i + 1).last() == m[i as int]);
        assert(out@ =~= start + block_text(*h, doc@, fq@, m.take(i + 1)));
        i = i + 1;
    }
    assert(m.take(i as int) =~= m);
}

fn emit_section<H: Fn(HostQuery) -> HostReply>(out: &mut Vec<char>, doc: &Document, sec: &[char], sub: &Dict, h: &H)
    requires
        host_ok(*h),
    ensures
        final(out)@ == old(out)@ + section_text(*h, doc@, sec@, sub.model()),
{
    let ghost m = sub.model();
    let ghost start = out@;
    proof {
        sub.lemma_model();
    }
    let mut i: usize = 0;
    assert(m.take(0) =~= Seq::<(Seq<char>, ValueModel)>::empty());
    assert(start + section_text(*h, doc@, sec@, m.take(0)) =~= start);
    while i < sub.entries.len()
        invariant
            m == sub.model(),
            m.len() == sub.entries@.len(),
            i <= m.len(),
            host_ok(*h),
            out@ == start + section_text(*h, doc@, sec@, m.take(i as int)),
        decreases m.len() - i,
    {
        proof {
            sub.lemma_model();
        }
        let ghost before = out@;
        let k = &sub.entries[i].0;
        let fq = dotted(sec, k);
        emit_meta(out, doc, fq.as_slice(), "", h);
        proof {
            reveal_strlit("");
            assert(""@ =~= Seq::<char>::empty());
        }
        match &sub.entries[i].1 {
            Value::Dict(inner) => {
                let ghost mid = out@;
                push_all(out, chars_of(k).as_slice());
                push_lit(out, " = #{\n");
                emit_block(out, doc, fq.as_slice(), inner, h);
                push_lit(out, "}#\n");
                assert(out@ =~= mid + (k@ + " = #{\n"@ + block_text(*h, doc@, fq@, inner.model()) + "}#\n"@));
            },
            other => {
                let ghost mid = out@;
                push_value_line(out, "", k, other, h);
                assert(out@ =~= mid + (k@ + " = "@ + fmt_value(*h, other.model()) + "\n"@));
            },
        }
        assert(m.take(i + 1).drop_last() =~= m.take(i as int));
        assert(m.take(i + 1).last() == m[i as int]);
        assert(out@ =~= start + section_text(*h, doc@, sec@, m.take(i + 1)));
        i = i + 1;
    }
    assert(m.take(i as int) =~= m);
}

/// Writes a document back as TOML+ text.
pub fn dumps<H: Fn(HostQuery) -> HostReply>(doc: &Document, h: &H) -> (r: String)
    requires
        host_ok(*h),
    ensures
        r@ == sp_dumps(*h, doc@),
{
    let ghost d = doc@;
    let mut out: Vec<char> = Vec::new();
    proof {
        reveal_strlit("");
        assert(""@ =~= Seq::<char>::empty());
    }
    // [vars]
    if doc.vars.len() > 0 {
        push_lit(&mut out, "[vars]\n");
        let ghost m = d.vars;
        let ghost start = out@;
        proof {
            doc.vars.lemma_model();
        }
        let mut i: usize = 0;
        assert(m.take(0) =~= Seq::<(Seq<char>, ValueModel)>::empty());
        assert(start + vars_text(*h, m.take(0)) =~= start);
        while i < doc.vars.entries.len()
            invariant
                d == doc@,
                ""@ == Seq::<char>::empty(),
                m == d.vars,
                m.len() == doc.vars.entries@.len(),
                i <= m.len(),
                host_ok(*h),
                out@ == start + vars_text(*h, m.take(i as int)),
            decreases m.len() - i,
        {
            proof {
                doc.vars.lemma_model();
            }
            push_value_line(&mut out, "", &doc.vars.entries[i].0, &doc.vars.entries[i].1, h);
            assert(m.take(i + 1).drop_last() =~= m.take(i as int));
            assert(m.take(i + 1).last() == m[i as int]);
            assert(out@ =~= start + vars_text(*h, m.take(i + 1)));
            i = i + 1;
        }
        assert(m.take(i as int) =~= m);
        push_lit(&mut out, "\n");
        assert(out@ =~= "[vars]\n"@ + vars_text(*h, d.vars) + "\n"@);
    } else {
        assert(out@ =~= Seq::<char>::empty());
    }
    let ghost after_vars = out@;
    // top-level keys that are not dicts
    let ghost m = d.config;
    proof {
        doc.config.lemma_model();
    }
    let mut wrote_top = false;
    let mut i: usize = 0;
    assert(m.take(0) =~= Seq::<(Seq<char>, ValueModel)>::empty());
    assert(after_vars + top_text(*h, d, m.take(0)) =~= after_vars);
    while i < doc.config.entries.len()
        invariant
            d == doc@,
            ""@ == Seq::<char>::empty(),
            m == d.config,
            m.len() == doc.config.entries@.len(),
            i <= m.len(),
            host_ok(*h),
            out@ == after_vars + top_text(*h, d, m.take(i as int)),
            wrote_top == has_leaf(m.take(i as int)),
        decreases m.len() - i,
    {
        proof {
            doc.config.lemma_model();
        }
        let ghost before = out@;
        let k = &doc.config.entries[i].0;
        let v = &doc.config.entries[i].1;
        let is_dict = matches!(v, Value::Dict(_));
        if !is_dict {
            emit_meta(&mut out, doc, chars_of(k).as_slice(), "", h);
            push_value_line(&mut out, "", k, v, h);
            wrote_top = true;
        }
        let ghost t = m.take(i + 1);
        assert(t.drop_last() =~= m.take(i as int));
        assert(t.last() == m[i as int]);
        assert(out@ =~= after_vars + top_text(*h, d, t));
        assert(has_leaf(t) == (has_leaf(m.take(i as int)) || !(m[i as int].1 is Dict))) by {
            if !(m[i as int].1 is Dict) {
                assert(!(t[i as int].1 is Dict));
            }
            if has_leaf(m.take(i as int)) {
                let q = choose|q: int| 0 <= q < m.take(i as int).len() && !((#[trigger] m.take(i as int)[q]).1 is Dict);
                assert(t[q] == m.take(i as int)[q]);
            }
            if has_leaf(t) {
                let q = choose|q: int| 0 <= q < t.len() && !((#[trigger] t[q]).1 is Dict);
                if q < i {
                    assert(m.take(i as int)[q] == t[q]);
                }
            }
        }
        i = i + 1;
    }
    assert(m.take(i as int) =~= m);
    if wrote_top {
        push_lit(&mut out, "\n");
    }
    let ghost after_top = out@;
    assert(after_top =~= after_vars + (top_text(*h, d, d.config) + if has_leaf(d.config) {
        "\n"@
    } else {
        Seq::<char>::empty()
    }));
    // sections
    let mut j: usize = 0;
    assert(after_top + sections_text(*h, d, m.take(0)) =~= after_top);
    while j < doc.config.entries.len()
        invariant
            d == doc@,
            ""@ == Seq::<char>::empty(),
            m == d.config,
            m.len() == doc.config.entries@.len(),
            j <= m.len(),
            host_ok(*h),
            out@ == after_top + sections_text(*h, d, m.take(j as int)),
        decreases m.len() - j,
    {
        proof {
            doc.config.lemma_model();
        }
        let ghost before = out@;
        let k = &doc.config.entries[j].0;
        match &doc.config.entries[j].1 {
            Value::Dict(sub) => {
                let kc = chars_of(k);
                emit_meta(&mut out, doc, kc.as_slice(), "", h);
                push_lit(&mut out, "[");
                push_all(&mut out, kc.as_slice());
                push_lit(&mut out, "]\n");
                emit_section(&mut out, doc, kc.as_slice(), sub, h);
                push_lit(&mut out, "\n");
                assert(out@ =~= before + (meta_text(*h, d, k@, Seq::empty()) + "["@ + k@ + "]\n"@
                    + section_text(*h, d, k@, sub.model()) + "\n"@));
            },
            _ => {
                assert(out@ =~= before + Seq::<char>::empty());
            },
        }
        let ghost t = m.take(j + 1);
        assert(t.drop_last() =~= m.take(j as int));
        assert(t.last() == m[j as int]);
        assert(out@ =~= after_top + sections_text(*h, d, t));
        j = j + 1;
    }
    assert(m.take(j as int) =~= m);
    assert(out@ =~= after_vars + (top_text(*h, d, d.config) + if has_leaf(d.config) {
        "\n"@
    } else {
        Seq::<char>::empty()
    }) + sections_text(*h, d, d.config));
    let mut res = trimmed_end(out.as_slice());
    push_lit(&mut res, "\n");
    string_from(res.as_slice())
}

// ── Round trips ─────────────────────────────────────────────────────────────

pub proof fn lemma_escape_concat(a: Seq<char>, b: Seq<char>)
    ensures
        escape_all(a + b) == escape_all(a) + escape_all(b),
    decreases b.len(),
{
    if b.len() == 0 {
        assert(a + b =~= a);
        assert(escape_all(a) + escape_all(b) =~= escape_all(a));
    } else {
        lemma_escape_concat(a, b.drop_last());
        assert((a + b).drop_last() =~= a + b.drop_last());
        assert((a + b).last() == b.last());
        assert(escape_all(a + b) =~= escape_all(a) + escape_all(b));
    }
}

pub proof fn lemma_unescape_escape(s: Seq<char>)
    ensures
        unescape(escape_all(s)) == s,
    decreases s.len(),
{
    if s.len() == 0 {
    } else {
        let c = s[0];
        let rest = s.skip(1);
        lemma_unescape_escape(rest);
        assert(s =~= seq![c] + rest);
        lemma_escape_concat(seq![c], rest);
        assert(seq![c].drop_last() =~= Seq::<char>::empty());
        assert(seq![c].last() == c);
        assert(escape_all(Seq::<char>::empty()) =~= Seq::<char>::empty());
        assert(escape_all(seq![c]) == escape_all(seq![c].drop_last()) + escape_char(seq![c].last()));
        assert(escape_all(seq![c]) =~= escape_char(c));
        let r = escape_all(rest);
        let w = escape_char(c) + r;
        assert(escape_all(s) == w);
        if c == '\\' || c == '"' || c == '\n' || c == '\t' || c == '\r' {
            assert(w[0] == '\\');
            assert(w.skip(2) =~= r);
            assert(unescape(w) == escape_of(w[1]) + unescape(w.skip(2)));
            assert(escape_of(w[1]) =~= seq![c]);
        } else {
            assert(w[0] == c);
            assert(w.skip(1) =~= r);
        }
        assert(unescape(w) =~= s);
    }
}

/// A quoted string reads back as the string: the string-literal parser
/// undoes what the dumper's quoting does, for every string.
pub proof fn law_quoted_string_reads_back(s: Seq<char>, span: Span)
    ensures
        sp_string(quote(s), span) == Ok::<ValueModel, ErrModel>(ValueModel::Str(s)),
{
    let q = quote(s);
    assert(q.subrange(1, q.len() - 1) =~= escape_all(s));
    lemma_unescape_escape(s);
}

proof fn lemma_crop_small(x: int)
    requires
        i64::MIN <= x <= i64::MAX,
    ensures
        vstd::wrapping::i64_specs::signed_crop(x) == x as i64,
{
    let d: int = 0x1_0000_0000_0000_0000;
    if x >= 0 {
        vstd::arithmetic::div_mod::lemma_small_mod(x as nat, d as nat);
    } else {
        vstd::arithmetic::div_mod::lemma_fundamental_div_mod_converse_mod(x, d, -1, x + d);
    }
}

proof fn lemma_no_underscores(s: Seq<char>)
    requires
        forall|i: int| 0 <= i < s.len() ==> '0' <= #[trigger] s[i] <= '9',
    ensures
        drop_underscores(s) == s,
    decreases s.len(),
{
    if s.len() > 0 {
        lemma_no_underscores(s.drop_last());
        assert(s.drop_last().push(s.last()) =~= s);
    }
}

/// An integer as the dumper writes it reads back as the same integer, for
/// every `i64` but `i64::MIN` (whose digits alone do not fit in an `i64`).
pub proof fn law_integer_text_reads_back<H: Fn(HostQuery) -> HostReply>(h: H, n: i64)
    requires
        n != i64::MIN,
    ensures
        sp_number(h, int_text(n as int)) == Some(ValueModel::Integer(n)),
{
    let m: nat = if n < 0 {
        (-n) as nat
    } else {
        n as nat
    };
    let t = nat_text(m);
    crate::numeric::lemma_nat_text_reads_back(m);
    assert forall|i: int| 0 <= i < t.len() implies '0' <= #[trigger] t[i] <= '9' by {
        assert(digit_of(t[i]) < 10);
    }
    lemma_no_underscores(t);
    assert(!t.contains('.'));
    assert(!t.contains('e'));
    assert(!t.contains('E'));
    assert(!radix_prefix(t, 'x', 'X') && !radix_prefix(t, 'o', 'O') && !radix_prefix(t, 'b', 'B')) by {
        if t.len() >= 2 {
            assert('0' <= t[1] <= '9');
        }
    }
    let raw = int_text(n as int);
    if n < 0 {
        assert(raw.skip(1) =~= t);
        assert(raw[0] == '-');
        lemma_crop_small(-1 * (m as int));
    } else {
        assert(raw == t);
        lemma_crop_small(1 * (m as int));
    }
}


} // verus!
