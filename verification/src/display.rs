//! Short human-readable renderings used by editor features: values shown in
//! hovers and hints, annotations as written, and the fixed help texts.

use vstd::prelude::*;
use crate::annotation::Annotation;
use crate::dumper::{fmt_ann, format_annotation};
use crate::host::{float_display, host_display, host_ok, HostQuery, HostReply};
use crate::lexer::{replace_all, replace_chars};
use crate::numeric::{int_text, int_to_text};
use crate::text::{chars_of, push_all, push_lit, string_from, to_chars};
use crate::value::{Value, ValueModel};

verus! {

// ── Values ──────────────────────────────────────────────────────────────────

/// A string in double quotes, with `\` and `"` escaped by a backslash.
pub open spec fn shown_string(s: Seq<char>) -> Seq<char> {
    "\""@ + replace_all(replace_all(s, "\\"@, "\\\\"@), "\""@, "\\\""@) + "\""@
}

/// How a value is shown: lists cut after six items and dicts after four
/// entries, with `, …` marking the cut.
pub open spec fn disp_value<H: Fn(HostQuery) -> HostReply>(h: H, v: ValueModel) -> Seq<char>
    decreases v,
{
    match v {
        ValueModel::Str(s) => shown_string(s),
        ValueModel::Integer(n) => int_text(n as int),
        ValueModel::Float(f) => float_display(h, f),
        ValueModel::Bool(b) => if b {
            "true"@
        } else {
            "false"@
        },
        ValueModel::Null => "null"@,
        ValueModel::Array(xs) => "["@ + disp_items(h, xs) + (if xs.len() > 6 {
            ", …"@
        } else {
            Seq::empty()
        }) + "]"@,
        ValueModel::Dict(d) => "#{ "@ + disp_entries(h, d) + (if d.len() > 4 {
            ", …"@
        } else {
            Seq::empty()
        }) + " }#"@,
    }
}

/// The first six items shown and joined with `, `.
pub open spec fn disp_items<H: Fn(HostQuery) -> HostReply>(h: H, xs: Seq<ValueModel>) -> Seq<char>
    decreases xs,
{
    if xs.len() == 0 {
        Seq::empty()
    } else if xs.len() == 1 {
        disp_value(h, xs[0])
    } else if xs.len() > 6 {
        disp_items(h, xs.subrange(0, xs.len() - 1))
    } else {
        disp_items(h, xs.subrange(0, xs.len() - 1)) + ", "@ + disp_value(h, xs[xs.len() - 1])
    }
}

/// The first four entries shown as `key = value` and joined with `, `.
pub open spec fn disp_entries<H: Fn(HostQuery) -> HostReply>(h: H, d: Seq<(Seq<char>, ValueModel)>) -> Seq<char>
    decreases d,
{
    if d.len() == 0 {
        Seq::empty()
    } else if d.len() == 1 {
        proof {
            assert(decreases_to!(d => d[0]));
        }
        d[0].0 + " = "@ + disp_value(h, d[0].1)
    } else if d.len() > 4 {
        disp_entries(h, d.subrange(0, d.len() - 1))
    } else {
        proof {
            assert(decreases_to!(d => d[d.len() - 1]));
        }
        disp_entries(h, d.subrange(0, d.len() - 1)) + ", "@ + d[d.len() - 1].0 + " = "@ + disp_value(
            h,
            d[d.len() - 1].1,
        )
    }
}

proof fn lemma_items_cap<H: Fn(HostQuery) -> HostReply>(h: H, xs: Seq<ValueModel>)
    requires
        xs.len() > 6,
    ensures
        disp_items(h, xs) == disp_items(h, xs.take(6)),
    decreases xs.len(),
{
    let p = xs.subrange(0, xs.len() - 1);
    if xs.len() > 7 {
        lemma_items_cap(h, p);
        assert(p.take(6) =~= xs.take(6));
    } else {
        assert(p =~= xs.take(6));
    }
}

proof fn lemma_entries_cap<H: Fn(HostQuery) -> HostReply>(h: H, d: Seq<(Seq<char>, ValueModel)>)
    requires
        d.len() > 4,
    ensures
        disp_entries(h, d) == disp_entries(h, d.take(4)),
    decreases d.len(),
{
    let p = d.subrange(0, d.len() - 1);
    if d.len() > 5 {
        lemma_entries_cap(h, p);
        assert(p.take(4) =~= d.take(4));
    } else {
        assert(p =~= d.take(4));
    }
}

fn shown_chars(s: &[char]) -> (r: Vec<char>)
    ensures
        r@ == shown_string(s@),
{
    let bs = to_chars("\\");
    let bs2 = to_chars("\\\\");
    let q = to_chars("\"");
    let q2 = to_chars("\\\"");
    proof {
        reveal_strlit("\\");
        reveal_strlit("\"");
    }
    let a = replace_chars(s, bs.as_slice(), bs2.as_slice());
    let b = replace_chars(a.as_slice(), q.as_slice(), q2.as_slice());
    let mut out = to_chars("\"");
    push_all(&mut out, b.as_slice());
    push_lit(&mut out, "\"");
    out
}

pub(crate) fn display_chars<H: Fn(HostQuery) -> HostReply>(h: &H, v: &Value) -> (r: Vec<char>)
    requires
        host_ok(*h),
    ensures
        r@ == disp_value(*h, v.model()),
    decreases v,
{
    match v {
        Value::String(s) => shown_chars(chars_of(s).as_slice()),
        Value::Integer(n) => int_to_text(*n),
        Value::Float(f) => host_display(h, *f),
        Value::Bool(b) => if *b {
            to_chars("true")
        } else {
            to_chars("false")
        },
        Value::Null => to_chars("null"),
        Value::Array(xs) => {
            let ghost m = v.model()->Array_0;
            let n: usize = if xs.len() > 6 {
                6
            } else {
                xs.len()
            };
            let mut out = to_chars("[");
            let mut i: usize = 0;
            assert(m.take(0) =~= Seq::<ValueModel>::empty());
            while i < n
                invariant
                    *v == Value::Array(*xs),
                    m == v.model()->Array_0,
                    m.len() == xs@.len(),
                    n <= 6,
                    n <= xs@.len(),
                    i <= n,
                    host_ok(*h),
                    out@ == "["@ + disp_items(*h, m.take(i as int)),
                decreases n - i,
            {
                proof {
                    assert(decreases_to!(v => v->Array_0));
                    assert(decreases_to!(v->Array_0 => v->Array_0[i as int]));
                }
                let ghost t = m.take(i + 1);
                assert(m[i as int] == xs@[i as int].model());
                assert(t.subrange(0, t.len() - 1) =~= m.take(i as int));
                assert(t[t.len() - 1] == m[i as int]);
                if i > 0 {
                    push_lit(&mut out, ", ");
                }
                let item = display_chars(h, &xs[i]);
                push_all(&mut out, item.as_slice());
                if i == 0 {
                    assert(disp_items(*h, m.take(0)) =~= Seq::<char>::empty());
                }
                assert(out@ =~= "["@ + disp_items(*h, t));
                i = i + 1;
            }
            if xs.len() > 6 {
                proof {
                    lemma_items_cap(*h, m);
                }
                push_lit(&mut out, ", …");
            } else {
                assert(m.take(i as int) =~= m);
            }
            push_lit(&mut out, "]");
            out
        },
        Value::Dict(d) => {
            let ghost m = d.model();
            proof {
                d.lemma_model();
            }
            let n: usize = if d.entries.len() > 4 {
                4
            } else {
                d.entries.len()
            };
            let mut out = to_chars("#{ ");
            let mut i: usize = 0;
            assert(m.take(0) =~= Seq::<(Seq<char>, ValueModel)>::empty());
            while i < n
                invariant
                    *v == Value::Dict(*d),
                    m == d.model(),
                    m.len() == d.entries@.len(),
                    n <= 4,
                    n <= d.entries@.len(),
                    i <= n,
                    host_ok(*h),
                    out@ == "#{ "@ + disp_entries(*h, m.take(i as int)),
                decreases n - i,
            {
                proof {
                    assert(decreases_to!(v => v->Dict_0));
                    assert(decreases_to!(v->Dict_0 => v->Dict_0.entries));
                    assert(decreases_to!(v->Dict_0.entries => v->Dict_0.entries[i as int]));
                    assert(decreases_to!(v->Dict_0.entries[i as int] => v->Dict_0.entries[i as int].1));
                    d.lemma_model();
                }
                let ghost t = m.take(i + 1);
                assert(t.subrange(0, t.len() - 1) =~= m.take(i as int));
                assert(t[t.len() - 1] == m[i as int]);
                if i > 0 {
                    push_lit(&mut out, ", ");
                }
                push_all(&mut out, chars_of(&d.entries[i].0).as_slice());
                push_lit(&mut out, " = ");
                let item = display_chars(h, &d.entries[i].1);
                push_all(&mut out, item.as_slice());
                assert(out@ =~= "#{ "@ + disp_entries(*h, t));
                i = i + 1;
            }
            if d.entries.len() > 4 {
                proof {
                    lemma_entries_cap(*h, m);
                }
                push_lit(&mut out, ", …");
            } else {
                assert(m.take(i as int) =~= m);
            }
            push_lit(&mut out, " }#");
            out
        },
    }
}

/// How a value is shown in a hover or a hint.
pub fn format_value_display<H: Fn(HostQuery) -> HostReply>(v: &Value, h: &H) -> (r: String)
    requires
        host_ok(*h),
    ensures
        r@ == disp_value(*h, v.model()),
{
    let c = display_chars(h, v);
    string_from(c.as_slice())
}

/// At most `max` characters: a longer text keeps its first `max - 1` and
/// ends in `…`.
pub open spec fn elided(s: Seq<char>, max: nat) -> Seq<char> {
    if s.len() <= max {
        s
    } else {
        s.take(max - 1) + seq!['…']
    }
}

/// An elided text never exceeds its bound, and a text within the bound is
/// kept whole.
pub proof fn law_elided_fits(s: Seq<char>, max: nat)
    requires
        max > 0,
    ensures
        elided(s, max).len() <= max,
        s.len() <= max ==> elided(s, max) == s,
{
}

pub(crate) fn elide_chars(s: &[char], max: usize) -> (r: Vec<char>)
    requires
        max > 0 || s@.len() == 0,
    ensures
        r@ == elided(s@, max as nat),
{
    if s.len() <= max {
        crate::text::slice_of(s, 0, s.len())
    } else {
        let mut r = crate::text::slice_of(s, 0, max - 1);
        r.push('…');
        r
    }
}

/// `s` cut to at most `max` characters.
pub fn elide(s: &str, max: usize) -> (r: String)
    requires
        max > 0 || s@.len() == 0,
    ensures
        r@ == elided(s@, max as nat),
{
    let c = to_chars(s);
    let e = elide_chars(c.as_slice(), max);
    string_from(e.as_slice())
}

// ── Annotations ─────────────────────────────────────────────────────────────

/// An annotation as written in a hover's list.
pub fn format_annotation_for_hover<H: Fn(HostQuery) -> HostReply>(a: &Annotation, h: &H) -> (r: String)
    requires
        host_ok(*h),
    ensures
        r@ == fmt_ann(*h, a@),
{
    let c = format_annotation(a, h);
    string_from(c.as_slice())
}

} // verus!
