//! What the dumper writes, read back by the value parser.

use vstd::prelude::*;
use crate::dumper::{
    escape_all, escape_char, fmt_items, fmt_value, law_integer_text_reads_back,
    law_quoted_string_reads_back, lemma_escape_concat, quote,
};
use crate::error::ErrModel;
use crate::host::{HostQuery, HostReply};
use crate::numeric::{int_text, nat_text};
use crate::span::Span;
use crate::text::{trim, wblen};
use crate::value::ValueModel;
use crate::value_parser::{sp_parse, Ctx};

verus! {

/// Text without `"`: a written string of such text is one operand to the
/// value parser.
pub open spec fn plain_text(s: Seq<char>) -> bool {
    forall|i: int| 0 <= i < s.len() ==> s[i] != '"'
}

/// Non-empty ASCII text that no scanner of the value parser stops at: no
/// whitespace, quote, backslash, bracket, `#`, `?`, comma or operator,
/// except a leading `-`.
pub open spec fn bare_text(s: Seq<char>) -> bool {
    &&& s.len() > 0
    &&& forall|i: int|
        #![trigger s[i]]
        0 <= i < s.len() ==> {
            let c = s[i];
            &&& (c as u32) < 0x80
            &&& !crate::text::is_ws(c)
            &&& c != '"' && c != '\\' && c != '#' && c != '?' && c != ','
            &&& !crate::scan::is_open(c) && !crate::scan::is_close(c)
            &&& c != '+' && c != '*' && c != '/'
            &&& (c == '-' ==> i == 0)
        }
}

proof fn lemma_escape_plain(s: Seq<char>)
    requires
        plain_text(s),
    ensures
        forall|i: int|
            0 <= i < escape_all(s).len() ==> #[trigger] escape_all(s)[i] != '"' && escape_all(s)[i]
                != '\n',
    decreases s.len(),
{
    if s.len() > 0 {
        let d = s.drop_last();
        assert(plain_text(d)) by {
            assert forall|i: int| 0 <= i < d.len() implies d[i] != '"' by {
                assert(d[i] == s[i]);
            }
        }
        lemma_escape_plain(d);
        let e = escape_all(s);
        assert forall|i: int| 0 <= i < e.len() implies #[trigger] e[i] != '"' && e[i] != '\n' by {
            if i < escape_all(d).len() {
                assert(e[i] == escape_all(d)[i]);
            } else {
                assert(e[i] == escape_char(s.last())[i - escape_all(d).len()]);
            }
        }
    }
}

proof fn lemma_trim_quote(s: Seq<char>)
    ensures
        trim(quote(s)) == quote(s),
{
    let q = quote(s);
    assert(q[0] == '"');
    assert(q.last() == '"');
    assert(crate::text::ws_prefix_len(q) == 0);
    assert(q.skip(0) =~= q);
    assert(crate::text::ws_suffix_len(q) == 0);
    assert(q.take(q.len() as int) =~= q);
}

/// The `??` scan through a written string's body stays inside the string.
proof fn lemma_find_in_quote(s: Seq<char>, op: Seq<char>, j: int)
    requires
        plain_text(s),
        0 <= j <= s.len(),
    ensures
        crate::scan::find_op_from(quote(s), op, 1 + escape_all(s.take(j)).len() as int, 0, true, false)
            == crate::scan::find_op_from(quote(s), op, 1 + escape_all(s).len() as int, 0, true, false),
    decreases s.len() - j,
{
    if j < s.len() {
        let q = quote(s);
        let p: int = 1 + escape_all(s.take(j)).len() as int;
        let ec = escape_char(s[j]);
        assert(s.take(j + 1) =~= s.take(j) + seq![s[j]]);
        lemma_escape_concat(s.take(j), seq![s[j]]);
        assert(escape_all(seq![s[j]]) == ec) by {
            let one = seq![s[j]];
            assert(one.drop_last() =~= Seq::<char>::empty());
            assert(one.last() == s[j]);
            assert(escape_all(Seq::<char>::empty()) =~= Seq::<char>::empty());
            assert(escape_all(Seq::<char>::empty()) + ec =~= ec);
        }
        assert(s =~= s.take(j + 1) + s.skip(j + 1));
        lemma_escape_concat(s.take(j + 1), s.skip(j + 1));
        let e = escape_all(s);
        assert(e == escape_all(s.take(j)) + ec + escape_all(s.skip(j + 1)));
        assert(q =~= seq!['"'] + e + seq!['"']);
        assert(q[p] == ec[0]);
        assert(s[j] != '"');
        assert(escape_all(s.take(j + 1)).len() == escape_all(s.take(j)).len() + ec.len());
        if ec.len() == 2 {
            assert(q[p + 1] == ec[1]);
            assert(crate::scan::find_op_from(q, op, p, 0, true, false) == crate::scan::find_op_from(
                q,
                op,
                p + 1,
                0,
                true,
                true,
            ));
            assert(crate::scan::find_op_from(q, op, p + 1, 0, true, true) == crate::scan::find_op_from(
                q,
                op,
                p + 2,
                0,
                true,
                false,
            ));
        } else {
            assert(crate::scan::find_op_from(q, op, p, 0, true, false) == crate::scan::find_op_from(
                q,
                op,
                p + 1,
                0,
                true,
                false,
            ));
        }
        lemma_find_in_quote(s, op, j + 1);
    } else {
        assert(s.take(j) =~= s);
    }
}

/// An operand that starts with a non-blank character is not blank.
proof fn lemma_nonblank(b: Seq<char>)
    requires
        b.len() > 0,
        !crate::text::is_ws(b[0]),
    ensures
        trim(b).len() > 0,
{
    crate::text::lemma_trim_blank(b);
}

/// The arithmetic scan reads a written string as one operand.
proof fn lemma_arith_in_quote(s: Seq<char>, abs: usize, j: int, pv: bool)
    requires
        plain_text(s),
        0 <= j <= s.len(),
    ensures
        crate::scan::arith_from(
            quote(s),
            abs,
            1 + escape_all(s.take(j)).len() as int,
            0,
            true,
            pv,
            seq!['"'] + escape_all(s.take(j)),
            abs,
        ) == seq![(quote(s), abs)],
    decreases s.len() - j,
{
    let q = quote(s);
    let e = escape_all(s);
    assert(q =~= seq!['"'] + e + seq!['"']);
    lemma_escape_plain(s);
    if j < s.len() {
        let p: int = 1 + escape_all(s.take(j)).len() as int;
        let ec = escape_char(s[j]);
        assert(s.take(j + 1) =~= s.take(j) + seq![s[j]]);
        lemma_escape_concat(s.take(j), seq![s[j]]);
        assert(escape_all(seq![s[j]]) == ec) by {
            let one = seq![s[j]];
            assert(one.drop_last() =~= Seq::<char>::empty());
            assert(one.last() == s[j]);
            assert(escape_all(Seq::<char>::empty()) =~= Seq::<char>::empty());
            assert(escape_all(Seq::<char>::empty()) + ec =~= ec);
        }
        assert(s =~= s.take(j + 1) + s.skip(j + 1));
        lemma_escape_concat(s.take(j + 1), s.skip(j + 1));
        assert(e == escape_all(s.take(j)) + ec + escape_all(s.skip(j + 1)));
        let b = seq!['"'] + escape_all(s.take(j));
        assert(q[p] == ec[0]);
        assert(q[p] == e[p - 1]);
        assert(escape_all(s.take(j + 1)).len() == escape_all(s.take(j)).len() + ec.len());
        assert(s[j] != '"');
        let b1 = b.push(q[p]);
        lemma_nonblank(b);
        assert(crate::scan::arith_from(q, abs, p, 0, true, pv, b, abs) == crate::scan::arith_from(
            q,
            abs,
            p + 1,
            0,
            true,
            false,
            b1,
            abs,
        ));
        if ec.len() == 2 {
            assert(q[p + 1] == ec[1]);
            assert(q[p + 1] == e[p]);
            let b2 = b1.push(q[p + 1]);
            assert(b2 =~= seq!['"'] + escape_all(s.take(j + 1)));
            lemma_nonblank(b1);
            assert(crate::scan::arith_from(q, abs, p + 1, 0, true, false, b1, abs) == crate::scan::arith_from(
                q,
                abs,
                p + 2,
                0,
                true,
                false,
                b2,
                abs,
            ));
        } else {
            assert(b1 =~= seq!['"'] + escape_all(s.take(j + 1)));
        }
        lemma_arith_in_quote(s, abs, j + 1, false);
    } else {
        assert(s.take(j) =~= s);
        let b = seq!['"'] + e;
        assert(b.push('"') =~= q);
        lemma_trim_quote(s);
        let pe: int = 1 + e.len() as int;
        assert(q[pe] == '"');
        assert(pe + 1 == q.len());
        lemma_nonblank(b);
        assert(crate::scan::arith_from(q, abs, pe, 0, true, pv, b, abs) == crate::scan::arith_from(
            q,
            abs,
            pe + 1,
            0,
            false,
            pv,
            b.push('"'),
            abs,
        ));
        assert(trim(q).len() > 0);
    }
}

/// A bare operand is found to hold no `??`.
proof fn lemma_find_bare(s: Seq<char>, i: int)
    requires
        bare_text(s),
        0 <= i,
    ensures
        crate::scan::find_op_from(s, seq!['?', '?'], i, 0, false, false) is None,
    decreases s.len() - i,
{
    if i < s.len() {
        let c = s[i];
        assert(!crate::scan::matches_at(s, seq!['?', '?'], i)) by {
            if i + 2 <= s.len() {
                assert(s.subrange(i, i + 2)[0] == c);
            }
        }
        lemma_find_bare(s, i + 1);
    }
}

/// The arithmetic scan reads a bare operand as one token.
proof fn lemma_arith_bare(s: Seq<char>, abs: usize, i: int, pv: bool)
    requires
        bare_text(s),
        1 <= i <= s.len(),
    ensures
        crate::scan::arith_from(s, abs, i, 0, false, pv, s.take(i), abs) == seq![(s, abs)],
    decreases s.len() - i,
{
    if i < s.len() {
        let c = s[i];
        assert(s.take(i).push(c) =~= s.take(i + 1));
        lemma_nonblank(s.take(i));
        assert(!crate::scan::dict_open_at(s, i));
        assert(!crate::scan::dict_close_at(s, i));
        lemma_arith_bare(s, abs, i + 1, false);
    } else {
        assert(s.take(i) =~= s);
        assert(crate::text::ws_prefix_len(s) == 0);
        assert(s.skip(0) =~= s);
        assert(crate::text::ws_suffix_len(s) == 0);
        assert(s.take(s.len() as int) =~= s);
    }
}

proof fn lemma_arith_bare_start(s: Seq<char>, abs: usize)
    requires
        bare_text(s),
    ensures
        crate::scan::arith_tokens(s, abs) == seq![(s, abs)],
{
    let c = s[0];
    assert(s.take(0) =~= Seq::<char>::empty());
    assert(wblen(Seq::<char>::empty()) == 0);
    assert(crate::text::wadd(abs, 0) == abs);
    assert(Seq::<char>::empty().push(c) =~= s.take(1));
    assert(!crate::text::is_ws(c));
    assert(!crate::scan::dict_open_at(s, 0));
    assert(!crate::scan::dict_close_at(s, 0));
    assert(trim(Seq::<char>::empty()) =~= Seq::<char>::empty()) by {
        assert(crate::text::ws_prefix_len(Seq::<char>::empty()) == 0);
        assert(crate::text::ws_suffix_len(Seq::<char>::empty()) == 0);
    }
    lemma_arith_bare(s, abs, 1, false);
}

proof fn lemma_nat_text_digits(n: nat)
    ensures
        nat_text(n).len() > 0,
        forall|i: int| 0 <= i < nat_text(n).len() ==> '0' <= #[trigger] nat_text(n)[i] <= '9',
    decreases n,
{
    if n >= 10 {
        lemma_nat_text_digits(n / 10);
        let t = nat_text(n);
        let a = nat_text(n / 10);
        assert forall|i: int| 0 <= i < t.len() implies '0' <= #[trigger] t[i] <= '9' by {
            if i < a.len() {
                assert(t[i] == a[i]);
            }
        }
    }
}

proof fn lemma_int_text_bare(n: i64)
    ensures
        bare_text(int_text(n as int)),
        int_text(n as int)[0] != 't' && int_text(n as int)[0] != 'f' && int_text(n as int)[0] != 'n',
        int_text(n as int)[0] != '$' && int_text(n as int)[0] != '"' && int_text(n as int)[0] != '[',
{
    let m: nat = if n < 0 {
        (-n) as nat
    } else {
        n as nat
    };
    lemma_nat_text_digits(m);
    let t = int_text(n as int);
    let d = nat_text(m);
    if n < 0 {
        assert(t =~= seq!['-'] + d);
        assert forall|i: int| 0 <= i < t.len() implies #[trigger] t[i] == '-' && i == 0 || '0' <= t[i] <= '9' by {
            if i > 0 {
                assert(t[i] == d[i - 1]);
            }
        }
    } else {
        assert(t == d);
    }
}

/// What the value parser reads from text: its value, ignoring references.
pub open spec fn reads_as<E: Fn(&str) -> Option<String>, H: Fn(HostQuery) -> HostReply>(
    c: Ctx<E, H>,
    origin: Span,
    text: Seq<char>,
) -> Result<ValueModel, ErrModel> {
    sp_parse(c, origin, text).result
}

proof fn lemma_quoted_expr<E: Fn(&str) -> Option<String>, H: Fn(HostQuery) -> HostReply>(
    c: Ctx<E, H>,
    s: Seq<char>,
    a: usize,
)
    requires
        plain_text(s),
    ensures
        crate::value_parser::sp_expr(c, quote(s), a).result == Ok::<ValueModel, ErrModel>(ValueModel::Str(s)),
{
    let q = quote(s);
    let v = ValueModel::Str(s);
    lemma_trim_quote(s);
    assert(q[0] == '"');
    assert(escape_all(s.take(0)) =~= Seq::<char>::empty()) by {
        assert(s.take(0) =~= Seq::<char>::empty());
    }
    lemma_find_in_quote(s, seq!['?', '?'], 0);
    let pe: int = 1 + escape_all(s).len() as int;
    assert(q[pe] == '"');
    assert(pe + 1 == q.len());
    assert(crate::scan::find_op_from(q, seq!['?', '?'], 0, 0, false, false)
        == crate::scan::find_op_from(q, seq!['?', '?'], 1, 0, true, false));
    assert(crate::scan::find_op_from(q, seq!['?', '?'], pe, 0, true, false)
        == crate::scan::find_op_from(q, seq!['?', '?'], pe + 1, 0, false, false));
    assert(crate::scan::find_op(q, seq!['?', '?']) is None);
    lemma_arith_in_quote(s, a, 0, true);
    assert(seq!['"'] + Seq::<char>::empty() =~= Seq::<char>::empty().push('"'));
    assert(crate::scan::arith_tokens(q, a) == seq![(q, a)]);
    law_quoted_string_reads_back(s, crate::error::span_at(a, wblen(q)));
    let o = crate::value_parser::sp_atom(c, q, a);
    assert(o.result == Ok::<ValueModel, ErrModel>(v));
    assert(crate::value_parser::sp_fold(c, q, a, 1, v, o.refs).result == Ok::<ValueModel, ErrModel>(v));
    assert(crate::value_parser::sp_arith(c, q, a).result == Ok::<ValueModel, ErrModel>(v));
}

proof fn lemma_bare_expr<E: Fn(&str) -> Option<String>, H: Fn(HostQuery) -> HostReply>(
    c: Ctx<E, H>,
    t: Seq<char>,
    a: usize,
    v: ValueModel,
)
    requires
        bare_text(t),
        crate::value_parser::sp_atom(c, t, a).result == Ok::<ValueModel, ErrModel>(v),
    ensures
        crate::value_parser::sp_expr(c, t, a).result == Ok::<ValueModel, ErrModel>(v),
{
    lemma_find_bare(t, 0);
    lemma_arith_bare_start(t, a);
    let o = crate::value_parser::sp_atom(c, t, a);
    assert(crate::value_parser::sp_fold(c, t, a, 1, v, o.refs).result == Ok::<ValueModel, ErrModel>(v));
    assert(crate::value_parser::sp_arith(c, t, a).result == Ok::<ValueModel, ErrModel>(v));
}

proof fn lemma_trim_bare(t: Seq<char>)
    requires
        bare_text(t),
    ensures
        trim(t) == t,
{
    assert(crate::text::ws_prefix_len(t) == 0);
    assert(t.skip(0) =~= t);
    assert(crate::text::ws_suffix_len(t) == 0);
    assert(t.take(t.len() as int) =~= t);
}

proof fn lemma_int_atom<E: Fn(&str) -> Option<String>, H: Fn(HostQuery) -> HostReply>(
    c: Ctx<E, H>,
    n: i64,
    a: usize,
)
    requires
        n != i64::MIN,
    ensures
        bare_text(int_text(n as int)),
        crate::value_parser::sp_atom(c, int_text(n as int), a).result == Ok::<ValueModel, ErrModel>(
            ValueModel::Integer(n),
        ),
{
    let t = int_text(n as int);
    lemma_int_text_bare(n);
    lemma_trim_bare(t);
    law_integer_text_reads_back(c.host, n);
    assert(t != "true"@ && t != "false"@ && t != "null"@) by {
        reveal_strlit("true");
        reveal_strlit("false");
        reveal_strlit("null");
    }
}

proof fn lemma_word_atom<E: Fn(&str) -> Option<String>, H: Fn(HostQuery) -> HostReply>(
    c: Ctx<E, H>,
    v: ValueModel,
    a: usize,
)
    requires
        v is Null || v is Bool,
    ensures
        bare_text(fmt_value(c.host, v)),
        crate::value_parser::sp_atom(c, fmt_value(c.host, v), a).result == Ok::<ValueModel, ErrModel>(v),
{
    reveal_strlit("true");
    reveal_strlit("false");
    reveal_strlit("null");
    let t = fmt_value(c.host, v);
    assert(bare_text(t));
    lemma_trim_bare(t);
}

/// Scalars written by the dumper read back as themselves: `null`, booleans,
/// integers other than `i64::MIN` (whose magnitude does not fit), and
/// strings without `"` (the operand scanner does not treat `\"` as an
/// escape, so a quote inside splits the string).
pub proof fn law_scalar_reads_back<E: Fn(&str) -> Option<String>, H: Fn(HostQuery) -> HostReply>(
    c: Ctx<E, H>,
    origin: Span,
    v: ValueModel,
)
    requires
        v is Null || v is Bool || v is Integer || v is Str,
        v matches ValueModel::Integer(n) ==> n != i64::MIN,
        v matches ValueModel::Str(s) ==> plain_text(s),
    ensures
        reads_as(c, origin, fmt_value(c.host, v)) == Ok::<ValueModel, ErrModel>(v),
{
    let t = fmt_value(c.host, v);
    let a = crate::text::wadd(origin.start, crate::text::lead_bytes(t));
    match v {
        ValueModel::Str(s) => {
            lemma_trim_quote(s);
            lemma_quoted_expr(c, s, a);
        },
        ValueModel::Integer(n) => {
            lemma_int_atom(c, n, a);
            lemma_trim_bare(t);
            lemma_bare_expr(c, t, a, v);
        },
        _ => {
            lemma_word_atom(c, v, a);
            lemma_trim_bare(t);
            lemma_bare_expr(c, t, a, v);
        },
    }
}

// ── Lists ───────────────────────────────────────────────────────────────────

/// A scalar that reads back as itself once written.
pub open spec fn simple_scalar(v: ValueModel) -> bool {
    match v {
        ValueModel::Null => true,
        ValueModel::Bool(_) => true,
        ValueModel::Integer(n) => n != i64::MIN,
        ValueModel::Str(s) => plain_text(s),
        _ => false,
    }
}

/// No character that changes a scanner's state outside a string literal:
/// no quote, backslash, `#` or bracket.
pub open spec fn quiet(t: Seq<char>) -> bool {
    forall|i: int|
        #![trigger t[i]]
        0 <= i < t.len() ==> t[i] != '"' && t[i] != '\\' && t[i] != '#' && !crate::scan::is_open(t[i])
            && !crate::scan::is_close(t[i])
}

proof fn lemma_bare_quiet(t: Seq<char>)
    requires
        bare_text(t),
    ensures
        quiet(t),
{
}

pub(crate) proof fn lemma_written_shape<H: Fn(HostQuery) -> HostReply>(h: H, v: ValueModel)
    requires
        simple_scalar(v),
    ensures
        v is Str ==> fmt_value(h, v) == quote(v->Str_0),
        !(v is Str) ==> bare_text(fmt_value(h, v)),
        fmt_value(h, v).len() > 0,
        !crate::text::is_ws(fmt_value(h, v)[0]),
        !crate::text::is_ws(fmt_value(h, v).last()),
{
    match v {
        ValueModel::Str(s) => {
            lemma_escape_plain(s);
            let q = quote(s);
            assert(q =~= seq!['"'] + escape_all(s) + seq!['"']);
        },
        ValueModel::Integer(n) => {
            lemma_int_text_bare(n);
        },
        _ => {
            reveal_strlit("true");
            reveal_strlit("false");
            reveal_strlit("null");
        },
    }
}

proof fn lemma_scalar_expr<E: Fn(&str) -> Option<String>, H: Fn(HostQuery) -> HostReply>(
    c: Ctx<E, H>,
    v: ValueModel,
    a: usize,
)
    requires
        simple_scalar(v),
    ensures
        crate::value_parser::sp_expr(c, fmt_value(c.host, v), a).result == Ok::<ValueModel, ErrModel>(v),
{
    match v {
        ValueModel::Str(s) => {
            lemma_quoted_expr(c, s, a);
        },
        ValueModel::Integer(n) => {
            lemma_int_atom(c, n, a);
            lemma_bare_expr(c, fmt_value(c.host, v), a, v);
        },
        _ => {
            lemma_word_atom(c, v, a);
            lemma_bare_expr(c, fmt_value(c.host, v), a, v);
        },
    }
}

// Positions of the items in a written list.

pub open spec fn chunk<H: Fn(HostQuery) -> HostReply>(h: H, xs: Seq<ValueModel>, k: int) -> Seq<char> {
    (if k == 0 {
        Seq::empty()
    } else {
        ", "@
    }) + fmt_value(h, xs[k])
}

pub open spec fn ipos<H: Fn(HostQuery) -> HostReply>(h: H, xs: Seq<ValueModel>, k: int) -> int {
    fmt_items(h, xs.take(k)).len() as int
}

proof fn lemma_items_step<H: Fn(HostQuery) -> HostReply>(h: H, xs: Seq<ValueModel>, k: int)
    requires
        0 <= k < xs.len(),
    ensures
        fmt_items(h, xs.take(k + 1)) == fmt_items(h, xs.take(k)) + chunk(h, xs, k),
{
    let t = xs.take(k + 1);
    assert(t.subrange(0, t.len() - 1) =~= xs.take(k));
    assert(t[t.len() - 1] == xs[k]);
    if k == 0 {
        assert(xs.take(0) =~= Seq::<ValueModel>::empty());
        assert(t[0] == xs[0]);
        assert(fmt_items(h, xs.take(0)) =~= Seq::<char>::empty());
        assert(Seq::<char>::empty() + (Seq::<char>::empty() + fmt_value(h, xs[0])) =~= fmt_value(h, xs[0]));
    } else {
        assert(fmt_items(h, xs.take(k)) + ", "@ + fmt_value(h, xs[k]) =~= fmt_items(h, xs.take(k)) + chunk(
            h,
            xs,
            k,
        ));
    }
}

proof fn lemma_items_prefix<H: Fn(HostQuery) -> HostReply>(h: H, xs: Seq<ValueModel>, k: int, m: int)
    requires
        0 <= k <= m <= xs.len(),
    ensures
        ipos(h, xs, k) <= ipos(h, xs, m),
        fmt_items(h, xs.take(m)).take(ipos(h, xs, k)) == fmt_items(h, xs.take(k)),
    decreases m - k,
{
    if k < m {
        lemma_items_prefix(h, xs, k, m - 1);
        lemma_items_step(h, xs, m - 1);
        let a = fmt_items(h, xs.take(m - 1));
        let l = ipos(h, xs, k);
        assert((a + chunk(h, xs, m - 1)).take(l) =~= a.take(l));
    } else {
        assert(fmt_items(h, xs.take(m)).take(ipos(h, xs, m)) =~= fmt_items(h, xs.take(m)));
    }
}

proof fn lemma_chunk_at<H: Fn(HostQuery) -> HostReply>(h: H, xs: Seq<ValueModel>, k: int)
    requires
        0 <= k < xs.len(),
    ensures
        ipos(h, xs, k + 1) == ipos(h, xs, k) + chunk(h, xs, k).len(),
        ipos(h, xs, k + 1) <= fmt_items(h, xs).len(),
        fmt_items(h, xs).subrange(ipos(h, xs, k), ipos(h, xs, k + 1)) == chunk(h, xs, k),
{
    lemma_items_step(h, xs, k);
    lemma_items_prefix(h, xs, k + 1, xs.len() as int);
    assert(xs.take(xs.len() as int) =~= xs);
    let j = fmt_items(h, xs);
    let p = fmt_items(h, xs.take(k + 1));
    assert(j.take(ipos(h, xs, k + 1)) == p);
    assert(j.subrange(ipos(h, xs, k), ipos(h, xs, k + 1)) =~= p.subrange(ipos(h, xs, k), p.len() as int));
    assert(p.subrange(ipos(h, xs, k), p.len() as int) =~= chunk(h, xs, k));
}

proof fn lemma_sep_chars()
    ensures
        ", "@.len() == 2,
        ", "@[0] == ',',
        ", "@[1] == ' ',
{
    reveal_strlit(", ");
}

proof fn lemma_chunk_shape<H: Fn(HostQuery) -> HostReply>(h: H, xs: Seq<ValueModel>, k: int)
    requires
        0 <= k < xs.len(),
        simple_scalar(xs[k]),
    ensures
        k > 0 ==> chunk(h, xs, k) == ", "@ + fmt_value(h, xs[k]),
        k == 0 ==> chunk(h, xs, k) == fmt_value(h, xs[k]),
{
    lemma_written_shape(h, xs[k]);
    lemma_sep_chars();
    let w = fmt_value(h, xs[k]);
    if k == 0 {
        assert(chunk(h, xs, k) =~= w);
    }
}

// The `??` scan over a list.

proof fn lemma_find_quiet_at(s: Seq<char>, op: Seq<char>, t: Seq<char>, o: int, k: int, d: i32)
    requires
        quiet(t),
        0 <= o,
        o + t.len() <= s.len(),
        s.subrange(o, o + t.len()) == t,
        0 <= k <= t.len(),
        d != 0,
    ensures
        crate::scan::find_op_from(s, op, o + k, d, false, false) == crate::scan::find_op_from(
            s,
            op,
            o + t.len(),
            d,
            false,
            false,
        ),
    decreases t.len() - k,
{
    if k < t.len() {
        assert(s[o + k] == t[k]);
        lemma_find_quiet_at(s, op, t, o, k + 1, d);
    }
}

proof fn lemma_find_quote_at(s: Seq<char>, op: Seq<char>, w: Seq<char>, o: int, j: int, d: i32)
    requires
        plain_text(w),
        0 <= o,
        o + quote(w).len() <= s.len(),
        s.subrange(o, o + quote(w).len()) == quote(w),
        0 <= j <= w.len(),
    ensures
        crate::scan::find_op_from(s, op, o + 1 + escape_all(w.take(j)).len(), d, true, false)
            == crate::scan::find_op_from(s, op, o + 1 + escape_all(w).len(), d, true, false),
    decreases w.len() - j,
{
    let q = quote(w);
    assert(q =~= seq!['"'] + escape_all(w) + seq!['"']);
    if j < w.len() {
        let p: int = 1 + escape_all(w.take(j)).len() as int;
        let ec = escape_char(w[j]);
        lemma_escape_take_step(w, j);
        assert(s[o + p] == q[p]);
        assert(q[p] == ec[0]);
        if ec.len() == 2 {
            assert(s[o + p + 1] == q[p + 1]);
            assert(q[p + 1] == ec[1]);
            assert(crate::scan::find_op_from(s, op, o + p, d, true, false) == crate::scan::find_op_from(
                s,
                op,
                o + p + 1,
                d,
                true,
                true,
            ));
        }
        lemma_find_quote_at(s, op, w, o, j + 1, d);
    } else {
        assert(w.take(j) =~= w);
    }
}

/// `escape_all` grows by one character's escape at a time, and the text
/// after the first `j` escapes is the rest.
proof fn lemma_escape_take_step(w: Seq<char>, j: int)
    requires
        0 <= j < w.len(),
    ensures
        escape_all(w.take(j + 1)) == escape_all(w.take(j)) + escape_char(w[j]),
        escape_all(w) == escape_all(w.take(j)) + escape_char(w[j]) + escape_all(w.skip(j + 1)),
{
    let ec = escape_char(w[j]);
    assert(w.take(j + 1) =~= w.take(j) + seq![w[j]]);
    lemma_escape_concat(w.take(j), seq![w[j]]);
    assert(escape_all(seq![w[j]]) == ec) by {
        let one = seq![w[j]];
        assert(one.drop_last() =~= Seq::<char>::empty());
        assert(one.last() == w[j]);
        assert(escape_all(Seq::<char>::empty()) =~= Seq::<char>::empty());
        assert(escape_all(Seq::<char>::empty()) + ec =~= ec);
    }
    assert(w =~= w.take(j + 1) + w.skip(j + 1));
    lemma_escape_concat(w.take(j + 1), w.skip(j + 1));
}

proof fn lemma_find_value_at<H: Fn(HostQuery) -> HostReply>(
    s: Seq<char>,
    op: Seq<char>,
    h: H,
    v: ValueModel,
    o: int,
    d: i32,
)
    requires
        simple_scalar(v),
        0 <= o,
        o + fmt_value(h, v).len() <= s.len(),
        s.subrange(o, o + fmt_value(h, v).len()) == fmt_value(h, v),
        d != 0,
    ensures
        crate::scan::find_op_from(s, op, o, d, false, false) == crate::scan::find_op_from(
            s,
            op,
            o + fmt_value(h, v).len(),
            d,
            false,
            false,
        ),
{
    lemma_written_shape(h, v);
    let w = fmt_value(h, v);
    match v {
        ValueModel::Str(t) => {
            let q = quote(t);
            assert(q =~= seq!['"'] + escape_all(t) + seq!['"']);
            assert(s[o] == '"');
            assert(escape_all(t.take(0)) =~= Seq::<char>::empty()) by {
                assert(t.take(0) =~= Seq::<char>::empty());
            }
            lemma_find_quote_at(s, op, t, o, 0, d);
            let pe: int = o + 1 + escape_all(t).len() as int;
            assert(s[pe] == q[pe - o]);
        },
        _ => {
            lemma_bare_quiet(w);
            lemma_find_quiet_at(s, op, w, o, 0, d);
        },
    }
}

proof fn lemma_find_items<H: Fn(HostQuery) -> HostReply>(h: H, xs: Seq<ValueModel>, k: int)
    requires
        forall|i: int| 0 <= i < xs.len() ==> simple_scalar(#[trigger] xs[i]),
        0 <= k <= xs.len(),
    ensures
        crate::scan::find_op_from(
            seq!['['] + fmt_items(h, xs) + seq![']'],
            seq!['?', '?'],
            1 + ipos(h, xs, k),
            1,
            false,
            false,
        ) == crate::scan::find_op_from(
            seq!['['] + fmt_items(h, xs) + seq![']'],
            seq!['?', '?'],
            1 + fmt_items(h, xs).len() as int,
            1,
            false,
            false,
        ),
    decreases xs.len() - k,
{
    let j = fmt_items(h, xs);
    let r = seq!['['] + j + seq![']'];
    let op = seq!['?', '?'];
    if k < xs.len() {
        lemma_chunk_at(h, xs, k);
        lemma_chunk_shape(h, xs, k);
        let a = 1 + ipos(h, xs, k);
        let ch = chunk(h, xs, k);
        assert(r.subrange(a, a + ch.len()) =~= j.subrange(ipos(h, xs, k), ipos(h, xs, k + 1)));
        let w = fmt_value(h, xs[k]);
        if k > 0 {
            lemma_sep_chars();
            let sep = ", "@;
            assert(r.subrange(a, a + 2) =~= sep);
            assert(quiet(sep));
            lemma_find_quiet_at(r, op, sep, a, 0, 1);
            let ch = chunk(h, xs, k);
            assert(ch == sep + w);
            assert(r.subrange(a, a + ch.len()) == ch);
            assert forall|i: int| 0 <= i < w.len() implies #[trigger] r.subrange(a + 2, a + 2 + w.len())[i]
                == w[i] by {
                assert(r.subrange(a, a + ch.len())[2 + i] == r[a + 2 + i]);
                assert(ch[2 + i] == w[i]);
            }
            assert(r.subrange(a + 2, a + 2 + w.len()) =~= w);
            lemma_find_value_at(r, op, h, xs[k], a + 2, 1);
        } else {
            assert(r.subrange(a, a + w.len()) =~= w);
            lemma_find_value_at(r, op, h, xs[k], a, 1);
        }
        lemma_find_items(h, xs, k + 1);
    } else {
        assert(xs.take(k) =~= xs);
    }
}

// The operand scan over a list.

proof fn lemma_arith_quiet_at(
    s: Seq<char>,
    abs: usize,
    t: Seq<char>,
    o: int,
    k: int,
    d: i32,
    pv: bool,
    buf: Seq<char>,
    bs: usize,
)
    requires
        quiet(t),
        0 <= o,
        o + t.len() <= s.len(),
        s.subrange(o, o + t.len()) == t,
        0 <= k <= t.len(),
        d != 0,
        buf.len() > 0,
        !crate::text::is_ws(buf[0]),
    ensures
        crate::scan::arith_from(s, abs, o + k, d, false, pv, buf + t.take(k), bs) == crate::scan::arith_from(
            s,
            abs,
            o + t.len(),
            d,
            false,
            if k == t.len() {
                pv
            } else {
                false
            },
            buf + t,
            bs,
        ),
    decreases t.len() - k,
{
    if k < t.len() {
        let c = t[k];
        assert(s[o + k] == c);
        assert((buf + t.take(k)).push(c) =~= buf + t.take(k + 1));
        assert((buf + t.take(k))[0] == buf[0]);
        lemma_nonblank(buf + t.take(k));
        lemma_arith_quiet_at(s, abs, t, o, k + 1, d, false, buf, bs);
    } else {
        assert(t.take(k) =~= t);
    }
}

proof fn lemma_arith_quote_at(
    s: Seq<char>,
    abs: usize,
    w: Seq<char>,
    o: int,
    j: int,
    d: i32,
    pv: bool,
    buf: Seq<char>,
    bs: usize,
)
    requires
        plain_text(w),
        0 <= o,
        o + quote(w).len() <= s.len(),
        s.subrange(o, o + quote(w).len()) == quote(w),
        0 <= j <= w.len(),
        buf.len() > 0,
        !crate::text::is_ws(buf[0]),
    ensures
        crate::scan::arith_from(s, abs, o + 1 + escape_all(w.take(j)).len(), d, true, pv, buf + escape_all(w.take(j)), bs)
            == crate::scan::arith_from(
            s,
            abs,
            o + 1 + escape_all(w).len(),
            d,
            true,
            if j == w.len() {
                pv
            } else {
                false
            },
            buf + escape_all(w),
            bs,
        ),
    decreases w.len() - j,
{
    let q = quote(w);
    let e = escape_all(w);
    assert(q =~= seq!['"'] + e + seq!['"']);
    lemma_escape_plain(w);
    if j < w.len() {
        let p: int = 1 + escape_all(w.take(j)).len() as int;
        let ec = escape_char(w[j]);
        lemma_escape_take_step(w, j);
        let b = buf + escape_all(w.take(j));
        assert(s[o + p] == q[p]);
        assert(q[p] == ec[0]);
        assert(q[p] == e[p - 1]);
        let b1 = b.push(q[p]);
        assert(b[0] == buf[0]);
        lemma_nonblank(b);
        assert(crate::scan::arith_from(s, abs, o + p, d, true, pv, b, bs) == crate::scan::arith_from(
            s,
            abs,
            o + p + 1,
            d,
            true,
            false,
            b1,
            bs,
        ));
        if ec.len() == 2 {
            assert(s[o + p + 1] == q[p + 1]);
            assert(q[p + 1] == ec[1]);
            assert(q[p + 1] == e[p]);
            let b2 = b1.push(q[p + 1]);
            assert(b2 =~= buf + escape_all(w.take(j + 1)));
            assert(b1[0] == buf[0]);
            lemma_nonblank(b1);
            assert(crate::scan::arith_from(s, abs, o + p + 1, d, true, false, b1, bs)
                == crate::scan::arith_from(s, abs, o + p + 2, d, true, false, b2, bs));
        } else {
            assert(b1 =~= buf + escape_all(w.take(j + 1)));
        }
        lemma_arith_quote_at(s, abs, w, o, j + 1, d, false, buf, bs);
    } else {
        assert(w.take(j) =~= w);
    }
}

/// The sign flag of the operand scan after a written scalar: unchanged
/// only past an empty string.
pub open spec fn pv_after(v: ValueModel, pv: bool) -> bool {
    if v matches ValueModel::Str(t) && t.len() == 0 {
        pv
    } else {
        false
    }
}

proof fn lemma_arith_value_at<H: Fn(HostQuery) -> HostReply>(
    s: Seq<char>,
    abs: usize,
    h: H,
    v: ValueModel,
    o: int,
    d: i32,
    pv: bool,
    buf: Seq<char>,
    bs: usize,
)
    requires
        simple_scalar(v),
        0 <= o,
        o + fmt_value(h, v).len() <= s.len(),
        s.subrange(o, o + fmt_value(h, v).len()) == fmt_value(h, v),
        d != 0,
        buf.len() > 0,
        !crate::text::is_ws(buf[0]),
    ensures
        crate::scan::arith_from(s, abs, o, d, false, pv, buf, bs) == crate::scan::arith_from(
            s,
            abs,
            o + fmt_value(h, v).len(),
            d,
            false,
            pv_after(v, pv),
            buf + fmt_value(h, v),
            bs,
        ),
{
    lemma_written_shape(h, v);
    lemma_nonblank(buf);
    let w = fmt_value(h, v);
    match v {
        ValueModel::Str(t) => {
            let q = quote(t);
            let e = escape_all(t);
            assert(q =~= seq!['"'] + e + seq!['"']);
            assert(s[o] == '"');
            assert(escape_all(t.take(0)) =~= Seq::<char>::empty()) by {
                assert(t.take(0) =~= Seq::<char>::empty());
            }
            let b0 = buf.push('"');
            assert(b0 + escape_all(t.take(0)) =~= b0);
            assert(b0[0] == buf[0]);
            lemma_arith_quote_at(s, abs, t, o, 0, d, pv, b0, bs);
            let pe: int = o + 1 + e.len() as int;
            assert(s[pe] == q[pe - o]);
            assert((b0 + e).push('"') =~= buf + q);
            assert((b0 + e)[0] == buf[0]);
            lemma_nonblank(b0 + e);
            let pv1 = if t.len() == 0 {
                pv
            } else {
                false
            };
            assert(crate::scan::arith_from(s, abs, pe, d, true, pv1, b0 + e, bs) == crate::scan::arith_from(
                s,
                abs,
                pe + 1,
                d,
                false,
                pv1,
                (b0 + e).push('"'),
                bs,
            ));
        },
        _ => {
            lemma_bare_quiet(w);
            assert(buf + w.take(0) =~= buf);
            lemma_arith_quiet_at(s, abs, w, o, 0, d, pv, buf, bs);
        },
    }
}

proof fn lemma_arith_items<H: Fn(HostQuery) -> HostReply>(
    h: H,
    xs: Seq<ValueModel>,
    k: int,
    abs: usize,
    pv: bool,
)
    requires
        forall|i: int| 0 <= i < xs.len() ==> simple_scalar(#[trigger] xs[i]),
        0 <= k <= xs.len(),
    ensures
        crate::scan::arith_from(
            seq!['['] + fmt_items(h, xs) + seq![']'],
            abs,
            1 + ipos(h, xs, k),
            1,
            false,
            pv,
            seq!['['] + fmt_items(h, xs.take(k)),
            abs,
        ) == seq![(seq!['['] + fmt_items(h, xs) + seq![']'], abs)],
    decreases xs.len() - k,
{
    let j = fmt_items(h, xs);
    let r = seq!['['] + j + seq![']'];
    if k < xs.len() {
        lemma_chunk_at(h, xs, k);
        lemma_chunk_shape(h, xs, k);
        lemma_items_step(h, xs, k);
        let a = 1 + ipos(h, xs, k);
        let w = fmt_value(h, xs[k]);
        let buf = seq!['['] + fmt_items(h, xs.take(k));
        assert(buf[0] == '[');
        assert((buf + ", "@)[0] == '[');
        assert(r.subrange(a, a + chunk(h, xs, k).len()) =~= j.subrange(ipos(h, xs, k), ipos(h, xs, k + 1)));
        if k > 0 {
            lemma_sep_chars();
            let sep = ", "@;
            assert(r.subrange(a, a + 2) =~= sep);
            assert(quiet(sep));
            assert(buf + sep.take(0) =~= buf);
            lemma_arith_quiet_at(r, abs, sep, a, 0, 1, pv, buf, abs);
            let ch = chunk(h, xs, k);
            assert(ch == sep + w);
            assert(r.subrange(a, a + ch.len()) == ch);
            assert forall|i: int| 0 <= i < w.len() implies #[trigger] r.subrange(a + 2, a + 2 + w.len())[i]
                == w[i] by {
                assert(r.subrange(a, a + ch.len())[2 + i] == r[a + 2 + i]);
                assert(ch[2 + i] == w[i]);
            }
            assert(r.subrange(a + 2, a + 2 + w.len()) =~= w);
            lemma_arith_value_at(r, abs, h, xs[k], a + 2, 1, false, buf + sep, abs);
            let pv2 = pv_after(xs[k], false);
            assert(buf + sep + w =~= seq!['['] + fmt_items(h, xs.take(k + 1)));
            lemma_arith_items(h, xs, k + 1, abs, pv2);
        } else {
            assert(r.subrange(a, a + w.len()) =~= w);
            lemma_arith_value_at(r, abs, h, xs[k], a, 1, pv, buf, abs);
            let pv2 = pv_after(xs[k], pv);
            assert(buf + w =~= seq!['['] + fmt_items(h, xs.take(k + 1)));
            lemma_arith_items(h, xs, k + 1, abs, pv2);
        }
    } else {
        assert(xs.take(k) =~= xs);
        let n = r.len() as int;
        assert(r[n - 1] == ']');
        assert((seq!['['] + j).push(']') =~= r);
        assert((seq!['['] + j)[0] == '[');
        lemma_nonblank(seq!['['] + j);
        assert(crate::scan::arith_from(r, abs, n - 1, 1, false, pv, seq!['['] + j, abs)
            == crate::scan::arith_from(r, abs, n, 0, false, pv, (seq!['['] + j).push(']'), abs));
        assert(crate::text::ws_prefix_len(r) == 0);
        assert(r.skip(0) =~= r);
        assert(crate::text::ws_suffix_len(r) == 0);
        assert(r.take(r.len() as int) =~= r);
    }
}

// Splitting a list's inside at its commas.

proof fn lemma_split_quiet_at(
    s: Seq<char>,
    abs: usize,
    t: Seq<char>,
    o: int,
    k: int,
    start: int,
    off: usize,
)
    requires
        quiet(t),
        forall|i: int| 0 <= i < t.len() ==> #[trigger] t[i] != ',',
        0 <= o,
        o + t.len() <= s.len(),
        s.subrange(o, o + t.len()) == t,
        0 <= k <= t.len(),
    ensures
        crate::scan::split_from(s, ',', abs, o + k, 0, false, false, start, off) == crate::scan::split_from(
            s,
            ',',
            abs,
            o + t.len(),
            0,
            false,
            false,
            start,
            off,
        ),
    decreases t.len() - k,
{
    if k < t.len() {
        assert(s[o + k] == t[k]);
        lemma_split_quiet_at(s, abs, t, o, k + 1, start, off);
    }
}

proof fn lemma_split_quote_at(
    s: Seq<char>,
    abs: usize,
    w: Seq<char>,
    o: int,
    j: int,
    start: int,
    off: usize,
)
    requires
        plain_text(w),
        0 <= o,
        o + quote(w).len() <= s.len(),
        s.subrange(o, o + quote(w).len()) == quote(w),
        0 <= j <= w.len(),
    ensures
        crate::scan::split_from(s, ',', abs, o + 1 + escape_all(w.take(j)).len(), 0, true, false, start, off)
            == crate::scan::split_from(s, ',', abs, o + 1 + escape_all(w).len(), 0, true, false, start, off),
    decreases w.len() - j,
{
    let q = quote(w);
    assert(q =~= seq!['"'] + escape_all(w) + seq!['"']);
    if j < w.len() {
        let p: int = 1 + escape_all(w.take(j)).len() as int;
        let ec = escape_char(w[j]);
        lemma_escape_take_step(w, j);
        assert(s[o + p] == q[p]);
        assert(q[p] == ec[0]);
        if ec.len() == 2 {
            assert(s[o + p + 1] == q[p + 1]);
            assert(q[p + 1] == ec[1]);
            assert(crate::scan::split_from(s, ',', abs, o + p, 0, true, false, start, off)
                == crate::scan::split_from(s, ',', abs, o + p + 1, 0, true, true, start, off));
        }
        lemma_split_quote_at(s, abs, w, o, j + 1, start, off);
    } else {
        assert(w.take(j) =~= w);
    }
}

proof fn lemma_split_value_at<H: Fn(HostQuery) -> HostReply>(
    s: Seq<char>,
    abs: usize,
    h: H,
    v: ValueModel,
    o: int,
    start: int,
    off: usize,
)
    requires
        simple_scalar(v),
        0 <= o,
        o + fmt_value(h, v).len() <= s.len(),
        s.subrange(o, o + fmt_value(h, v).len()) == fmt_value(h, v),
    ensures
        crate::scan::split_from(s, ',', abs, o, 0, false, false, start, off) == crate::scan::split_from(
            s,
            ',',
            abs,
            o + fmt_value(h, v).len(),
            0,
            false,
            false,
            start,
            off,
        ),
{
    lemma_written_shape(h, v);
    let w = fmt_value(h, v);
    match v {
        ValueModel::Str(t) => {
            let q = quote(t);
            assert(q =~= seq!['"'] + escape_all(t) + seq!['"']);
            assert(s[o] == '"');
            assert(escape_all(t.take(0)) =~= Seq::<char>::empty()) by {
                assert(t.take(0) =~= Seq::<char>::empty());
            }
            lemma_split_quote_at(s, abs, t, o, 0, start, off);
            let pe: int = o + 1 + escape_all(t).len() as int;
            assert(s[pe] == q[pe - o]);
        },
        _ => {
            lemma_bare_quiet(w);
            lemma_split_quiet_at(s, abs, w, o, 0, start, off);
        },
    }
}

/// Where the `m`-th piece of a list's inside starts: after the comma that
/// ends the piece before.
pub open spec fn piece_start<H: Fn(HostQuery) -> HostReply>(h: H, xs: Seq<ValueModel>, m: int) -> int {
    if m == 0 {
        0
    } else {
        ipos(h, xs, m) + 1
    }
}

pub open spec fn piece_text<H: Fn(HostQuery) -> HostReply>(h: H, xs: Seq<ValueModel>, m: int) -> Seq<char> {
    fmt_items(h, xs).subrange(piece_start(h, xs, m), ipos(h, xs, m + 1))
}

proof fn lemma_piece_text<H: Fn(HostQuery) -> HostReply>(h: H, xs: Seq<ValueModel>, m: int)
    requires
        0 <= m < xs.len(),
        simple_scalar(xs[m]),
    ensures
        piece_text(h, xs, m) == if m == 0 {
            fmt_value(h, xs[m])
        } else {
            seq![' '] + fmt_value(h, xs[m])
        },
        piece_start(h, xs, m) < ipos(h, xs, m + 1),
{
    lemma_chunk_at(h, xs, m);
    lemma_chunk_shape(h, xs, m);
    lemma_written_shape(h, xs[m]);
    lemma_sep_chars();
    let j = fmt_items(h, xs);
    let ch = chunk(h, xs, m);
    let w = fmt_value(h, xs[m]);
    let pt = piece_text(h, xs, m);
    if m == 0 {
        assert(pt == ch);
    } else {
        assert(ch =~= seq![','] + seq![' '] + w);
        assert(pt =~= ch.subrange(1, ch.len() as int));
        assert(pt =~= seq![' '] + w);
    }
}

proof fn lemma_split_items<H: Fn(HostQuery) -> HostReply>(
    h: H,
    xs: Seq<ValueModel>,
    istart: usize,
    k: int,
    off: usize,
)
    requires
        forall|i: int| 0 <= i < xs.len() ==> simple_scalar(#[trigger] xs[i]),
        1 <= k <= xs.len(),
    ensures
        ({
            let r = crate::scan::split_from(
                fmt_items(h, xs),
                ',',
                istart,
                ipos(h, xs, k),
                0,
                false,
                false,
                piece_start(h, xs, k - 1),
                off,
            );
            &&& r.len() == xs.len() - k + 1
            &&& forall|q: int| 0 <= q < r.len() ==> (#[trigger] r[q]).0 == piece_text(h, xs, k - 1 + q)
        }),
    decreases xs.len() - k,
{
    let j = fmt_items(h, xs);
    let st = piece_start(h, xs, k - 1);
    lemma_piece_text(h, xs, k - 1);
    lemma_items_prefix(h, xs, k, xs.len() as int);
    assert(xs.take(xs.len() as int) =~= xs);
    if k == xs.len() {
        let r = crate::scan::split_from(j, ',', istart, ipos(h, xs, k), 0, false, false, st, off);
        assert(ipos(h, xs, k) == j.len());
        assert(r == seq![(j.subrange(st, j.len() as int), off)]);
    } else {
        lemma_chunk_at(h, xs, k);
        lemma_chunk_shape(h, xs, k);
        lemma_sep_chars();
        let a = ipos(h, xs, k);
        let w = fmt_value(h, xs[k]);
        let ch = chunk(h, xs, k);
        assert(ch == ", "@ + w);
        assert(j.subrange(a, a + ch.len()) == ch);
        assert(j[a] == ',') by {
            assert(j.subrange(a, a + ch.len())[0] == j[a]);
        }
        assert(j[a + 1] == ' ') by {
            assert(j.subrange(a, a + ch.len())[1] == j[a + 1]);
        }
        assert forall|i: int| 0 <= i < w.len() implies #[trigger] j.subrange(a + 2, a + 2 + w.len())[i]
            == w[i] by {
            assert(j.subrange(a, a + ch.len())[2 + i] == j[a + 2 + i]);
            assert(ch[2 + i] == w[i]);
        }
        assert(j.subrange(a + 2, a + 2 + w.len()) =~= w);
        let off2 = crate::text::wadd(crate::text::wadd(istart, wblen(j.take(a))), 1);
        let rest = crate::scan::split_from(j, ',', istart, a + 1, 0, false, false, a + 1, off2);
        assert(crate::scan::split_from(j, ',', istart, a, 0, false, false, st, off) == seq![
            (j.subrange(st, a), off),
        ] + rest);
        assert(rest == crate::scan::split_from(j, ',', istart, a + 2, 0, false, false, a + 1, off2));
        lemma_split_value_at(j, istart, h, xs[k], a + 2, a + 1, off2);
        lemma_split_items(h, xs, istart, k + 1, off2);
        let r = crate::scan::split_from(j, ',', istart, a, 0, false, false, st, off);
        assert forall|q: int| 0 <= q < r.len() implies (#[trigger] r[q]).0 == piece_text(h, xs, k - 1 + q) by {
            if q > 0 {
                assert(r[q] == rest[q - 1]);
            }
        }
    }
}

proof fn lemma_trim_written<H: Fn(HostQuery) -> HostReply>(h: H, v: ValueModel)
    requires
        simple_scalar(v),
    ensures
        trim(fmt_value(h, v)) == fmt_value(h, v),
        trim(seq![' '] + fmt_value(h, v)) == fmt_value(h, v),
{
    lemma_written_shape(h, v);
    let w = fmt_value(h, v);
    let p = seq![' '] + w;
    assert(crate::text::ws_prefix_len(w) == 0);
    assert(w.skip(0) =~= w);
    assert(crate::text::ws_suffix_len(w) == 0);
    assert(w.take(w.len() as int) =~= w);
    assert(p.drop_first() =~= w);
    assert(crate::text::is_ws(' '));
    assert(crate::text::ws_prefix_len(p) == 1);
    assert(p.skip(1) =~= w);
}

proof fn lemma_items_read<E: Fn(&str) -> Option<String>, H: Fn(HostQuery) -> HostReply>(
    c: Ctx<E, H>,
    xs: Seq<ValueModel>,
    istart: usize,
    k: int,
    refs: Seq<crate::value_parser::RefModel>,
)
    requires
        forall|i: int| 0 <= i < xs.len() ==> simple_scalar(#[trigger] xs[i]),
        0 <= k <= xs.len(),
        crate::scan::split_top(fmt_items(c.host, xs), ',', istart).len() == xs.len(),
        forall|m: int|
            0 <= m < xs.len() ==> trim(#[trigger] crate::scan::split_top(fmt_items(c.host, xs), ',', istart)[m].0)
                == fmt_value(c.host, xs[m]),
    ensures
        crate::value_parser::sp_items(c, fmt_items(c.host, xs), istart, k, xs.take(k), refs).result
            == Ok::<ValueModel, ErrModel>(ValueModel::Array(xs)),
    decreases xs.len() - k,
{
    let j = fmt_items(c.host, xs);
    let ps = crate::scan::split_top(j, ',', istart);
    if k < xs.len() {
        let part = ps[k].0;
        let w = fmt_value(c.host, xs[k]);
        lemma_written_shape(c.host, xs[k]);
        assert(trim(part) == w);
        let a = crate::text::wadd(ps[k].1, crate::text::lead_bytes(part));
        lemma_scalar_expr(c, xs[k], a);
        let r = crate::value_parser::sp_expr(c, w, a);
        assert(xs.take(k).push(xs[k]) =~= xs.take(k + 1));
        lemma_items_read(c, xs, istart, k + 1, refs + r.refs);
    } else {
        assert(xs.take(k) =~= xs);
    }
}

/// Lists of such scalars written by the dumper read back as themselves.
pub proof fn law_list_reads_back<E: Fn(&str) -> Option<String>, H: Fn(HostQuery) -> HostReply>(
    c: Ctx<E, H>,
    origin: Span,
    xs: Seq<ValueModel>,
)
    requires
        forall|i: int| 0 <= i < xs.len() ==> simple_scalar(#[trigger] xs[i]),
    ensures
        reads_as(c, origin, fmt_value(c.host, ValueModel::Array(xs))) == Ok::<ValueModel, ErrModel>(
            ValueModel::Array(xs),
        ),
{
    let h = c.host;
    let j = fmt_items(h, xs);
    let r = seq!['['] + j + seq![']'];
    let v = ValueModel::Array(xs);
    assert(fmt_value(h, v) == r) by {
        reveal_strlit("[");
        reveal_strlit("]");
        assert("["@ + j + "]"@ =~= r);
    }
    let n = r.len() as int;
    assert(crate::text::ws_prefix_len(r) == 0);
    assert(r.skip(0) =~= r);
    assert(crate::text::ws_suffix_len(r) == 0);
    assert(r.take(n) =~= r);
    let a = crate::text::wadd(origin.start, crate::text::lead_bytes(r));
    let op = seq!['?', '?'];
    // no `??` outside the brackets
    assert(xs.take(0) =~= Seq::<ValueModel>::empty());
    assert(fmt_items(h, xs.take(0)) =~= Seq::<char>::empty());
    lemma_find_items(h, xs, 0);
    assert(r[0] == '[');
    assert(crate::scan::find_op_from(r, op, 0, 0, false, false) == crate::scan::find_op_from(r, op, 1, 1, false, false));
    assert(r[n - 1] == ']');
    assert(crate::scan::find_op_from(r, op, n - 1, 1, false, false) == crate::scan::find_op_from(r, op, n, 0, false, false));
    assert(crate::scan::find_op(r, op) is None);
    // one operand
    lemma_arith_items(h, xs, 0, a, true);
    assert(seq!['['] + fmt_items(h, xs.take(0)) =~= Seq::<char>::empty().push('['));
    assert(crate::scan::arith_tokens(r, a) == seq![(r, a)]) by {
        assert(r.take(0) =~= Seq::<char>::empty());
        assert(wblen(Seq::<char>::empty()) == 0);
        assert(crate::text::wadd(a, 0) == a);
        assert(trim(Seq::<char>::empty()) =~= Seq::<char>::empty()) by {
            assert(crate::text::ws_prefix_len(Seq::<char>::empty()) == 0);
            assert(crate::text::ws_suffix_len(Seq::<char>::empty()) == 0);
        }
    }
    // the items
    let istart = crate::text::wadd(a, 1);
    assert(r.subrange(1, n - 1) =~= j);
    if xs.len() == 0 {
        assert(j =~= Seq::<char>::empty());
        assert(crate::scan::split_top(j, ',', istart) =~= Seq::<(Seq<char>, usize)>::empty());
        assert(xs =~= Seq::<ValueModel>::empty());
    } else {
        let w0 = fmt_value(h, xs[0]);
        lemma_chunk_at(h, xs, 0);
        lemma_chunk_shape(h, xs, 0);
        assert(j.subrange(0, w0.len() as int) == w0);
        lemma_split_value_at(j, istart, h, xs[0], 0, 0, istart);
        lemma_split_items(h, xs, istart, 1, istart);
        let ps = crate::scan::split_top(j, ',', istart);
        assert forall|m: int| 0 <= m < xs.len() implies trim(#[trigger] ps[m].0) == fmt_value(h, xs[m]) by {
            lemma_piece_text(h, xs, m);
            lemma_trim_written(h, xs[m]);
            assert(ps[m].0 == piece_text(h, xs, 0 + m));
        }
        lemma_items_read(c, xs, istart, 0, Seq::empty());
    }
    let o = crate::value_parser::sp_atom(c, r, a);
    assert(r != "true"@ && r != "false"@ && r != "null"@) by {
        reveal_strlit("true");
        reveal_strlit("false");
        reveal_strlit("null");
    }
    assert(o.result == Ok::<ValueModel, ErrModel>(v));
    assert(crate::value_parser::sp_fold(c, r, a, 1, v, o.refs).result == Ok::<ValueModel, ErrModel>(v));
    assert(crate::value_parser::sp_arith(c, r, a).result == Ok::<ValueModel, ErrModel>(v));
}

// ── Written values on a line ────────────────────────────────────────────────

/// A scalar that reads back, or a list of such: what the dumper writes on
/// one line and reads back as itself.
pub open spec fn written_value(v: ValueModel) -> bool {
    simple_scalar(v) || (v matches ValueModel::Array(xs) && forall|i: int|
        0 <= i < xs.len() ==> simple_scalar(#[trigger] xs[i]))
}

proof fn lemma_value_no_newline<H: Fn(HostQuery) -> HostReply>(h: H, v: ValueModel)
    requires
        simple_scalar(v),
    ensures
        forall|q: int| 0 <= q < fmt_value(h, v).len() ==> #[trigger] fmt_value(h, v)[q] != '\n',
{
    lemma_written_shape(h, v);
    let w = fmt_value(h, v);
    match v {
        ValueModel::Str(t) => {
            lemma_escape_plain(t);
            let q = quote(t);
            assert(q =~= seq!['"'] + escape_all(t) + seq!['"']);
            assert forall|i: int| 0 <= i < q.len() implies #[trigger] q[i] != '\n' by {
                if 0 < i < q.len() - 1 {
                    assert(q[i] == escape_all(t)[i - 1]);
                }
            }
        },
        _ => {
            assert forall|i: int| 0 <= i < w.len() implies #[trigger] w[i] != '\n' by {
                assert(!crate::text::is_ws(w[i]));
            }
        },
    }
}

proof fn lemma_items_no_newline<H: Fn(HostQuery) -> HostReply>(h: H, xs: Seq<ValueModel>)
    requires
        forall|i: int| 0 <= i < xs.len() ==> simple_scalar(#[trigger] xs[i]),
    ensures
        forall|q: int| 0 <= q < fmt_items(h, xs).len() ==> #[trigger] fmt_items(h, xs)[q] != '\n',
    decreases xs.len(),
{
    if xs.len() == 1 {
        lemma_value_no_newline(h, xs[0]);
    } else if xs.len() > 1 {
        let a = xs.subrange(0, xs.len() - 1);
        assert forall|i: int| 0 <= i < a.len() implies simple_scalar(#[trigger] a[i]) by {
            assert(a[i] == xs[i]);
        }
        lemma_items_no_newline(h, a);
        lemma_value_no_newline(h, xs[xs.len() - 1]);
        lemma_sep_chars();
        let f = fmt_items(h, a);
        let w = fmt_value(h, xs[xs.len() - 1]);
        let t = fmt_items(h, xs);
        assert(t == f + ", "@ + w);
        assert forall|q: int| 0 <= q < t.len() implies #[trigger] t[q] != '\n' by {
            if q < f.len() {
                assert(t[q] == f[q]);
            } else if q >= f.len() + 2 {
                assert(t[q] == w[q - f.len() - 2]);
            }
        }
    }
}

/// A written value on a line: not empty, no newline in it, not starting or
/// ending with whitespace, not starting with `#`.
pub(crate) proof fn lemma_written_value_shape<H: Fn(HostQuery) -> HostReply>(h: H, v: ValueModel)
    requires
        written_value(v),
    ensures
        fmt_value(h, v).len() > 0,
        forall|q: int| 0 <= q < fmt_value(h, v).len() ==> #[trigger] fmt_value(h, v)[q] != '\n',
        !crate::text::is_ws(fmt_value(h, v)[0]),
        !crate::text::is_ws(fmt_value(h, v).last()),
        fmt_value(h, v)[0] != '#',
        trim(fmt_value(h, v)) == fmt_value(h, v),
        trim(seq![' '] + fmt_value(h, v)) == fmt_value(h, v),
{
    let w = fmt_value(h, v);
    match v {
        ValueModel::Array(xs) => {
            let j = fmt_items(h, xs);
            reveal_strlit("[");
            reveal_strlit("]");
            assert(w =~= seq!['['] + j + seq![']']);
            lemma_items_no_newline(h, xs);
            assert forall|q: int| 0 <= q < w.len() implies #[trigger] w[q] != '\n' by {
                if 0 < q < w.len() - 1 {
                    assert(w[q] == j[q - 1]);
                }
            }
        },
        _ => {
            lemma_written_shape(h, v);
            lemma_value_no_newline(h, v);
            match v {
                ValueModel::Str(t) => {
                    assert(quote(t)[0] == '"');
                },
                _ => {
                    assert(bare_text(w));
                },
            }
        },
    }
    let p = seq![' '] + w;
    assert(crate::text::ws_prefix_len(w) == 0);
    assert(w.skip(0) =~= w);
    assert(crate::text::ws_suffix_len(w) == 0);
    assert(w.take(w.len() as int) =~= w);
    assert(p.drop_first() =~= w);
    assert(crate::text::is_ws(' '));
    assert(crate::text::ws_prefix_len(p) == 1);
    assert(p.skip(1) =~= w);
}

/// A written value reads back as itself.
pub proof fn law_written_value_reads_back<E: Fn(&str) -> Option<String>, H: Fn(HostQuery) -> HostReply>(
    c: Ctx<E, H>,
    origin: Span,
    v: ValueModel,
)
    requires
        written_value(v),
    ensures
        reads_as(c, origin, fmt_value(c.host, v)) == Ok::<ValueModel, ErrModel>(v),
{
    match v {
        ValueModel::Array(xs) => {
            law_list_reads_back(c, origin, xs);
        },
        _ => {
            law_scalar_reads_back(c, origin, v);
        },
    }
}

// ── Documents ───────────────────────────────────────────────────────────────

/// A key the line scanner reads whole: non-empty, of `[A-Za-z0-9_-]`.
pub open spec fn bare_key(k: Seq<char>) -> bool {
    k.len() > 0 && forall|i: int| 0 <= i < k.len() ==> crate::lexer::is_bare_key_char(#[trigger] k[i])
}

pub open spec fn keys_ascending(m: Seq<(Seq<char>, ValueModel)>) -> bool {
    forall|i: int, j: int| 0 <= i < j < m.len() ==> crate::value::key_lt(#[trigger] m[i].0, #[trigger] m[j].0)
}

/// Entries in key order, under bare keys, with values written on one line
/// that read back.
pub open spec fn flat_config(m: Seq<(Seq<char>, ValueModel)>) -> bool {
    &&& keys_ascending(m)
    &&& forall|i: int| 0 <= i < m.len() ==> bare_key(#[trigger] m[i].0) && written_value(m[i].1)
}

pub(crate) proof fn lemma_key_lt_irrefl(a: Seq<char>)
    ensures
        !crate::value::key_lt(a, a),
    decreases a.len(),
{
    if a.len() > 0 {
        lemma_key_lt_irrefl(a.drop_first());
    }
}

pub(crate) proof fn lemma_key_lt_asym(a: Seq<char>, b: Seq<char>)
    requires
        crate::value::key_lt(a, b),
    ensures
        !crate::value::key_lt(b, a),
    decreases a.len(),
{
    if a.len() > 0 && b.len() > 0 && a[0] == b[0] {
        lemma_key_lt_asym(a.drop_first(), b.drop_first());
    }
}

pub(crate) proof fn lemma_insert_last(p: Seq<(Seq<char>, ValueModel)>, k: Seq<char>, v: ValueModel)
    requires
        forall|j: int| 0 <= j < p.len() ==> crate::value::key_lt(#[trigger] p[j].0, k),
    ensures
        crate::value::dict_put(p, k, v) == p.push((k, v)),
    decreases p.len(),
{
    lemma_find_absent(p, k, 0);
    lemma_insert_tail(p, k, v);
}

proof fn lemma_find_absent(p: Seq<(Seq<char>, ValueModel)>, k: Seq<char>, i: int)
    requires
        forall|j: int| 0 <= j < p.len() ==> crate::value::key_lt(#[trigger] p[j].0, k),
        0 <= i,
    ensures
        crate::value::dict_find_from(p, k, i) is None,
    decreases p.len() - i,
{
    if i < p.len() {
        lemma_key_lt_irrefl(k);
        assert(crate::value::key_lt(p[i].0, k));
        lemma_find_absent(p, k, i + 1);
    }
}

proof fn lemma_insert_tail(p: Seq<(Seq<char>, ValueModel)>, k: Seq<char>, v: ValueModel)
    requires
        forall|j: int| 0 <= j < p.len() ==> crate::value::key_lt(#[trigger] p[j].0, k),
    ensures
        crate::value::dict_insert(p, k, v) == p.push((k, v)),
    decreases p.len(),
{
    if p.len() > 0 {
        let t = p.drop_first();
        assert(crate::value::key_lt(p[0].0, k));
        lemma_key_lt_irrefl(k);
        lemma_key_lt_asym(p[0].0, k);
        assert forall|j: int| 0 <= j < t.len() implies crate::value::key_lt(#[trigger] t[j].0, k) by {
            assert(t[j] == p[j + 1]);
        }
        lemma_insert_tail(t, k, v);
        assert(seq![p[0]] + t.push((k, v)) =~= p.push((k, v)));
    }
}

/// The text of one `key = value` line.
pub open spec fn line_of<H: Fn(HostQuery) -> HostReply>(h: H, e: (Seq<char>, ValueModel)) -> Seq<char> {
    e.0 + " = "@ + fmt_value(h, e.1)
}

pub(crate) proof fn lemma_lines_pass(t: Seq<char>, p: int, r: int, start: int, ln: u32)
    requires
        0 <= p,
        0 <= r,
        p + r <= t.len(),
        forall|q: int| p <= q < p + r ==> #[trigger] t[q] != '\n',
    ensures
        crate::lexer::lines_from(t, p, start, ln) == crate::lexer::lines_from(t, p + r, start, ln),
    decreases r,
{
    if r > 0 {
        lemma_lines_pass(t, p + 1, r - 1, start, ln);
    }
}

/// A written line: its shape as the line scanner sees it.
pub(crate) proof fn lemma_line_chars<H: Fn(HostQuery) -> HostReply>(h: H, e: (Seq<char>, ValueModel))
    requires
        bare_key(e.0),
        written_value(e.1),
    ensures
        forall|q: int| 0 <= q < line_of(h, e).len() ==> #[trigger] line_of(h, e)[q] != '\n',
        line_of(h, e).len() > 0,
        !crate::text::is_ws(line_of(h, e).last()),
        !crate::text::is_ws(line_of(h, e)[0]),
        line_of(h, e).last() != '\r',
{
    reveal_strlit(" = ");
    lemma_written_value_shape(h, e.1);
    let w = fmt_value(h, e.1);
    let l = line_of(h, e);
    let k = e.0;
    assert(l =~= k + seq![' ', '=', ' '] + w);
    assert forall|q: int| 0 <= q < l.len() implies #[trigger] l[q] != '\n' by {
        if q < k.len() {
            assert(l[q] == k[q]);
            assert(crate::lexer::is_bare_key_char(k[q]));
        } else if q >= k.len() + 3 {
            assert(l[q] == w[q - k.len() - 3]);
        }
    }
    assert(l.last() == w.last());
    assert(l[0] == k[0]);
    assert(crate::lexer::is_bare_key_char(k[0]));
}


// The line scanner over a written line.

pub(crate) proof fn lemma_cut_quiet(s: Seq<char>, t: Seq<char>, o: int, k: int)
    requires
        forall|q: int| 0 <= q < t.len() ==> #[trigger] t[q] != '\\' && t[q] != '"' && t[q] != '#',
        0 <= o,
        o + t.len() <= s.len(),
        s.subrange(o, o + t.len()) == t,
        0 <= k <= t.len(),
    ensures
        crate::lexer::comment_cut(s, o + k, false, false) == crate::lexer::comment_cut(s, o + t.len(), false, false),
    decreases t.len() - k,
{
    if k < t.len() {
        assert(s[o + k] == t[k]);
        lemma_cut_quiet(s, t, o, k + 1);
    }
}

proof fn lemma_cut_quote_at(s: Seq<char>, w: Seq<char>, o: int, j: int)
    requires
        plain_text(w),
        0 <= o,
        o + quote(w).len() <= s.len(),
        s.subrange(o, o + quote(w).len()) == quote(w),
        0 <= j <= w.len(),
    ensures
        crate::lexer::comment_cut(s, o + 1 + escape_all(w.take(j)).len() as int, true, false)
            == crate::lexer::comment_cut(s, o + 1 + escape_all(w).len() as int, true, false),
    decreases w.len() - j,
{
    let q = quote(w);
    assert(q =~= seq!['"'] + escape_all(w) + seq!['"']);
    if j < w.len() {
        let p: int = 1 + escape_all(w.take(j)).len() as int;
        let ec = escape_char(w[j]);
        lemma_escape_take_step(w, j);
        assert(s[o + p] == q[p]);
        assert(q[p] == ec[0]);
        if ec.len() == 2 {
            assert(s[o + p + 1] == q[p + 1]);
            assert(q[p + 1] == ec[1]);
            assert(crate::lexer::comment_cut(s, o + p, true, false) == crate::lexer::comment_cut(s, o + p + 1, true, true));
        }
        lemma_cut_quote_at(s, w, o, j + 1);
    } else {
        assert(w.take(j) =~= w);
    }
}



/// A written value has no open bracket outside its strings.
proof fn lemma_delta_written<H: Fn(HostQuery) -> HostReply>(h: H, v: ValueModel)
    requires
        written_value(v),
    ensures
        crate::lexer::bracket_delta(fmt_value(h, v)) == 0,
{
    let w = fmt_value(h, v);
    assert(w.subrange(0, w.len() as int) =~= w);
    match v {
        ValueModel::Array(xs) => {
            let j = fmt_items(h, xs);
            reveal_strlit("[");
            reveal_strlit("]");
            assert(w =~= seq!['['] + j + seq![']']);
            assert(w.subrange(1, 1 + j.len() as int) =~= j);
            assert(crate::lexer::delta_from(w, 0, 0, false, false) == crate::lexer::delta_from(w, 1, 1, false, false));
            lemma_scan_items(w, h, xs, 1, 0, 1);
            assert(xs.take(0) =~= Seq::<ValueModel>::empty());
            assert(ipos(h, xs, 0) == 0);
            assert(w[1 + j.len() as int] == ']');
            assert(crate::scan::dec32(1) == 0);
            assert(crate::lexer::delta_from(w, 1 + j.len() as int, 1, false, false) == crate::lexer::delta_from(
                w,
                2 + j.len() as int,
                0,
                false,
                false,
            ));
        },
        _ => {
            lemma_delta_value_at(w, h, v, 0, 0);
        },
    }
}


/// A written line holds no comment.
proof fn lemma_cut_line<H: Fn(HostQuery) -> HostReply>(h: H, e: (Seq<char>, ValueModel))
    requires
        bare_key(e.0),
        written_value(e.1),
    ensures
        crate::lexer::comment_cut(line_of(h, e), 0, false, false) == line_of(h, e).len(),
{
    reveal_strlit(" = ");
    let w = fmt_value(h, e.1);
    let l = line_of(h, e);
    let k = e.0;
    let head = k + seq![' ', '=', ' '];
    assert(l =~= head + w);
    assert forall|q: int| 0 <= q < head.len() implies #[trigger] head[q] != '\\' && head[q] != '"' && head[q] != '#' by {
        if q < k.len() {
            assert(crate::lexer::is_bare_key_char(k[q]));
        }
    }
    assert(l.subrange(0, head.len() as int) =~= head);
    lemma_cut_quiet(l, head, 0, 0);
    let o = head.len() as int;
    assert(l.subrange(o, o + w.len()) =~= w);
    match e.1 {
        ValueModel::Array(xs) => {
            let j = fmt_items(h, xs);
            reveal_strlit("[");
            reveal_strlit("]");
            assert(w =~= seq!['['] + j + seq![']']);
            assert(l[o] == '[');
            assert(l.subrange(o + 1, o + 1 + j.len()) =~= j);
            lemma_scan_items(l, h, xs, o + 1, 0, 0);
            assert(xs.take(0) =~= Seq::<ValueModel>::empty());
            assert(ipos(h, xs, 0) == 0);
            assert(l[o + 1 + j.len()] == ']');
            assert(crate::lexer::comment_cut(l, o, false, false) == crate::lexer::comment_cut(l, o + 1, false, false));
            assert(o + 2 + j.len() == l.len());
            assert(crate::lexer::comment_cut(l, o + 1 + j.len(), false, false) == crate::lexer::comment_cut(
                l,
                o + 2 + j.len(),
                false,
                false,
            ));
        },
        _ => {
            lemma_cut_value_at(l, h, e.1, o);
        },
    }
}


proof fn lemma_bare_len_key(l: Seq<char>, k: Seq<char>, j: int)
    requires
        bare_key(k),
        k.len() < l.len(),
        l.take(k.len() as int) == k,
        !crate::lexer::is_bare_key_char(l[k.len() as int]),
        0 <= j <= k.len(),
    ensures
        crate::lexer::bare_len(l, j) == k.len(),
    decreases k.len() - j,
{
    if j < k.len() {
        assert(l[j] == k[j]);
        lemma_bare_len_key(l, k, j + 1);
    }
}

/// The line scanner reads a written line as a `key = value` token.
pub(crate) proof fn lemma_line_token<H: Fn(HostQuery) -> HostReply>(h: H, e: (Seq<char>, ValueModel))
    requires
        bare_key(e.0),
        written_value(e.1),
    ensures
        ({
            let l = line_of(h, e);
            &&& crate::lexer::strip_comment(l) == l
            &&& trim(l) == l
            &&& l != "[vars]"@
            &&& crate::lexer::match_section(l) is None
            &&& l[0] != '@'
            &&& l != "}#"@
            &&& crate::lexer::match_kv(l, l) matches Some((kk, _, vv, _)) && kk == e.0 && vv == fmt_value(h, e.1)
            &&& trim(fmt_value(h, e.1)) != "#{"@
            &&& crate::lexer::bracket_delta(fmt_value(h, e.1)) == 0
            &&& crate::lexer::unquote(e.0) == e.0
        }),
{
    reveal_strlit(" = ");
    reveal_strlit("[vars]");
    reveal_strlit("}#");
    reveal_strlit("#{");
    lemma_line_chars(h, e);
    lemma_cut_line(h, e);
    lemma_written_value_shape(h, e.1);
    lemma_delta_written(h, e.1);
    let l = line_of(h, e);
    let k = e.0;
    let w = fmt_value(h, e.1);
    assert(l =~= k + seq![' ', '=', ' '] + w);
    assert(l.take(l.len() as int) =~= l);
    assert(crate::text::ws_suffix_len(l) == 0);
    assert(crate::text::trim_end(l) == l);
    assert(crate::lexer::strip_comment(l) == l);
    assert(crate::text::ws_prefix_len(l) == 0);
    assert(l.skip(0) =~= l);
    assert(trim(l) == l);
    assert(crate::lexer::is_bare_key_char(k[0]));
    assert(l[0] == k[0]);
    // the key
    assert(l.take(k.len() as int) =~= k);
    assert(l[k.len() as int] == ' ');
    lemma_bare_len_key(l, k, 0);
    let after_key = l.skip(k.len() as int);
    assert(after_key =~= seq![' ', '=', ' '] + w);
    assert(crate::text::is_ws(' '));
    assert(crate::text::ws_prefix_len(after_key.drop_first()) == 0);
    assert(crate::text::ws_prefix_len(after_key) == 1);
    let akt = crate::text::trim_start(after_key);
    assert(akt =~= seq!['=', ' '] + w);
    let after_eq = akt.skip(1);
    assert(after_eq =~= seq![' '] + w);
    assert(after_eq.drop_first() =~= w);
    assert(crate::text::ws_prefix_len(w) == 0);
    assert(crate::text::ws_prefix_len(after_eq) == 1);
    assert(crate::text::trim_start(after_eq) =~= w);
}

/// The text of one `  key = value` line inside a block dict.
pub open spec fn iline_of<H: Fn(HostQuery) -> HostReply>(h: H, e: (Seq<char>, ValueModel)) -> Seq<char> {
    seq![' ', ' '] + line_of(h, e)
}

/// A written line inside a block dict holds no comment.
proof fn lemma_cut_iline<H: Fn(HostQuery) -> HostReply>(h: H, e: (Seq<char>, ValueModel))
    requires
        bare_key(e.0),
        written_value(e.1),
    ensures
        crate::lexer::comment_cut(iline_of(h, e), 0, false, false) == iline_of(h, e).len(),
{
    reveal_strlit(" = ");
    let w = fmt_value(h, e.1);
    let l = iline_of(h, e);
    let k = e.0;
    let head = seq![' ', ' '] + k + seq![' ', '=', ' '];
    assert(l =~= head + w);
    assert forall|q: int| 0 <= q < head.len() implies #[trigger] head[q] != '\\' && head[q] != '"' && head[q] != '#' by {
        if 2 <= q < k.len() + 2 {
            assert(head[q] == k[q - 2]);
            assert(crate::lexer::is_bare_key_char(k[q - 2]));
        }
    }
    assert(l.subrange(0, head.len() as int) =~= head);
    lemma_cut_quiet(l, head, 0, 0);
    let o = head.len() as int;
    assert(l.subrange(o, o + w.len()) =~= w);
    match e.1 {
        ValueModel::Array(xs) => {
            let j = fmt_items(h, xs);
            reveal_strlit("[");
            reveal_strlit("]");
            assert(w =~= seq!['['] + j + seq![']']);
            assert(l[o] == '[');
            assert(l.subrange(o + 1, o + 1 + j.len()) =~= j);
            lemma_scan_items(l, h, xs, o + 1, 0, 0);
            assert(xs.take(0) =~= Seq::<ValueModel>::empty());
            assert(ipos(h, xs, 0) == 0);
            assert(l[o + 1 + j.len()] == ']');
            assert(crate::lexer::comment_cut(l, o, false, false) == crate::lexer::comment_cut(l, o + 1, false, false));
            assert(o + 2 + j.len() == l.len());
            assert(crate::lexer::comment_cut(l, o + 1 + j.len(), false, false) == crate::lexer::comment_cut(
                l,
                o + 2 + j.len(),
                false,
                false,
            ));
        },
        _ => {
            lemma_cut_value_at(l, h, e.1, o);
        },
    }
}

/// The line scanner reads a written line inside a block dict as a
/// `key = value` token whose content is the unindented line.
pub(crate) proof fn lemma_iline_token<H: Fn(HostQuery) -> HostReply>(h: H, e: (Seq<char>, ValueModel))
    requires
        bare_key(e.0),
        written_value(e.1),
    ensures
        ({
            let l = iline_of(h, e);
            &&& crate::lexer::strip_comment(l) == l
            &&& trim(l) == line_of(h, e)
            &&& crate::lexer::match_kv(l, l) matches Some((kk, _, vv, _)) && kk == e.0 && vv == fmt_value(h, e.1)
            &&& forall|q: int| 0 <= q < l.len() ==> #[trigger] l[q] != '\n'
            &&& l.len() > 0
            &&& !crate::text::is_ws(l.last())
            &&& l.last() != '\r'
            &&& fmt_value(h, e.1).len() > 0
            &&& fmt_value(h, e.1).last() != ','
        }),
{
    reveal_strlit(" = ");
    lemma_line_chars(h, e);
    lemma_cut_iline(h, e);
    lemma_written_value_shape(h, e.1);
    let l = iline_of(h, e);
    let l0 = line_of(h, e);
    let k = e.0;
    let w = fmt_value(h, e.1);
    assert(l0 =~= k + seq![' ', '=', ' '] + w);
    assert(l =~= seq![' ', ' '] + k + seq![' ', '=', ' '] + w);
    assert forall|q: int| 0 <= q < l.len() implies #[trigger] l[q] != '\n' by {
        if q >= 2 {
            assert(l[q] == l0[q - 2]);
        }
    }
    assert(l.last() == l0.last());
    assert(l.take(l.len() as int) =~= l);
    assert(crate::text::ws_suffix_len(l) == 0);
    assert(crate::text::trim_end(l) == l);
    assert(crate::lexer::strip_comment(l) == l);
    assert(crate::text::is_ws(' '));
    assert(l.drop_first().drop_first() =~= l0);
    assert(l0[0] == k[0]);
    assert(crate::lexer::is_bare_key_char(k[0]));
    assert(crate::text::ws_prefix_len(l0) == 0);
    assert(crate::text::ws_prefix_len(l.drop_first()) == 1);
    assert(crate::text::ws_prefix_len(l) == 2);
    assert(l.skip(2) =~= l0);
    assert(crate::text::ws_suffix_len(l0) == 0);
    assert(l0.take(l0.len() as int) =~= l0);
    assert(trim(l) == l0);
    // the key
    assert(l0.take(k.len() as int) =~= k);
    assert(l0[k.len() as int] == ' ');
    lemma_bare_len_key(l0, k, 0);
    let after_key = l0.skip(k.len() as int);
    assert(after_key =~= seq![' ', '=', ' '] + w);
    assert(crate::text::ws_prefix_len(after_key.drop_first()) == 0);
    assert(crate::text::ws_prefix_len(after_key) == 1);
    let akt = crate::text::trim_start(after_key);
    assert(akt =~= seq!['=', ' '] + w);
    let after_eq = akt.skip(1);
    assert(after_eq =~= seq![' '] + w);
    assert(after_eq.drop_first() =~= w);
    assert(crate::text::ws_prefix_len(w) == 0);
    assert(crate::text::ws_prefix_len(after_eq) == 1);
    assert(crate::text::trim_start(after_eq) =~= w);
    // the value does not end with a comma
    match e.1 {
        ValueModel::Array(xs) => {
            reveal_strlit("[");
            reveal_strlit("]");
            assert(w =~= seq!['['] + fmt_items(h, xs) + seq![']']);
        },
        ValueModel::Str(t) => {
            lemma_written_shape(h, e.1);
            assert(quote(t) =~= seq!['"'] + escape_all(t) + seq!['"']);
        },
        _ => {
            lemma_written_shape(h, e.1);
            assert(bare_text(w));
            assert(w[w.len() - 1] != ',');
        },
    }
}

/// The line scanner reads `key = #{` as a block opening under the key.
pub(crate) proof fn lemma_open_token(k: Seq<char>)
    requires
        bare_key(k),
    ensures
        ({
            let l = k + " = #{"@;
            &&& crate::lexer::strip_comment(l) == l
            &&& trim(l) == l
            &&& l != "[vars]"@
            &&& crate::lexer::match_section(l) is None
            &&& l[0] != '@'
            &&& l != "}#"@
            &&& crate::lexer::match_kv(l, l) matches Some((kk, _, vv, _)) && kk == k && trim(vv) == "#{"@
            &&& crate::lexer::unquote(k) == k
            &&& forall|q: int| 0 <= q < l.len() ==> #[trigger] l[q] != '\n'
            &&& l.len() > 0
            &&& !crate::text::is_ws(l.last())
            &&& l.last() != '\r'
        }),
{
    reveal_strlit(" = #{");
    reveal_strlit("[vars]");
    reveal_strlit("}#");
    reveal_strlit("#{");
    let w = seq!['#', '{'];
    let l = k + " = #{"@;
    let head = k + seq![' ', '=', ' '];
    assert(l =~= head + w);
    assert forall|q: int| 0 <= q < l.len() implies #[trigger] l[q] != '\n' by {
        if q < k.len() {
            assert(l[q] == k[q]);
            assert(crate::lexer::is_bare_key_char(k[q]));
        }
    }
    assert forall|q: int| 0 <= q < head.len() implies #[trigger] head[q] != '\\' && head[q] != '"' && head[q] != '#' by {
        if q < k.len() {
            assert(crate::lexer::is_bare_key_char(k[q]));
        }
    }
    assert(l.subrange(0, head.len() as int) =~= head);
    lemma_cut_quiet(l, head, 0, 0);
    let o = head.len() as int;
    assert(crate::scan::dict_open_at(l, o));
    assert(crate::lexer::comment_cut(l, o, false, false) == crate::lexer::comment_cut(l, o + 2, false, false));
    assert(l.take(l.len() as int) =~= l);
    assert(crate::text::ws_suffix_len(l) == 0);
    assert(crate::text::trim_end(l) == l);
    assert(crate::lexer::strip_comment(l) == l);
    assert(crate::lexer::is_bare_key_char(k[0]));
    assert(l[0] == k[0]);
    assert(crate::text::ws_prefix_len(l) == 0);
    assert(l.skip(0) =~= l);
    assert(trim(l) == l);
    assert(l != "[vars]"@) by {
        if l == "[vars]"@ {
            assert(l[0] == '[');
        }
    }
    assert(l != "}#"@) by {
        if l == "}#"@ {
            assert(l.len() == 2);
        }
    }
    // the key
    assert(l.take(k.len() as int) =~= k);
    assert(l[k.len() as int] == ' ');
    lemma_bare_len_key(l, k, 0);
    let after_key = l.skip(k.len() as int);
    assert(after_key =~= seq![' ', '=', ' '] + w);
    assert(crate::text::is_ws(' '));
    assert(crate::text::ws_prefix_len(after_key.drop_first()) == 0);
    assert(crate::text::ws_prefix_len(after_key) == 1);
    let akt = crate::text::trim_start(after_key);
    assert(akt =~= seq!['=', ' '] + w);
    let after_eq = akt.skip(1);
    assert(after_eq =~= seq![' '] + w);
    assert(after_eq.drop_first() =~= w);
    assert(crate::text::ws_prefix_len(w) == 0);
    assert(crate::text::ws_prefix_len(after_eq) == 1);
    assert(crate::text::trim_start(after_eq) =~= w);
    assert(w.skip(0) =~= w);
    assert(crate::text::ws_suffix_len(w) == 0);
    assert(w.take(2) =~= w);
    assert(trim(w) =~= "#{"@);
    assert(crate::lexer::is_bare_key_char(k.last()));
    assert(crate::text::ws_suffix_len(k) == 0);
    assert(crate::text::ws_prefix_len(k) == 0);
    assert(k.skip(0) =~= k);
    assert(k.take(k.len() as int) =~= k);
}

/// The line scanner reads `}#` as a block close.
pub(crate) proof fn lemma_close_token()
    ensures
        ({
            let l = "}#"@;
            &&& crate::lexer::strip_comment(l) == l
            &&& trim(l) == l
            &&& l != "[vars]"@
            &&& crate::lexer::match_section(l) is None
            &&& l[0] != '@'
            &&& forall|q: int| 0 <= q < l.len() ==> #[trigger] l[q] != '\n'
            &&& l.len() > 0
            &&& !crate::text::is_ws(l.last())
            &&& l.last() != '\r'
        }),
{
    reveal_strlit("}#");
    reveal_strlit("[vars]");
    let l = "}#"@;
    assert(l =~= seq!['}', '#']);
    assert(!crate::scan::dict_open_at(l, 1));
    assert(l.take(1) =~= seq!['}']);
    assert(crate::text::ws_suffix_len(seq!['}']) == 0) by {
        assert(seq!['}'].last() == '}');
    }
    assert(seq!['}'].take(1) =~= seq!['}']);
    assert(crate::text::trim_end(l.take(1)) =~= seq!['}']);
    assert(crate::lexer::comment_cut(l, 1, false, false) == crate::lexer::comment_cut(l, 2, false, false));
    assert(crate::lexer::comment_cut(l, 0, false, false) == 2);
    assert(l.take(2) =~= l);
    assert(crate::text::ws_suffix_len(l) == 0);
    assert(crate::text::trim_end(l) == l);
    assert(crate::text::ws_prefix_len(l) == 0);
    assert(l.skip(0) =~= l);
    assert(l != "[vars]"@) by {
        if l == "[vars]"@ {
            assert(l.len() == 6);
        }
    }
}

// A written list on a line: comments and bracket depth.

proof fn lemma_cut_value_at<H: Fn(HostQuery) -> HostReply>(s: Seq<char>, h: H, v: ValueModel, o: int)
    requires
        simple_scalar(v),
        0 <= o,
        o + fmt_value(h, v).len() <= s.len(),
        s.subrange(o, o + fmt_value(h, v).len()) == fmt_value(h, v),
    ensures
        crate::lexer::comment_cut(s, o, false, false) == crate::lexer::comment_cut(
            s,
            o + fmt_value(h, v).len(),
            false,
            false,
        ),
{
    lemma_written_shape(h, v);
    let w = fmt_value(h, v);
    match v {
        ValueModel::Str(t) => {
            let q = quote(t);
            assert(q =~= seq!['"'] + escape_all(t) + seq!['"']);
            assert(s[o] == '"');
            assert(escape_all(t.take(0)) =~= Seq::<char>::empty()) by {
                assert(t.take(0) =~= Seq::<char>::empty());
            }
            assert(crate::lexer::comment_cut(s, o, false, false) == crate::lexer::comment_cut(s, o + 1, true, false));
            lemma_cut_quote_at(s, t, o, 0);
            assert(o + 1 + escape_all(t.take(0)).len() as int == o + 1);
            let pe: int = o + 1 + escape_all(t).len() as int;
            assert(s[pe] == q[pe - o]);
        },
        _ => {
            lemma_bare_quiet(w);
            lemma_cut_quiet(s, w, o, 0);
        },
    }
}

proof fn lemma_delta_quiet_at(s: Seq<char>, t: Seq<char>, o: int, k: int, d: i32)
    requires
        quiet(t),
        0 <= o,
        o + t.len() <= s.len(),
        s.subrange(o, o + t.len()) == t,
        0 <= k <= t.len(),
    ensures
        crate::lexer::delta_from(s, o + k, d, false, false) == crate::lexer::delta_from(s, o + t.len(), d, false, false),
    decreases t.len() - k,
{
    if k < t.len() {
        assert(s[o + k] == t[k]);
        lemma_delta_quiet_at(s, t, o, k + 1, d);
    }
}

proof fn lemma_delta_quote_at(s: Seq<char>, w: Seq<char>, o: int, j: int, d: i32)
    requires
        plain_text(w),
        0 <= o,
        o + quote(w).len() <= s.len(),
        s.subrange(o, o + quote(w).len()) == quote(w),
        0 <= j <= w.len(),
    ensures
        crate::lexer::delta_from(s, o + 1 + escape_all(w.take(j)).len() as int, d, true, false)
            == crate::lexer::delta_from(s, o + 1 + escape_all(w).len() as int, d, true, false),
    decreases w.len() - j,
{
    let q = quote(w);
    assert(q =~= seq!['"'] + escape_all(w) + seq!['"']);
    if j < w.len() {
        let p: int = 1 + escape_all(w.take(j)).len() as int;
        let ec = escape_char(w[j]);
        lemma_escape_take_step(w, j);
        assert(s[o + p] == q[p]);
        assert(q[p] == ec[0]);
        if ec.len() == 2 {
            assert(s[o + p + 1] == q[p + 1]);
            assert(q[p + 1] == ec[1]);
            assert(crate::lexer::delta_from(s, o + p, d, true, false) == crate::lexer::delta_from(s, o + p + 1, d, true, true));
        }
        lemma_delta_quote_at(s, w, o, j + 1, d);
    } else {
        assert(w.take(j) =~= w);
    }
}

proof fn lemma_delta_value_at<H: Fn(HostQuery) -> HostReply>(s: Seq<char>, h: H, v: ValueModel, o: int, d: i32)
    requires
        simple_scalar(v),
        0 <= o,
        o + fmt_value(h, v).len() <= s.len(),
        s.subrange(o, o + fmt_value(h, v).len()) == fmt_value(h, v),
    ensures
        crate::lexer::delta_from(s, o, d, false, false) == crate::lexer::delta_from(
            s,
            o + fmt_value(h, v).len(),
            d,
            false,
            false,
        ),
{
    lemma_written_shape(h, v);
    let w = fmt_value(h, v);
    match v {
        ValueModel::Str(t) => {
            let q = quote(t);
            assert(q =~= seq!['"'] + escape_all(t) + seq!['"']);
            assert(s[o] == '"');
            assert(escape_all(t.take(0)) =~= Seq::<char>::empty()) by {
                assert(t.take(0) =~= Seq::<char>::empty());
            }
            assert(crate::lexer::delta_from(s, o, d, false, false) == crate::lexer::delta_from(s, o + 1, d, true, false));
            lemma_delta_quote_at(s, t, o, 0, d);
            assert(o + 1 + escape_all(t.take(0)).len() as int == o + 1);
            let pe: int = o + 1 + escape_all(t).len() as int;
            assert(s[pe] == q[pe - o]);
        },
        _ => {
            lemma_bare_quiet(w);
            lemma_delta_quiet_at(s, w, o, 0, d);
        },
    }
}

/// Comments and bracket depth pass over written items unchanged.
proof fn lemma_scan_items<H: Fn(HostQuery) -> HostReply>(
    s: Seq<char>,
    h: H,
    xs: Seq<ValueModel>,
    base: int,
    k: int,
    d: i32,
)
    requires
        forall|i: int| 0 <= i < xs.len() ==> simple_scalar(#[trigger] xs[i]),
        0 <= base,
        base + fmt_items(h, xs).len() <= s.len(),
        s.subrange(base, base + fmt_items(h, xs).len()) == fmt_items(h, xs),
        0 <= k <= xs.len(),
    ensures
        crate::lexer::comment_cut(s, base + ipos(h, xs, k), false, false) == crate::lexer::comment_cut(
            s,
            base + fmt_items(h, xs).len(),
            false,
            false,
        ),
        crate::lexer::delta_from(s, base + ipos(h, xs, k), d, false, false) == crate::lexer::delta_from(
            s,
            base + fmt_items(h, xs).len(),
            d,
            false,
            false,
        ),
    decreases xs.len() - k,
{
    let j = fmt_items(h, xs);
    if k < xs.len() {
        lemma_chunk_at(h, xs, k);
        lemma_chunk_shape(h, xs, k);
        let a = base + ipos(h, xs, k);
        let ch = chunk(h, xs, k);
        assert(s.subrange(a, a + ch.len()) =~= j.subrange(ipos(h, xs, k), ipos(h, xs, k + 1)));
        let w = fmt_value(h, xs[k]);
        if k > 0 {
            lemma_sep_chars();
            let sep = ", "@;
            assert(s.subrange(a, a + 2) =~= sep);
            assert(quiet(sep));
            lemma_cut_quiet(s, sep, a, 0);
            lemma_delta_quiet_at(s, sep, a, 0, d);
            assert(ch == sep + w);
            assert forall|i: int| 0 <= i < w.len() implies #[trigger] s.subrange(a + 2, a + 2 + w.len())[i]
                == w[i] by {
                assert(s.subrange(a, a + ch.len())[2 + i] == s[a + 2 + i]);
                assert(ch[2 + i] == w[i]);
            }
            assert(s.subrange(a + 2, a + 2 + w.len()) =~= w);
            lemma_cut_value_at(s, h, xs[k], a + 2);
            lemma_delta_value_at(s, h, xs[k], a + 2, d);
        } else {
            assert(s.subrange(a, a + w.len()) =~= w);
            lemma_cut_value_at(s, h, xs[k], a);
            lemma_delta_value_at(s, h, xs[k], a, d);
        }
        lemma_scan_items(s, h, xs, base, k + 1, d);
    } else {
        assert(xs.take(k) =~= xs);
    }
}

} // verus!
