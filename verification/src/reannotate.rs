//! Annotations the dumper writes, read back by the annotation parser.

use vstd::prelude::*;
use crate::annotation::{add_chunk, list_from, name_char_ok, name_len_from, sp_annotation, strip_quotes, AnnModel, ArgModel};
use crate::dumper::fmt_ann;
use crate::host::{float_parse, HostQuery, HostReply};
use crate::numeric::{int_text, nat_text, parse_int};
use crate::span::Span;
use crate::text::{is_ws, trim};
use crate::validator::join_with;

verus! {

// ── Lists joined with `, ` ──────────────────────────────────────────────────

/// An item of a written list argument that the list scanner gives back:
/// not empty, without surrounding whitespace, without a comma, and not in
/// double quotes.
pub open spec fn list_word(x: Seq<char>) -> bool {
    &&& x.len() > 0
    &&& !is_ws(x[0])
    &&& !is_ws(x.last())
    &&& !x.contains(',')
    &&& !(x.len() >= 2 && x[0] == '"' && x.last() == '"')
}

/// The items joined with `, `.
pub open spec fn joined(xs: Seq<Seq<char>>) -> Seq<char> {
    join_with(xs, seq![',', ' '])
}

pub open spec fn jchunk(xs: Seq<Seq<char>>, k: int) -> Seq<char> {
    (if k == 0 {
        Seq::empty()
    } else {
        seq![',', ' ']
    }) + xs[k]
}

pub open spec fn jpos(xs: Seq<Seq<char>>, k: int) -> int {
    join_with(xs.take(k), seq![',', ' ']).len() as int
}

proof fn lemma_join_step(xs: Seq<Seq<char>>, k: int)
    requires
        0 <= k < xs.len(),
    ensures
        join_with(xs.take(k + 1), seq![',', ' ']) == join_with(xs.take(k), seq![',', ' ']) + jchunk(xs, k),
{
    let t = xs.take(k + 1);
    assert(t.drop_last() =~= xs.take(k));
    assert(t.last() == xs[k]);
    if k == 0 {
        assert(xs.take(0) =~= Seq::<Seq<char>>::empty());
        assert(t[0] == xs[0]);
        assert(Seq::<char>::empty() + (Seq::<char>::empty() + xs[0]) =~= xs[0]);
    } else {
        assert(join_with(xs.take(k), seq![',', ' ']) + seq![',', ' '] + xs[k] =~= join_with(xs.take(k), seq![',', ' '])
            + jchunk(xs, k));
    }
}

proof fn lemma_join_prefix(xs: Seq<Seq<char>>, k: int, m: int)
    requires
        0 <= k <= m <= xs.len(),
    ensures
        jpos(xs, k) <= jpos(xs, m),
        join_with(xs.take(m), seq![',', ' ']).take(jpos(xs, k)) == join_with(xs.take(k), seq![',', ' ']),
    decreases m - k,
{
    if k < m {
        lemma_join_prefix(xs, k, m - 1);
        lemma_join_step(xs, m - 1);
        let a = join_with(xs.take(m - 1), seq![',', ' ']);
        let l = jpos(xs, k);
        assert((a + jchunk(xs, m - 1)).take(l) =~= a.take(l));
    } else {
        assert(join_with(xs.take(m), seq![',', ' ']).take(jpos(xs, m)) =~= join_with(xs.take(m), seq![',', ' ']));
    }
}

proof fn lemma_jchunk_at(xs: Seq<Seq<char>>, k: int)
    requires
        0 <= k < xs.len(),
    ensures
        jpos(xs, k + 1) == jpos(xs, k) + jchunk(xs, k).len(),
        jpos(xs, k + 1) <= join_with(xs, seq![',', ' ']).len(),
        join_with(xs, seq![',', ' ']).subrange(jpos(xs, k), jpos(xs, k + 1)) == jchunk(xs, k),
{
    lemma_join_step(xs, k);
    lemma_join_prefix(xs, k + 1, xs.len() as int);
    assert(xs.take(xs.len() as int) =~= xs);
    let j = join_with(xs, seq![',', ' ']);
    let p = join_with(xs.take(k + 1), seq![',', ' ']);
    assert(j.take(jpos(xs, k + 1)) == p);
    assert(j.subrange(jpos(xs, k), jpos(xs, k + 1)) =~= p.subrange(jpos(xs, k), p.len() as int));
    assert(p.subrange(jpos(xs, k), p.len() as int) =~= jchunk(xs, k));
}

/// The list scanner passes over text without a comma.
proof fn lemma_list_pass(
    inner: Seq<char>,
    i: int,
    e: int,
    start: int,
    cursor: usize,
    istart: usize,
    parts: Seq<Seq<char>>,
    spans: Seq<crate::span::Span>,
)
    requires
        0 <= i <= e <= inner.len(),
        forall|q: int| i <= q < e ==> #[trigger] inner[q] != ',',
    ensures
        list_from(inner, i, start, cursor, istart, parts, spans) == list_from(
            inner,
            e,
            start,
            cursor,
            istart,
            parts,
            spans,
        ),
    decreases e - i,
{
    if i < e {
        lemma_list_pass(inner, i + 1, e, start, cursor, istart, parts, spans);
    }
}

/// A written item of a list: not empty, without surrounding whitespace
/// and without a comma.
pub open spec fn list_chunk(y: Seq<char>) -> bool {
    &&& y.len() > 0
    &&& !is_ws(y[0])
    &&& !is_ws(y.last())
    &&& !y.contains(',')
}

/// A written list's items `ys`, scanned from the `k`-th on, read as `zs`,
/// each item without one pair of surrounding quotes.
proof fn lemma_list_scan(
    xs: Seq<Seq<char>>,
    zs: Seq<Seq<char>>,
    k: int,
    cursor: usize,
    istart: usize,
    spans: Seq<crate::span::Span>,
)
    requires
        forall|i: int| 0 <= i < xs.len() ==> list_chunk(#[trigger] xs[i]),
        zs.len() == xs.len(),
        forall|i: int| 0 <= i < xs.len() ==> strip_quotes(#[trigger] xs[i]) == zs[i],
        0 <= k < xs.len(),
    ensures
        ({
            let j = join_with(xs, seq![',', ' ']);
            let s = if k == 0 {
                0
            } else {
                jpos(xs, k) + 1
            };
            list_from(j, s, s, cursor, istart, zs.take(k), spans).0 == zs
        }),
    decreases xs.len() - k,
{
    let j = join_with(xs, seq![',', ' ']);
    let s = if k == 0 {
        0
    } else {
        jpos(xs, k) + 1
    };
    lemma_jchunk_at(xs, k);
    let x = xs[k];
    assert(list_chunk(x));
    let e = jpos(xs, k + 1);
    let ch = jchunk(xs, k);
    let chunk = j.subrange(s, e);
    if k == 0 {
        assert(ch =~= x);
        assert(chunk =~= x);
    } else {
        assert(ch =~= seq![',', ' '] + x);
        let p0 = jpos(xs, k);
        assert(chunk =~= j.subrange(p0, e).subrange(1, e - p0));
        assert(ch.subrange(1, ch.len() as int) =~= seq![' '] + x);
        assert(chunk =~= seq![' '] + x);
    }
    assert forall|q: int| s <= q < e implies #[trigger] j[q] != ',' by {
        assert(j[q] == j.subrange(jpos(xs, k), e)[q - jpos(xs, k)]);
        if k == 0 {
            assert(j[q] == x[q]);
            assert(!x.contains(','));
        } else {
            assert(j[q] == ch[q - jpos(xs, k)]);
            if q - jpos(xs, k) >= 2 {
                assert(ch[q - jpos(xs, k)] == x[q - jpos(xs, k) - 2]);
                assert(!x.contains(','));
            }
        }
    }
    lemma_list_pass(j, s, e, s, cursor, istart, zs.take(k), spans);
    // the chunk reads as the item
    assert(crate::text::ws_suffix_len(chunk) == 0);
    assert(crate::text::trim_end(chunk) =~= chunk) by {
        assert(chunk.take(chunk.len() as int) =~= chunk);
    }
    if k == 0 {
        assert(crate::text::ws_prefix_len(chunk) == 0);
        assert(chunk.skip(0) =~= chunk);
    } else {
        assert(crate::text::is_ws(' '));
        assert(chunk.drop_first() =~= x);
        assert(crate::text::ws_prefix_len(x) == 0);
        assert(crate::text::ws_prefix_len(chunk) == 1);
        assert(chunk.skip(1) =~= x);
        assert(crate::text::ws_suffix_len(x) == 0);
        assert(x.take(x.len() as int) =~= x);
    }
    assert(trim(chunk) == x);
    assert(strip_quotes(x) == zs[k]);
    assert(zs.take(k).push(zs[k]) =~= zs.take(k + 1));
    if k + 1 < xs.len() {
        lemma_jchunk_at(xs, k + 1);
        assert(j[e] == jchunk(xs, k + 1)[0]);
        let ad = add_chunk(chunk, cursor, istart, zs.take(k), spans);
        assert(ad.0 == zs.take(k + 1));
        lemma_list_scan(xs, zs, k + 1, crate::text::wadd(crate::text::wadd(cursor, crate::text::wblen(chunk)), 1), istart, ad.1);
    } else {
        assert(zs.take(k + 1) =~= zs);
        assert(zs.take(zs.len() as int) =~= zs);
        assert(e == j.len());
    }
}

/// A list argument written as `[a, b, …]` is read back as its items.
pub proof fn lemma_list_arg(xs: Seq<Seq<char>>)
    requires
        forall|i: int| 0 <= i < xs.len() ==> list_word(#[trigger] xs[i]),
    ensures
        forall|istart: usize|
            (#[trigger] list_from(joined(xs), 0, 0, 0, istart, Seq::empty(), Seq::empty())).0 == xs,
{
    assert forall|istart: usize|
        (#[trigger] list_from(joined(xs), 0, 0, 0, istart, Seq::empty(), Seq::empty())).0 == xs by {
        if xs.len() > 0 {
            assert(xs.take(0) =~= Seq::<Seq<char>>::empty());
            assert forall|i: int| 0 <= i < xs.len() implies strip_quotes(#[trigger] xs[i]) == xs[i] by {
                assert(list_word(xs[i]));
            }
            lemma_list_scan(xs, xs, 0, 0, istart, Seq::empty());
        } else {
            let j = join_with(xs, seq![',', ' ']);
            assert(j =~= Seq::<char>::empty());
            assert(j.subrange(0, 0) =~= Seq::<char>::empty());
            assert(trim(Seq::<char>::empty()) =~= Seq::<char>::empty());
        }
    }
}

// ── Annotation lines ────────────────────────────────────────────────────────

/// A name the annotation parser reads whole: a letter or `_`, then
/// letters, digits and `_`.
pub open spec fn ann_name(n: Seq<char>) -> bool {
    n.len() > 0 && forall|j: int| 0 <= j < n.len() ==> name_char_ok(#[trigger] n[j], j == 0)
}

/// An argument that reads back as itself once written after `: `: a flag,
/// an integer, a list of [`list_word`]s, or text that is not empty, has no
/// surrounding whitespace, is neither bracketed nor quoted, and reads as
/// neither an integer nor (by the host) a float.
pub open spec fn arg_reads_back<H: Fn(HostQuery) -> HostReply>(h: H, a: ArgModel) -> bool {
    match a {
        ArgModel::NoArg => true,
        ArgModel::Int(_) => true,
        ArgModel::Float(_) => false,
        ArgModel::Str(s) => {
            &&& s.len() > 0
            &&& !is_ws(s[0])
            &&& !is_ws(s.last())
            &&& !(s[0] == '[' && s.last() == ']')
            &&& !(s.len() >= 2 && s[0] == '"' && s.last() == '"')
            &&& parse_int(s, 10) is None
            &&& float_parse(h, s) is None
        },
        ArgModel::List(xs) => forall|i: int| 0 <= i < xs.len() ==> list_word(#[trigger] xs[i]),
    }
}

proof fn lemma_int_arg(n: i64)
    ensures
        parse_int(int_text(n as int), 10) == Some(n),
        int_text(n as int).len() > 0,
        int_text(n as int)[0] == '-' || ('0' <= int_text(n as int)[0] <= '9'),
        '0' <= int_text(n as int).last() <= '9',
{
    let m: nat = if n < 0 {
        (-n) as nat
    } else {
        n as nat
    };
    let t = nat_text(m);
    crate::numeric::lemma_nat_text_reads_back(m);
    assert(crate::numeric::digit_of(t.last()) < 10) by {
        assert(crate::numeric::all_digits(t, 10));
        assert(crate::numeric::digit_of(t[t.len() - 1]) < 10);
    }
    let s = int_text(n as int);
    if n < 0 {
        assert(s == seq!['-'] + t);
        assert(s.drop_first() =~= t);
        assert(s.last() == t.last());
    } else {
        assert(s == t);
    }
}

proof fn lemma_name_scan(after: Seq<char>, name: Seq<char>, j: int)
    requires
        ann_name(name),
        name.len() <= after.len(),
        after.take(name.len() as int) == name,
        name.len() < after.len() ==> after[name.len() as int] == ':' || after[name.len() as int] == '(',
        0 <= j <= name.len(),
    ensures
        name_len_from(after, j) == name.len(),
    decreases name.len() - j,
{
    if j < name.len() {
        assert(after[j] == name[j]);
        assert(name_char_ok(name[j], j == 0));
        lemma_name_scan(after, name, j + 1);
    } else if j < after.len() {
        assert(!name_char_ok(':', j == 0));
        assert(!name_char_ok('(', j == 0));
    }
}

/// The argument text written after `: `.
pub open spec fn arg_text<H: Fn(HostQuery) -> HostReply>(h: H, a: ArgModel) -> Seq<char> {
    match a {
        ArgModel::Str(s) => s,
        ArgModel::Int(n) => int_text(n as int),
        ArgModel::Float(f) => crate::host::float_display(h, f),
        ArgModel::List(xs) => seq!['['] + join_with(xs, seq![',', ' ']) + seq![']'],
        ArgModel::NoArg => Seq::empty(),
    }
}

proof fn lemma_ann_text<H: Fn(HostQuery) -> HostReply>(h: H, a: AnnModel)
    requires
        !(a.arg is NoArg),
    ensures
        fmt_ann(h, a) == seq!['@'] + a.name + seq![':', ' '] + arg_text(h, a.arg),
{
    reveal_strlit("@");
    reveal_strlit(": ");
    reveal_strlit(": [");
    reveal_strlit("]");
    reveal_strlit(", ");
    assert(", "@ =~= seq![',', ' ']);
    match a.arg {
        ArgModel::List(xs) => {
            assert(fmt_ann(h, a) =~= seq!['@'] + a.name + seq![':', ' '] + arg_text(h, a.arg));
        },
        _ => {
            assert(fmt_ann(h, a) =~= seq!['@'] + a.name + seq![':', ' '] + arg_text(h, a.arg));
        },
    }
}

/// An annotation the dumper writes reads back with its name and argument.
#[verifier::rlimit(60)]
#[verifier::spinoff_prover]
pub proof fn law_annotation_reads_back<H: Fn(HostQuery) -> HostReply>(h: H, a: AnnModel, ls: Span)
    requires
        ann_name(a.name),
        arg_reads_back(h, a.arg),
    ensures
        sp_annotation(h, fmt_ann(h, a), ls) matches Ok(b) && b.name == a.name && b.arg == a.arg,
{
    reveal_strlit("@");
    let line = fmt_ann(h, a);
    let name = a.name;
    assert(name_char_ok(name[0], true));
    assert(name_char_ok(name.last(), name.len() - 1 == 0));
    if a.arg is NoArg {
        assert(line =~= seq!['@'] + name);
        assert(crate::text::ws_prefix_len(line) == 0);
        assert(line.skip(0) =~= line);
        assert(line.last() == name.last());
        assert(crate::text::ws_suffix_len(line) == 0);
        assert(line.take(line.len() as int) =~= line);
        assert(trim(line) == line);
        let after = line.skip(1);
        assert(after =~= name);
        assert(after.take(name.len() as int) =~= name);
        lemma_name_scan(after, name, 0);
        assert(after.skip(name.len() as int) =~= Seq::<char>::empty());
        assert(crate::text::trim_start(Seq::<char>::empty()) =~= Seq::<char>::empty());
    } else {
        lemma_ann_text(h, a);
        let t = arg_text(h, a.arg);
        // the argument text has no surrounding whitespace
        assert(t.len() > 0 && !is_ws(t[0]) && !is_ws(t.last())) by {
            match a.arg {
                ArgModel::Int(n) => {
                    lemma_int_arg(n);
                },
                _ => {},
            }
        }
        assert(line =~= seq!['@'] + name + seq![':', ' '] + t);
        assert(crate::text::ws_prefix_len(line) == 0);
        assert(line.skip(0) =~= line);
        assert(line.last() == t.last());
        assert(crate::text::ws_suffix_len(line) == 0);
        assert(line.take(line.len() as int) =~= line);
        assert(trim(line) == line);
        let after = line.skip(1);
        assert(after =~= name + seq![':', ' '] + t);
        assert(after.take(name.len() as int) =~= name);
        assert(after[name.len() as int] == ':');
        lemma_name_scan(after, name, 0);
        let tail = after.skip(name.len() as int);
        assert(tail =~= seq![':', ' '] + t);
        assert(crate::text::ws_prefix_len(tail) == 0);
        assert(tail.skip(0) =~= tail);
        let rest = crate::text::trim_start(tail);
        assert(rest == tail);
        let ac = rest.skip(1);
        assert(ac =~= seq![' '] + t);
        assert(ac.drop_first() =~= t);
        assert(crate::text::ws_prefix_len(t) == 0);
        assert(crate::text::ws_prefix_len(ac) == 1);
        assert(ac.skip(1) =~= t);
        assert(crate::text::ws_suffix_len(t) == 0);
        assert(t.take(t.len() as int) =~= t);
        assert(trim(ac) == t);
        assert(t.skip(0) =~= t);
        assert(trim(t) == t);
        match a.arg {
            ArgModel::Int(n) => {
                lemma_int_arg(n);
            },
            ArgModel::List(xs) => {
                let j = joined(xs);
                assert(t.subrange(1, t.len() - 1) =~= j);
                lemma_list_arg(xs);
            },
            _ => {},
        }
    }
}

/// A written annotation line: `@` first, no newline in it, and no
/// whitespace at either end.
pub proof fn lemma_ann_line<H: Fn(HostQuery) -> HostReply>(h: H, a: AnnModel)
    requires
        ann_name(a.name),
        arg_reads_back(h, a.arg),
        forall|q: int| 0 <= q < arg_text(h, a.arg).len() ==> #[trigger] arg_text(h, a.arg)[q] != '\n',
    ensures
        fmt_ann(h, a).len() > 0,
        fmt_ann(h, a)[0] == '@',
        !is_ws(fmt_ann(h, a).last()),
        fmt_ann(h, a).last() != '\r',
        forall|q: int| 0 <= q < fmt_ann(h, a).len() ==> #[trigger] fmt_ann(h, a)[q] != '\n',
        trim(fmt_ann(h, a)) == fmt_ann(h, a),
{
    reveal_strlit("@");
    let line = fmt_ann(h, a);
    let name = a.name;
    assert(name_char_ok(name.last(), name.len() - 1 == 0));
    if a.arg is NoArg {
        assert(line =~= seq!['@'] + name);
        assert(line.last() == name.last());
        assert forall|q: int| 0 <= q < line.len() implies #[trigger] line[q] != '\n' by {
            if q > 0 {
                assert(line[q] == name[q - 1]);
                assert(name_char_ok(name[q - 1], q - 1 == 0));
            }
        }
    } else {
        lemma_ann_text(h, a);
        let t = arg_text(h, a.arg);
        assert(t.len() > 0 && !is_ws(t[0]) && !is_ws(t.last())) by {
            match a.arg {
                ArgModel::Int(n) => {
                    lemma_int_arg(n);
                },
                _ => {},
            }
        }
        assert(line =~= seq!['@'] + name + seq![':', ' '] + t);
        assert(line.last() == t.last());
        assert forall|q: int| 0 <= q < line.len() implies #[trigger] line[q] != '\n' by {
            if 0 < q <= name.len() {
                assert(line[q] == name[q - 1]);
                assert(name_char_ok(name[q - 1], q - 1 == 0));
            } else if q >= name.len() + 3 {
                assert(line[q] == t[q - name.len() - 3]);
            }
        }
    }
    assert(crate::text::ws_prefix_len(line) == 0);
    assert(line.skip(0) =~= line);
    assert(crate::text::ws_suffix_len(line) == 0);
    assert(line.take(line.len() as int) =~= line);
}

/// Each item in double quotes.
pub open spec fn quoted(xs: Seq<Seq<char>>) -> Seq<Seq<char>> {
    xs.map_values(|x: Seq<char>| seq!['"'] + x + seq!['"'])
}

proof fn lemma_quoted_list(xs: Seq<Seq<char>>)
    requires
        forall|i: int| 0 <= i < xs.len() ==> !(#[trigger] xs[i]).contains(','),
    ensures
        forall|istart: usize|
            (#[trigger] list_from(joined(quoted(xs)), 0, 0, 0, istart, Seq::empty(), Seq::empty())).0 == xs,
{
    let qs = quoted(xs);
    let j = joined(qs);
    assert forall|i: int| 0 <= i < qs.len() implies list_chunk(#[trigger] qs[i]) && strip_quotes(qs[i]) == xs[i] by {
        let y = qs[i];
        assert(y == seq!['"'] + xs[i] + seq!['"']);
        assert(y.subrange(1, y.len() - 1) =~= xs[i]);
        if y.contains(',') {
            let p = choose|p: int| 0 <= p < y.len() && y[p] == ',';
            assert(xs[i][p - 1] == ',');
            assert(xs[i].contains(','));
        }
    }
    assert forall|istart: usize|
        (#[trigger] list_from(j, 0, 0, 0, istart, Seq::empty(), Seq::empty())).0 == xs by {
        if xs.len() > 0 {
            assert(xs.take(0) =~= Seq::<Seq<char>>::empty());
            lemma_list_scan(qs, xs, 0, 0, istart, Seq::empty());
        } else {
            assert(j =~= Seq::<char>::empty());
            assert(j.subrange(0, 0) =~= Seq::<char>::empty());
            assert(trim(Seq::<char>::empty()) =~= Seq::<char>::empty());
            assert(xs =~= Seq::<Seq<char>>::empty());
        }
    }
}

/// Items written in double quotes in a list argument, `@name: ["a", "b"]`,
/// are read without their quotes: the argument is the list of the texts
/// between the quotes.
#[verifier::rlimit(60)]
#[verifier::spinoff_prover]
pub proof fn law_quoted_list_items_read_unquoted<H: Fn(HostQuery) -> HostReply>(
    h: H,
    name: Seq<char>,
    xs: Seq<Seq<char>>,
    ls: Span,
)
    requires
        ann_name(name),
        forall|i: int| 0 <= i < xs.len() ==> !(#[trigger] xs[i]).contains(','),
    ensures
        sp_annotation(h, seq!['@'] + name + seq![':', ' ', '['] + joined(quoted(xs)) + seq![']'], ls) matches Ok(b)
            && b.name == name && b.arg == ArgModel::List(xs),
{
    let qs = quoted(xs);
    let j = joined(qs);
    let t = seq!['['] + j + seq![']'];
    let line = seq!['@'] + name + seq![':', ' ', '['] + j + seq![']'];
    assert(line =~= seq!['@'] + name + seq![':', ' '] + t);
    assert(name_char_ok(name[0], true));
    assert(name_char_ok(name.last(), name.len() - 1 == 0));
    assert(crate::text::ws_prefix_len(line) == 0);
    assert(line.skip(0) =~= line);
    assert(line.last() == ']');
    assert(crate::text::ws_suffix_len(line) == 0);
    assert(line.take(line.len() as int) =~= line);
    assert(trim(line) == line);
    let after = line.skip(1);
    assert(after =~= name + seq![':', ' '] + t);
    assert(after.take(name.len() as int) =~= name);
    assert(after[name.len() as int] == ':');
    lemma_name_scan(after, name, 0);
    let tail = after.skip(name.len() as int);
    assert(tail =~= seq![':', ' '] + t);
    assert(crate::text::ws_prefix_len(tail) == 0);
    assert(tail.skip(0) =~= tail);
    let rest = crate::text::trim_start(tail);
    assert(rest == tail);
    let ac = rest.skip(1);
    assert(ac =~= seq![' '] + t);
    assert(ac.drop_first() =~= t);
    assert(crate::text::ws_prefix_len(t) == 0);
    assert(crate::text::ws_prefix_len(ac) == 1);
    assert(ac.skip(1) =~= t);
    assert(crate::text::ws_suffix_len(t) == 0);
    assert(t.take(t.len() as int) =~= t);
    assert(trim(ac) == t);
    assert(t.skip(0) =~= t);
    assert(trim(t) == t);
    assert(t.subrange(1, t.len() - 1) =~= j);
    lemma_quoted_list(xs);
}

/// A string argument in double quotes, `@name: "x"`, is read as the text
/// between the quotes.
#[verifier::rlimit(60)]
#[verifier::spinoff_prover]
pub proof fn law_quoted_arg_read_unquoted<H: Fn(HostQuery) -> HostReply>(
    h: H,
    name: Seq<char>,
    x: Seq<char>,
    ls: Span,
)
    requires
        ann_name(name),
    ensures
        sp_annotation(h, seq!['@'] + name + seq![':', ' ', '"'] + x + seq!['"'], ls) matches Ok(b) && b.name == name
            && b.arg == ArgModel::Str(x),
{
    let t = seq!['"'] + x + seq!['"'];
    let line = seq!['@'] + name + seq![':', ' ', '"'] + x + seq!['"'];
    assert(line =~= seq!['@'] + name + seq![':', ' '] + t);
    assert(name_char_ok(name[0], true));
    assert(name_char_ok(name.last(), name.len() - 1 == 0));
    assert(crate::text::ws_prefix_len(line) == 0);
    assert(line.skip(0) =~= line);
    assert(line.last() == '"');
    assert(crate::text::ws_suffix_len(line) == 0);
    assert(line.take(line.len() as int) =~= line);
    assert(trim(line) == line);
    let after = line.skip(1);
    assert(after =~= name + seq![':', ' '] + t);
    assert(after.take(name.len() as int) =~= name);
    assert(after[name.len() as int] == ':');
    lemma_name_scan(after, name, 0);
    let tail = after.skip(name.len() as int);
    assert(tail =~= seq![':', ' '] + t);
    assert(crate::text::ws_prefix_len(tail) == 0);
    assert(tail.skip(0) =~= tail);
    let rest = crate::text::trim_start(tail);
    assert(rest == tail);
    let ac = rest.skip(1);
    assert(ac =~= seq![' '] + t);
    assert(ac.drop_first() =~= t);
    assert(crate::text::ws_prefix_len(t) == 0);
    assert(crate::text::ws_prefix_len(ac) == 1);
    assert(ac.skip(1) =~= t);
    assert(crate::text::ws_suffix_len(t) == 0);
    assert(t.take(t.len() as int) =~= t);
    assert(trim(ac) == t);
    assert(t.skip(0) =~= t);
    assert(trim(t) == t);
    assert(t.subrange(1, t.len() - 1) =~= x);
}

/// A string argument in parentheses and double quotes, `@name("x")`, is
/// read as the text between the quotes.
#[verifier::rlimit(60)]
#[verifier::spinoff_prover]
pub proof fn law_paren_arg_read_unquoted<H: Fn(HostQuery) -> HostReply>(
    h: H,
    name: Seq<char>,
    x: Seq<char>,
    ls: Span,
)
    requires
        ann_name(name),
    ensures
        sp_annotation(h, seq!['@'] + name + seq!['(', '"'] + x + seq!['"', ')'], ls) matches Ok(b) && b.name == name
            && b.arg == ArgModel::Str(x),
{
    let ir = seq!['"'] + x + seq!['"'];
    let t = seq!['('] + ir + seq![')'];
    let line = seq!['@'] + name + seq!['(', '"'] + x + seq!['"', ')'];
    assert(line =~= seq!['@'] + name + t);
    assert(name_char_ok(name[0], true));
    assert(name_char_ok(name.last(), name.len() - 1 == 0));
    assert(crate::text::ws_prefix_len(line) == 0);
    assert(line.skip(0) =~= line);
    assert(line.last() == ')');
    assert(crate::text::ws_suffix_len(line) == 0);
    assert(line.take(line.len() as int) =~= line);
    assert(trim(line) == line);
    let after = line.skip(1);
    assert(after =~= name + t);
    assert(after.take(name.len() as int) =~= name);
    assert(after[name.len() as int] == '(');
    lemma_name_scan(after, name, 0);
    let tail = after.skip(name.len() as int);
    assert(tail =~= t);
    assert(crate::text::ws_prefix_len(tail) == 0);
    assert(tail.skip(0) =~= tail);
    let rest = crate::text::trim_start(tail);
    assert(rest == tail);
    assert(rest.subrange(1, rest.len() - 1) =~= ir);
    assert(crate::text::ws_prefix_len(ir) == 0);
    assert(ir.skip(0) =~= ir);
    assert(crate::text::ws_suffix_len(ir) == 0);
    assert(ir.take(ir.len() as int) =~= ir);
    assert(trim(ir) == ir);
    assert(ir.subrange(1, ir.len() - 1) =~= x);
}

} // verus!
