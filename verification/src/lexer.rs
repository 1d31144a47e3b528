//! Logical-line lexer.
//!
//! Splits source into [`LineToken`]s, joining continuation lines whose
//! brackets are still open (so multi-line arrays / inline dicts arrive at the
//! parser as a single `Kv` token). Block dicts (`key = #{` on its own line,
//! closed by a `}#` line) stay multi-token so the parser can attach per-key
//! annotations.
//!
//! Text is handled as characters; spans are byte offsets (UTF-8), added
//! with wrapping `usize` arithmetic as in a release build.

use vstd::prelude::*;
use crate::scan::{dec32, depth_step, dict_close_at, dict_open_at, inc32};
use crate::span::Span;
use crate::text::{
    count_leading_ws, lead_bytes, leading_ws_bytes, push_all, slice_of, string_from, to_chars, trim,
    trim_end, trim_start, trimmed, trimmed_end, trimmed_start, wadd, wblen, wbyte_len,
    ws_prefix_len, eq_lit, strings_model,
};

verus! {

// ── Keys and section paths ──────────────────────────────────────────────────

/// `s` with every occurrence of the non-empty `pat` replaced by `rep`,
/// matches taken left to right without overlap (as `str::replace` does).
pub open spec fn replace_all(s: Seq<char>, pat: Seq<char>, rep: Seq<char>) -> Seq<char>
    decreases s.len(),
{
    if s.len() == 0 || pat.len() == 0 {
        s
    } else if pat.len() <= s.len() && s.take(pat.len() as int) == pat {
        rep + replace_all(s.skip(pat.len() as int), pat, rep)
    } else {
        seq![s[0]] + replace_all(s.skip(1), pat, rep)
    }
}

pub(crate) fn replace_chars(s: &[char], pat: &[char], rep: &[char]) -> (r: Vec<char>)
    requires
        pat@.len() > 0,
    ensures
        r@ == replace_all(s@, pat@, rep@),
{
    let mut out: Vec<char> = Vec::new();
    let mut i: usize = 0;
    let n = s.len();
    let m = pat.len();
    assert(s@.skip(0) =~= s@);
    assert(out@ + replace_all(s@, pat@, rep@) =~= replace_all(s@, pat@, rep@));
    while i < n
        invariant
            n == s@.len(),
            m == pat@.len(),
            m > 0,
            i <= n,
            out@ + replace_all(s@.skip(i as int), pat@, rep@) == replace_all(s@, pat@, rep@),
        decreases n - i,
    {
        let ghost rest = s@.skip(i as int);
        let mut hit = false;
        if m <= n - i {
            let head = slice_of(s, i, i + m);
            assert(head@ =~= rest.take(m as int));
            hit = crate::text::seq_eq(head.as_slice(), pat);
        }
        if hit {
            push_all(&mut out, rep);
            assert(rest.skip(m as int) =~= s@.skip(i + m));
            assert(out@ + replace_all(s@.skip(i + m), pat@, rep@) =~= replace_all(s@, pat@, rep@));
            i = i + m;
        } else {
            out.push(s[i]);
            assert(rest.skip(1) =~= s@.skip(i + 1));
            assert(out@ + replace_all(s@.skip(i + 1), pat@, rep@) =~= replace_all(s@, pat@, rep@));
            i = i + 1;
        }
    }
    assert(s@.skip(i as int) =~= Seq::<char>::empty());
    assert(out@ + Seq::<char>::empty() =~= out@);
    out
}

/// A key in double quotes loses them, and `\"` and `\\` inside become `"`
/// and `\`.
pub open spec fn unquote(k: Seq<char>) -> Seq<char> {
    if k.len() >= 2 && k[0] == '"' && k.last() == '"' {
        replace_all(
            replace_all(k.subrange(1, k.len() - 1), seq!['\\', '"'], seq!['"']),
            seq!['\\', '\\'],
            seq!['\\'],
        )
    } else {
        k
    }
}

fn unquote_chars(k: &[char]) -> (r: Vec<char>)
    ensures
        r@ == unquote(k@),
{
    let n = k.len();
    if n >= 2 && k[0] == '"' && k[n - 1] == '"' {
        let inner = slice_of(k, 1, n - 1);
        let mut p1: Vec<char> = Vec::new();
        p1.push('\\');
        p1.push('"');
        let mut r1: Vec<char> = Vec::new();
        r1.push('"');
        let mut p2: Vec<char> = Vec::new();
        p2.push('\\');
        p2.push('\\');
        let mut r2: Vec<char> = Vec::new();
        r2.push('\\');
        assert(p1@ =~= seq!['\\', '"']);
        assert(r1@ =~= seq!['"']);
        assert(p2@ =~= seq!['\\', '\\']);
        assert(r2@ =~= seq!['\\']);
        let a = replace_chars(inner.as_slice(), p1.as_slice(), r1.as_slice());
        replace_chars(a.as_slice(), p2.as_slice(), r2.as_slice())
    } else {
        slice_of(k, 0, n)
    }
}

/// `unquote_key(k)`: see [`unquote`].
pub fn unquote_key(k: &str) -> (r: String)
    ensures
        r@ == unquote(k@),
{
    let c = to_chars(k);
    let u = unquote_chars(c.as_slice());
    string_from(u.as_slice())
}

/// A key's text with `\\` and `"` escaped by a backslash.
pub open spec fn escape_key(s: Seq<char>) -> Seq<char>
    decreases s.len(),
{
    if s.len() == 0 {
        Seq::empty()
    } else {
        (if s[0] == '\\' {
            seq!['\\', '\\']
        } else if s[0] == '"' {
            seq!['\\', '"']
        } else {
            seq![s[0]]
        }) + escape_key(s.drop_first())
    }
}

/// The escaped text with `\"` already read back as `"`.
pub open spec fn escape_slashes(s: Seq<char>) -> Seq<char>
    decreases s.len(),
{
    if s.len() == 0 {
        Seq::empty()
    } else {
        (if s[0] == '\\' {
            seq!['\\', '\\']
        } else {
            seq![s[0]]
        }) + escape_slashes(s.drop_first())
    }
}

proof fn lemma_unescape_quotes(s: Seq<char>)
    ensures
        replace_all(escape_key(s), seq!['\\', '"'], seq!['"']) == escape_slashes(s),
        escape_key(s).len() == 0 || escape_key(s)[0] != '"',
    decreases s.len(),
{
    if s.len() > 0 {
        let rest = s.drop_first();
        lemma_unescape_quotes(rest);
        let er = escape_key(rest);
        let pat = seq!['\\', '"'];
        let e = escape_key(s);
        if s[0] == '\\' {
            assert(e == seq!['\\', '\\'] + er);
            assert(e.take(2) =~= seq!['\\', '\\']);
            assert(e.take(2) != pat) by {
                assert(e.take(2)[1] != pat[1]);
            }
            let t = e.skip(1);
            assert(t =~= seq!['\\'] + er);
            if t.len() >= 2 {
                assert(t.take(2)[1] == er[0]);
                assert(t.take(2) != pat) by {
                    assert(t.take(2)[1] != pat[1]);
                }
            }
            assert(t.skip(1) =~= er);
            assert(replace_all(t, pat, seq!['"']) == seq!['\\'] + replace_all(er, pat, seq!['"']));
            assert(replace_all(e, pat, seq!['"']) =~= seq!['\\'] + replace_all(t, pat, seq!['"']));
            assert(escape_slashes(s) =~= seq!['\\', '\\'] + escape_slashes(rest));
        } else if s[0] == '"' {
            assert(e == seq!['\\', '"'] + er);
            assert(e.take(2) =~= pat);
            assert(e.skip(2) =~= er);
            assert(escape_slashes(s) =~= seq!['"'] + escape_slashes(rest));
        } else {
            assert(e == seq![s[0]] + er);
            if e.len() >= 2 {
                assert(e.take(2) != pat) by {
                    assert(e.take(2)[0] != pat[0]);
                }
            }
            assert(e.skip(1) =~= er);
            assert(escape_slashes(s) =~= seq![s[0]] + escape_slashes(rest));
        }
    }
}

proof fn lemma_unescape_slashes(s: Seq<char>)
    ensures
        replace_all(escape_slashes(s), seq!['\\', '\\'], seq!['\\']) == s,
    decreases s.len(),
{
    if s.len() > 0 {
        let rest = s.drop_first();
        lemma_unescape_slashes(rest);
        let er = escape_slashes(rest);
        let pat = seq!['\\', '\\'];
        let e = escape_slashes(s);
        if s[0] == '\\' {
            assert(e == pat + er);
            assert(e.take(2) =~= pat);
            assert(e.skip(2) =~= er);
        } else {
            assert(e == seq![s[0]] + er);
            if e.len() >= 2 {
                assert(e.take(2) != pat) by {
                    assert(e.take(2)[0] != pat[0]);
                }
            }
            assert(e.skip(1) =~= er);
        }
        assert(s =~= seq![s[0]] + rest);
    } else {
        assert(escape_slashes(s) =~= s);
    }
}

/// Unquoting gives back any text quoted with its backslashes and quotes
/// escaped, and leaves a key that is not in quotes as it is.
pub proof fn law_unquote_key(s: Seq<char>, k: Seq<char>)
    ensures
        unquote(seq!['"'] + escape_key(s) + seq!['"']) == s,
        !(k.len() >= 2 && k[0] == '"' && k.last() == '"') ==> unquote(k) == k,
{
    let q = seq!['"'] + escape_key(s) + seq!['"'];
    assert(q.subrange(1, q.len() - 1) =~= escape_key(s));
    lemma_unescape_quotes(s);
    lemma_unescape_slashes(s);
}

/// The parts of a section name split on `.` outside double quotes (a `"`
/// right after a backslash does not open or close one), each trimmed and
/// unquoted; scanning from `i` with the current part in `buf`.
pub open spec fn split_path_from(s: Seq<char>, i: int, buf: Seq<char>, in_str: bool, prev: char) -> Seq<
    Seq<char>,
>
    decreases s.len() - i,
{
    if i < 0 || i >= s.len() {
        seq![unquote(trim(buf))]
    } else {
        let ch = s[i];
        if ch == '"' && prev != '\\' {
            split_path_from(s, i + 1, buf.push(ch), !in_str, ch)
        } else if ch == '.' && !in_str {
            seq![unquote(trim(buf))] + split_path_from(s, i + 1, Seq::empty(), in_str, ch)
        } else {
            split_path_from(s, i + 1, buf.push(ch), in_str, ch)
        }
    }
}

pub open spec fn section_path(s: Seq<char>) -> Seq<Seq<char>> {
    split_path_from(s, 0, Seq::empty(), false, '\0')
}

/// A part of a section path that reads back as itself: non-empty, with no
/// `.`, `"` or `\\`, and no whitespace at either end.
pub open spec fn plain_part(p: Seq<char>) -> bool {
    &&& p.len() > 0
    &&& !crate::text::is_ws(p[0])
    &&& !crate::text::is_ws(p.last())
    &&& forall|j: int| 0 <= j < p.len() ==> #[trigger] p[j] != '.' && p[j] != '"' && p[j] != '\\'
}

/// The parts joined with `.`.
pub open spec fn join_path(parts: Seq<Seq<char>>) -> Seq<char>
    decreases parts.len(),
{
    if parts.len() <= 1 {
        if parts.len() == 1 {
            parts[0]
        } else {
            Seq::empty()
        }
    } else {
        parts[0] + seq!['.'] + join_path(parts.drop_first())
    }
}

proof fn lemma_path_part(s: Seq<char>, p: Seq<char>, o: int, k: int, buf: Seq<char>, prev: char)
    requires
        plain_part(p),
        0 <= o,
        o + p.len() <= s.len(),
        s.subrange(o, o + p.len()) == p,
        0 <= k <= p.len(),
    ensures
        split_path_from(s, o + k, buf, false, prev) == split_path_from(
            s,
            o + p.len(),
            buf + p.subrange(k, p.len() as int),
            false,
            if k < p.len() {
                p.last()
            } else {
                prev
            },
        ),
    decreases p.len() - k,
{
    if k < p.len() {
        let c = p[k];
        assert(s[o + k] == s.subrange(o, o + p.len())[k]);
        assert(buf.push(c) + p.subrange(k + 1, p.len() as int) =~= buf + p.subrange(k, p.len() as int));
        lemma_path_part(s, p, o, k + 1, buf.push(c), c);
        if k + 1 == p.len() {
            assert(c == p.last());
        }
    } else {
        assert(buf + p.subrange(k, p.len() as int) =~= buf);
    }
}

proof fn lemma_plain_part_reads(p: Seq<char>)
    requires
        plain_part(p),
    ensures
        unquote(trim(p)) == p,
{
    assert(ws_prefix_len(p) == 0);
    assert(p.skip(0) =~= p);
    assert(crate::text::ws_suffix_len(p) == 0);
    assert(p.take(p.len() as int) =~= p);
    assert(p[0] != '"');
}

proof fn lemma_path_parts(s: Seq<char>, parts: Seq<Seq<char>>, o: int, prev: char)
    requires
        parts.len() >= 1,
        forall|j: int| 0 <= j < parts.len() ==> plain_part(#[trigger] parts[j]),
        0 <= o <= s.len(),
        s.subrange(o, s.len() as int) == join_path(parts),
    ensures
        split_path_from(s, o, Seq::empty(), false, prev) == parts,
    decreases parts.len(),
{
    let p = parts[0];
    assert(plain_part(p));
    let e = Seq::<char>::empty();
    if parts.len() == 1 {
        assert(join_path(parts) == p);
        assert(o + p.len() == s.len());
        assert(s.subrange(o, o + p.len()) == p);
        lemma_path_part(s, p, o, 0, e, prev);
        assert(e + p.subrange(0, p.len() as int) =~= p);
        lemma_plain_part_reads(p);
        assert(parts =~= seq![p]);
    } else {
        let rest = parts.drop_first();
        let j = join_path(parts);
        assert(j == p + seq!['.'] + join_path(rest));
        assert(j.len() == p.len() + 1 + join_path(rest).len());
        assert(j.len() == s.len() - o);
        assert forall|q: int| 0 <= q < p.len() implies #[trigger] s.subrange(o, o + p.len())[q] == j[q] by {
            assert(s.subrange(o, s.len() as int)[q] == s[o + q]);
        }
        assert(s.subrange(o, o + p.len()) =~= j.subrange(0, p.len() as int));
        assert(j.subrange(0, p.len() as int) =~= p);
        lemma_path_part(s, p, o, 0, e, prev);
        assert(e + p.subrange(0, p.len() as int) =~= p);
        let m = o + p.len();
        assert(s[m] == j[p.len() as int]) by {
            assert(s.subrange(o, s.len() as int)[p.len() as int] == s[m]);
        }
        assert forall|q: int| 0 <= q < join_path(rest).len() implies #[trigger] s.subrange(m + 1, s.len() as int)[q]
            == join_path(rest)[q] by {
            assert(s.subrange(o, s.len() as int)[p.len() + 1 + q] == s[m + 1 + q]);
            assert(j[p.len() + 1 + q] == join_path(rest)[q]);
        }
        assert(s.subrange(m + 1, s.len() as int) =~= join_path(rest));
        assert forall|q: int| 0 <= q < rest.len() implies plain_part(#[trigger] rest[q]) by {
            assert(rest[q] == parts[q + 1]);
        }
        lemma_path_parts(s, rest, m + 1, '.');
        lemma_plain_part_reads(p);
        assert(parts =~= seq![p] + rest);
    }
}

proof fn lemma_path_nonempty(s: Seq<char>, i: int, buf: Seq<char>, in_str: bool, prev: char)
    ensures
        split_path_from(s, i, buf, in_str, prev).len() >= 1,
    decreases s.len() - i,
{
    if 0 <= i < s.len() {
        let ch = s[i];
        if ch == '"' && prev != '\\' {
            lemma_path_nonempty(s, i + 1, buf.push(ch), !in_str, ch);
        } else if ch == '.' && !in_str {
            lemma_path_nonempty(s, i + 1, Seq::empty(), in_str, ch);
        } else {
            lemma_path_nonempty(s, i + 1, buf.push(ch), in_str, ch);
        }
    }
}

/// Number of `.` outside double quotes from character `i` on (a `"` right
/// after a backslash does not open or close a quote).
pub open spec fn dots_outside(s: Seq<char>, i: int, in_str: bool, prev: char) -> nat
    decreases s.len() - i,
{
    if i < 0 || i >= s.len() {
        0
    } else {
        let ch = s[i];
        if ch == '"' && prev != '\\' {
            dots_outside(s, i + 1, !in_str, ch)
        } else if ch == '.' && !in_str {
            1 + dots_outside(s, i + 1, in_str, ch)
        } else {
            dots_outside(s, i + 1, in_str, ch)
        }
    }
}

proof fn lemma_path_count(s: Seq<char>, i: int, buf: Seq<char>, in_str: bool, prev: char)
    ensures
        split_path_from(s, i, buf, in_str, prev).len() == 1 + dots_outside(s, i, in_str, prev),
    decreases s.len() - i,
{
    if 0 <= i < s.len() {
        let ch = s[i];
        if ch == '"' && prev != '\\' {
            lemma_path_count(s, i + 1, buf.push(ch), !in_str, ch);
        } else if ch == '.' && !in_str {
            lemma_path_count(s, i + 1, Seq::empty(), in_str, ch);
        } else {
            lemma_path_count(s, i + 1, buf.push(ch), in_str, ch);
        }
    }
}

/// A section name has one more part than it has `.` outside quotes.
pub proof fn law_section_path_count(name: Seq<char>)
    ensures
        section_path(name).len() == 1 + dots_outside(name, 0, false, '\0'),
{
    lemma_path_count(name, 0, Seq::empty(), false, '\0');
}

/// Splitting a section name never gives an empty path, and splitting parts
/// joined with `.` gives the parts back when each is plain.
pub proof fn law_section_path(name: Seq<char>, parts: Seq<Seq<char>>)
    ensures
        section_path(name).len() >= 1,
        parts.len() >= 1 && (forall|j: int| 0 <= j < parts.len() ==> plain_part(#[trigger] parts[j]))
            ==> section_path(join_path(parts)) == parts,
{
    lemma_path_nonempty(name, 0, Seq::empty(), false, '\0');
    if parts.len() >= 1 && (forall|j: int| 0 <= j < parts.len() ==> plain_part(#[trigger] parts[j])) {
        let s = join_path(parts);
        assert(s.subrange(0, s.len() as int) =~= s);
        lemma_path_parts(s, parts, 0, '\0');
    }
}

/// `split_section_path(name)`: `a.b.c` gives `["a", "b", "c"]`, and
/// `"a.b".c` gives `["a.b", "c"]`.
pub fn split_section_path(name: &str) -> (parts: Vec<String>)
    ensures
        strings_model(parts@) == section_path(name@),
{
    let s = to_chars(name);
    let mut parts: Vec<String> = Vec::new();
    let mut buf: Vec<char> = Vec::new();
    let mut in_str = false;
    let mut prev = '\0';
    let mut i: usize = 0;
    while i < s.len()
        invariant
            i <= s@.len(),
            s@ == name@,
            strings_model(parts@) + split_path_from(s@, i as int, buf@, in_str, prev) == section_path(
                name@,
            ),
        decreases s@.len() - i,
    {
        let ch = s[i];
        let ghost before = strings_model(parts@);
        if ch == '"' && prev != '\\' {
            in_str = !in_str;
            buf.push(ch);
        } else if ch == '.' && !in_str {
            let t = trimmed(buf.as_slice());
            let u = unquote_chars(t.as_slice());
            parts.push(string_from(u.as_slice()));
            assert(strings_model(parts@) =~= before + seq![unquote(trim(buf@))]);
            buf = Vec::new();
        } else {
            buf.push(ch);
        }
        prev = ch;
        i = i + 1;
    }
    let ghost before = strings_model(parts@);
    let t = trimmed(buf.as_slice());
    let u = unquote_chars(t.as_slice());
    parts.push(string_from(u.as_slice()));
    assert(strings_model(parts@) =~= before + seq![unquote(trim(buf@))]);
    parts
}

// ── Comments and brackets ───────────────────────────────────────────────────

/// Where a line's `# comment` begins (the line's length when it has none),
/// scanning from `i`. A `#` inside a string, the `#` of `#{`, and a `#`
/// right after a `}` (the end of `}#`, spaces allowed between) start none.
pub open spec fn comment_cut(s: Seq<char>, i: int, in_str: bool, esc: bool) -> int
    decreases s.len() - i,
{
    if i < 0 || i >= s.len() {
        s.len() as int
    } else if esc {
        comment_cut(s, i + 1, in_str, false)
    } else if s[i] == '\\' {
        comment_cut(s, i + 1, in_str, true)
    } else if s[i] == '"' {
        comment_cut(s, i + 1, !in_str, false)
    } else if s[i] == '#' && !in_str {
        if dict_open_at(s, i) {
            comment_cut(s, i + 2, in_str, false)
        } else if trim_end(s.take(i)).len() > 0 && trim_end(s.take(i)).last() == '}' {
            comment_cut(s, i + 1, in_str, false)
        } else {
            i
        }
    } else {
        comment_cut(s, i + 1, in_str, false)
    }
}

pub proof fn lemma_comment_cut_bound(s: Seq<char>, i: int, in_str: bool, esc: bool)
    requires
        0 <= i,
    ensures
        0 <= comment_cut(s, i, in_str, esc) <= s.len(),
    decreases s.len() - i,
{
    if i < 0 || i >= s.len() {
    } else if esc {
        lemma_comment_cut_bound(s, i + 1, in_str, false);
    } else if s[i] == '\\' {
        lemma_comment_cut_bound(s, i + 1, in_str, true);
    } else if s[i] == '"' {
        lemma_comment_cut_bound(s, i + 1, !in_str, false);
    } else if s[i] == '#' && !in_str {
        if dict_open_at(s, i) {
            lemma_comment_cut_bound(s, i + 2, in_str, false);
        } else if trim_end(s.take(i)).len() > 0 && trim_end(s.take(i)).last() == '}' {
            lemma_comment_cut_bound(s, i + 1, in_str, false);
        }
    } else {
        lemma_comment_cut_bound(s, i + 1, in_str, false);
    }
}

/// The line with its comment removed and trailing whitespace trimmed.
pub open spec fn strip_comment(s: Seq<char>) -> Seq<char> {
    trim_end(s.take(comment_cut(s, 0, false, false)))
}

fn strip_comment_chars(line: &[char]) -> (r: Vec<char>)
    ensures
        r@ == strip_comment(line@),
{
    proof {
        lemma_comment_cut_bound(line@, 0, false, false);
    }
    let n = line.len();
    let mut i: usize = 0;
    let mut in_str = false;
    let mut esc = false;
    while i < n
        invariant
            n == line@.len(),
            i <= n,
            comment_cut(line@, 0, false, false) == comment_cut(line@, i as int, in_str, esc),
        decreases n - i,
    {
        let c = line[i];
        if esc {
            esc = false;
            i = i + 1;
        } else if c == '\\' {
            esc = true;
            i = i + 1;
        } else if c == '"' {
            in_str = !in_str;
            i = i + 1;
        } else if c == '#' && !in_str {
            if i + 1 < n && line[i + 1] == '{' {
                i = i + 2;
            } else {
                let head = slice_of(line, 0, i);
                assert(head@ =~= line@.take(i as int));
                let pre = trimmed_end(head.as_slice());
                if pre.len() > 0 && pre[pre.len() - 1] == '}' {
                    i = i + 1;
                } else {
                    return pre;
                }
            }
        } else {
            i = i + 1;
        }
    }
    assert(line@.take(n as int) =~= line@);
    trimmed_end(line)
}

/// Net nesting depth of a line: `(`, `[`, `{`, `#{` against `)`, `]`, `}`,
/// `}#`, outside strings, wrapping as an `i32`; scanning from `i`.
pub open spec fn delta_from(s: Seq<char>, i: int, d: i32, in_str: bool, esc: bool) -> i32
    decreases s.len() - i,
{
    if i < 0 || i >= s.len() {
        d
    } else if esc {
        delta_from(s, i + 1, d, in_str, false)
    } else if s[i] == '\\' {
        delta_from(s, i + 1, d, in_str, true)
    } else if s[i] == '"' {
        delta_from(s, i + 1, d, !in_str, false)
    } else if !in_str && dict_open_at(s, i) {
        delta_from(s, i + 2, inc32(d), in_str, false)
    } else if !in_str && dict_close_at(s, i) {
        delta_from(s, i + 2, dec32(d), in_str, false)
    } else if !in_str {
        delta_from(s, i + 1, depth_step(s[i], d), in_str, false)
    } else {
        delta_from(s, i + 1, d, in_str, false)
    }
}

pub open spec fn bracket_delta(s: Seq<char>) -> i32 {
    delta_from(s, 0, 0, false, false)
}

fn bracket_delta_chars(s: &[char]) -> (d: i32)
    ensures
        d == bracket_delta(s@),
{
    let n = s.len();
    let mut i: usize = 0;
    let mut d: i32 = 0;
    let mut in_str = false;
    let mut esc = false;
    while i < n
        invariant
            n == s@.len(),
            i <= n,
            bracket_delta(s@) == delta_from(s@, i as int, d, in_str, esc),
        decreases n - i,
    {
        let c = s[i];
        if esc {
            esc = false;
            i = i + 1;
        } else if c == '\\' {
            esc = true;
            i = i + 1;
        } else if c == '"' {
            in_str = !in_str;
            i = i + 1;
        } else if !in_str && c == '#' && i + 1 < n && s[i + 1] == '{' {
            d = d.wrapping_add(1);
            i = i + 2;
        } else if !in_str && c == '}' && i + 1 < n && s[i + 1] == '#' {
            d = d.wrapping_sub(1);
            i = i + 2;
        } else if !in_str {
            if c == '(' || c == '[' || c == '{' {
                d = d.wrapping_add(1);
            } else if c == ')' || c == ']' || c == '}' {
                d = d.wrapping_sub(1);
            }
            i = i + 1;
        } else {
            i = i + 1;
        }
    }
    d
}

// ── Physical lines ──────────────────────────────────────────────────────────

/// One physical line: its 1-based number, the byte offset where it starts,
/// and its text without the line break (a `\r` before `\n` is dropped).
pub struct Line {
    pub lineno: u32,
    pub start: usize,
    pub text: Vec<char>,
}

pub struct LineModel {
    pub lineno: u32,
    pub start: usize,
    pub text: Seq<char>,
}

impl Line {
    pub open spec fn model(self) -> LineModel {
        LineModel { lineno: self.lineno, start: self.start, text: self.text@ }
    }
}

pub open spec fn lines_model(v: Seq<Line>) -> Seq<LineModel> {
    v.map_values(|l: Line| l.model())
}

/// The physical lines from character `i` on; the current line began at
/// character `start`.
pub open spec fn lines_from(s: Seq<char>, i: int, start: int, lineno: u32) -> Seq<LineModel>
    decreases s.len() - i,
{
    if i < 0 || i >= s.len() {
        if 0 <= start < s.len() {
            seq![LineModel { lineno, start: wblen(s.take(start)), text: s.subrange(start, s.len() as int) }]
        } else {
            Seq::empty()
        }
    } else if s[i] == '\n' {
        let end = if i > start && s[i - 1] == '\r' {
            i - 1
        } else {
            i
        };
        seq![LineModel { lineno, start: wblen(s.take(start)), text: s.subrange(start, end) }]
            + lines_from(s, i + 1, i + 1, vstd::wrapping::u32_specs::wrapping_add(lineno, 1))
    } else {
        lines_from(s, i + 1, start, lineno)
    }
}

pub open spec fn physical_lines(s: Seq<char>) -> Seq<LineModel> {
    lines_from(s, 0, 0, 1)
}

/// The character positions where the physical lines from character `i` on
/// begin (the current line began at `start`).
pub open spec fn line_chars_from(s: Seq<char>, i: int, start: int) -> Seq<int>
    decreases s.len() - i,
{
    if i < 0 || i >= s.len() {
        if 0 <= start < s.len() {
            seq![start]
        } else {
            Seq::empty()
        }
    } else if s[i] == '\n' {
        seq![start] + line_chars_from(s, i + 1, i + 1)
    } else {
        line_chars_from(s, i + 1, start)
    }
}

/// A line ending at character `e` is the last of `s`: nothing follows but
/// a final line break.
pub open spec fn line_ends_text(s: Seq<char>, e: int) -> bool {
    ||| e == s.len() && e > 0 && s[e - 1] != '\n'
    ||| e + 1 == s.len() && s[e] == '\n'
    ||| e + 2 == s.len() && s[e] == '\r' && s[e + 1] == '\n'
}

/// Line `l` is the text of `s` from character `p` on, and starts at the
/// byte offset of that character.
pub open spec fn line_at_char(s: Seq<char>, l: LineModel, p: int) -> bool {
    &&& 0 <= p
    &&& p + l.text.len() <= s.len()
    &&& s.subrange(p, p + l.text.len()) == l.text
    &&& l.start == wblen(s.take(p))
    &&& forall|j: int| 0 <= j < l.text.len() ==> #[trigger] l.text[j] != '\n'
}

proof fn lemma_lines_from_at(s: Seq<char>, i: int, start: int, lineno: u32)
    requires
        0 <= start <= i <= s.len(),
        forall|j: int| start <= j < i ==> #[trigger] s[j] != '\n',
    ensures
        ({
            let r = lines_from(s, i, start, lineno);
            let ps = line_chars_from(s, i, start);
            &&& r.len() == ps.len()
            &&& r.len() <= s.len() - i + 1
            &&& r.len() > 0 ==> ps[0] == start
            &&& forall|k: int| 0 <= k < r.len() ==> line_at_char(s, #[trigger] r[k], ps[k])
            &&& lineno + (s.len() - i) + 1 <= u32::MAX ==> forall|k: int|
                0 <= k < r.len() ==> (#[trigger] r[k]).lineno == lineno + k
            &&& forall|k: int|
                #![trigger r[k]]
                0 <= k < r.len() - 1 ==> ps[k] + r[k].text.len() < s.len() && ps[k + 1] == ps[k]
                    + r[k].text.len() + 1 + (if s[ps[k] + r[k].text.len()] == '\r' { 1int } else { 0int })
                    && s[ps[k + 1] - 1] == '\n'
            &&& r.len() == 0 ==> start >= s.len()
            &&& r.len() > 0 ==> line_ends_text(s, ps[r.len() - 1] + r[r.len() - 1].text.len())
        }),
    decreases s.len() - i,
{
    let r = lines_from(s, i, start, lineno);
    let ps = line_chars_from(s, i, start);
    if i >= s.len() {
        if start < s.len() {
            let l0 = r[0];
            assert(l0.text == s.subrange(start, s.len() as int));
            assert forall|j: int| 0 <= j < l0.text.len() implies #[trigger] l0.text[j] != '\n' by {
                assert(l0.text[j] == s[start + j]);
            }
            assert(line_at_char(s, l0, start));
            assert(s[s.len() - 1] == l0.text[l0.text.len() - 1]);
        }
    } else if s[i] == '\n' {
        let end = if i > start && s[i - 1] == '\r' {
            i - 1
        } else {
            i
        };
        let l0 = LineModel { lineno, start: wblen(s.take(start)), text: s.subrange(start, end) };
        let n1 = vstd::wrapping::u32_specs::wrapping_add(lineno, 1);
        lemma_lines_from_at(s, i + 1, i + 1, n1);
        let r1 = lines_from(s, i + 1, i + 1, n1);
        let p1 = line_chars_from(s, i + 1, i + 1);
        assert(r == seq![l0] + r1);
        assert(ps == seq![start] + p1);
        assert(r[0] == l0);
        if r1.len() == 0 {
            assert(i + 1 == s.len());
        } else {
            assert(r[r.len() - 1] == r1[r1.len() - 1]);
            assert(ps[r.len() - 1] == p1[p1.len() - 1]);
        }
        assert(ps[0] == start);
        assert forall|j: int| 0 <= j < l0.text.len() implies #[trigger] l0.text[j] != '\n' by {
            assert(l0.text[j] == s[start + j]);
        }
        assert(line_at_char(s, l0, start));
        assert forall|k: int| 0 <= k < r.len() implies line_at_char(s, #[trigger] r[k], ps[k]) by {
            if k > 0 {
                assert(r[k] == r1[k - 1]);
                assert(ps[k] == p1[k - 1]);
            }
        }
        if lineno + (s.len() - i) + 1 <= u32::MAX {
            assert(n1 == lineno + 1);
            assert forall|k: int| 0 <= k < r.len() implies (#[trigger] r[k]).lineno == lineno + k by {
                if k > 0 {
                    assert(r[k] == r1[k - 1]);
                }
            }
        }
        assert forall|k: int|
            #![trigger r[k]]
            0 <= k < r.len() - 1 implies ps[k] + r[k].text.len() < s.len() && ps[k + 1] == ps[k] + r[k].text.len()
                + 1 + (if s[ps[k] + r[k].text.len()] == '\r' { 1int } else { 0int }) && s[ps[k + 1] - 1] == '\n' by {
            if k > 0 {
                assert(r[k] == r1[k - 1]);
                assert(ps[k] == p1[k - 1]);
                assert(ps[k + 1] == p1[k]);
            } else {
                assert(ps[1] == p1[0]);
                assert(r1.len() > 0 ==> p1[0] == i + 1);
                if i > start && s[i - 1] == '\r' {
                    assert(l0.text.len() == i - 1 - start);
                } else {
                    assert(l0.text.len() == i - start);
                }
            }
        }
    } else {
        lemma_lines_from_at(s, i + 1, start, lineno);
    }
}

/// The physical lines of a text: each is the text at its own character
/// and byte offset, holds no `\n`, and the next one begins just past the
/// `\n` (and a `\r` before it) that ends it; while line numbers fit in
/// `u32`, they count from 1.
pub proof fn law_physical_lines(s: Seq<char>)
    ensures
        ({
            let r = physical_lines(s);
            let ps = line_chars_from(s, 0, 0);
            &&& r.len() == ps.len()
            &&& r.len() > 0 ==> ps[0] == 0
            &&& forall|k: int| 0 <= k < r.len() ==> line_at_char(s, #[trigger] r[k], ps[k])
            &&& s.len() + 2 <= u32::MAX ==> forall|k: int|
                0 <= k < r.len() ==> (#[trigger] r[k]).lineno == k + 1
            &&& forall|k: int|
                #![trigger r[k]]
                0 <= k < r.len() - 1 ==> ps[k] + r[k].text.len() < s.len() && ps[k + 1] == ps[k]
                    + r[k].text.len() + 1 + (if s[ps[k] + r[k].text.len()] == '\r' { 1int } else { 0int })
                    && s[ps[k + 1] - 1] == '\n'
            &&& r.len() == 0 <==> s.len() == 0
            &&& r.len() > 0 ==> line_ends_text(s, ps[r.len() - 1] + r[r.len() - 1].text.len())
        }),
{
    lemma_lines_from_at(s, 0, 0, 1);
    if s.len() > 0 {
        assert(physical_lines(s).len() > 0);
    }
}

fn physical_lines_of(s: &[char]) -> (r: Vec<Line>)
    ensures
        lines_model(r@) == physical_lines(s@),
{
    let n = s.len();
    let mut out: Vec<Line> = Vec::new();
    let mut start: usize = 0;
    let mut start_off: usize = 0;
    let mut pos: usize = 0;
    let mut lineno: u32 = 1;
    let mut i: usize = 0;
    assert(lines_model(out@) + physical_lines(s@) =~= physical_lines(s@));
    while i < n
        invariant
            n == s@.len(),
            start <= i <= n,
            start_off == crate::text::wblen(s@.take(start as int)),
            pos == crate::text::wblen(s@.take(i as int)),
            lines_model(out@) + lines_from(s@, i as int, start as int, lineno) == physical_lines(s@),
        decreases n - i,
    {
        proof {
            crate::text::lemma_wblen_step(s@, i as int);
        }
        let ghost before = lines_model(out@);
        if s[i] == '\n' {
            let end: usize = if i > start && s[i - 1] == '\r' {
                i - 1
            } else {
                i
            };
            let text = slice_of(s, start, end);
            let line = Line { lineno, start: start_off, text };
            let ghost lm = line.model();
            out.push(line);
            assert(lines_model(out@) =~= before + seq![lm]);
            start = i + 1;
            pos = pos.wrapping_add(1);
            start_off = pos;
            lineno = lineno.wrapping_add(1);
        } else {
            pos = pos.wrapping_add(crate::text::char_width(s[i]));
        }
        i = i + 1;
    }
    if start < n {
        let ghost before = lines_model(out@);
        let text = slice_of(s, start, n);
        let line = Line { lineno, start: start_off, text };
        let ghost lm = line.model();
        out.push(line);
        assert(lines_model(out@) =~= before + seq![lm]);
    }
    assert(lines_model(out@) =~= lines_model(out@) + Seq::<LineModel>::empty());
    out
}

// ── Line shapes ─────────────────────────────────────────────────────────────

/// `[ name ]`: the trimmed name, when it is not empty and holds no bracket.
pub open spec fn match_section(content: Seq<char>) -> Option<Seq<char>> {
    if content.len() == 0 || content[0] != '[' || content.last() != ']' {
        None
    } else {
        let inner = trim(content.subrange(1, content.len() - 1));
        if inner.len() == 0 || inner.contains('[') || inner.contains(']') {
            None
        } else {
            Some(inner)
        }
    }
}

fn contains_char(s: &[char], c: char) -> (r: bool)
    ensures
        r == s@.contains(c),
{
    let mut i: usize = 0;
    while i < s.len()
        invariant
            i <= s@.len(),
            forall|j: int| 0 <= j < i ==> s@[j] != c,
        decreases s@.len() - i,
    {
        if s[i] == c {
            assert(s@[i as int] == c);
            return true;
        }
        i = i + 1;
    }
    false
}

fn match_section_chars(content: &[char]) -> (r: Option<Vec<char>>)
    ensures
        match r {
            Some(v) => match_section(content@) == Some(v@),
            None => match_section(content@) is None,
        },
{
    let n = content.len();
    if n == 0 || content[0] != '[' || content[n - 1] != ']' {
        return None;
    }
    let mid = slice_of(content, 1, n - 1);
    let inner = trimmed(mid.as_slice());
    if inner.len() == 0 || contains_char(inner.as_slice(), '[') || contains_char(inner.as_slice(), ']') {
        None
    } else {
        Some(inner)
    }
}

/// End of a quoted key (just past its closing `"`, or the end of `w`),
/// scanning from `j`.
pub open spec fn qkey_end(w: Seq<char>, j: int, esc: bool) -> int
    decreases w.len() - j,
{
    if j < 0 || j >= w.len() {
        w.len() as int
    } else if esc {
        qkey_end(w, j + 1, false)
    } else if w[j] == '\\' {
        qkey_end(w, j + 1, true)
    } else if w[j] == '"' {
        j + 1
    } else {
        qkey_end(w, j + 1, false)
    }
}

pub proof fn lemma_qkey_end_bound(w: Seq<char>, j: int, esc: bool)
    requires
        0 <= j,
    ensures
        j <= w.len() ==> j <= qkey_end(w, j, esc) <= w.len(),
        j > w.len() ==> qkey_end(w, j, esc) == w.len(),
    decreases w.len() - j,
{
    if j < 0 || j >= w.len() {
    } else if esc {
        lemma_qkey_end_bound(w, j + 1, false);
    } else if w[j] == '\\' {
        lemma_qkey_end_bound(w, j + 1, true);
    } else if w[j] == '"' {
    } else {
        lemma_qkey_end_bound(w, j + 1, false);
    }
}

pub open spec fn is_bare_key_char(c: char) -> bool {
    ('a' <= c <= 'z') || ('A' <= c <= 'Z') || ('0' <= c <= '9') || c == '_' || c == '-'
}

/// Number of leading bare-key characters (`[A-Za-z0-9_-]`).
pub open spec fn bare_len(w: Seq<char>, j: int) -> int
    decreases w.len() - j,
{
    if j < 0 || j >= w.len() || !is_bare_key_char(w[j]) {
        j
    } else {
        bare_len(w, j + 1)
    }
}

pub proof fn lemma_bare_len_bound(w: Seq<char>, j: int)
    requires
        0 <= j <= w.len(),
    ensures
        j <= bare_len(w, j) <= w.len(),
    decreases w.len() - j,
{
    if j < w.len() && is_bare_key_char(w[j]) {
        lemma_bare_len_bound(w, j + 1);
    }
}

/// A `key = value` line: the key as written, its offset, the value text
/// and its offset (offsets in bytes from the start of the raw line). `raw`
/// is the line, `stripped` the line without its comment.
pub open spec fn match_kv(raw: Seq<char>, stripped: Seq<char>) -> Option<(Seq<char>, usize, Seq<char>, usize)> {
    let lead_chars = ws_prefix_len(raw);
    let leading = lead_bytes(raw);
    let work = stripped.skip(
        if lead_chars <= stripped.len() {
            lead_chars as int
        } else {
            stripped.len() as int
        },
    );
    if work.len() == 0 {
        None
    } else {
        let quoted = work[0] == '"';
        let j = if quoted {
            qkey_end(work, 1, false)
        } else {
            bare_len(work, 0)
        };
        let ok = if quoted {
            work[j - 1] == '"'
        } else {
            j > 0
        };
        if !ok {
            None
        } else {
            let key = work.take(j);
            let after_key = work.skip(j);
            let akt = trim_start(after_key);
            if akt.len() == 0 || akt[0] != '=' {
                None
            } else {
                let after_eq = akt.skip(1);
                let aet = trim_start(after_eq);
                if aet.len() == 0 {
                    None
                } else {
                    Some(
                        (
                            key,
                            leading,
                            aet,
                            wadd(
                                wadd(wadd(wadd(leading, wblen(key)), lead_bytes(after_key)), 1),
                                lead_bytes(after_eq),
                            ),
                        ),
                    )
                }
            }
        }
    }
}

fn match_kv_chars(raw: &[char], stripped: &[char]) -> (r: Option<(Vec<char>, usize, Vec<char>, usize)>)
    ensures
        match r {
            Some((k, ko, v, vo)) => match_kv(raw@, stripped@) == Some((k@, ko, v@, vo)),
            None => match_kv(raw@, stripped@) is None,
        },
{
    let lead_chars = count_leading_ws(raw);
    let leading = leading_ws_bytes(raw);
    let sn = stripped.len();
    let cut = if lead_chars <= sn {
        lead_chars
    } else {
        sn
    };
    let work = slice_of(stripped, cut, sn);
    assert(work@ =~= stripped@.skip(cut as int));
    let n = work.len();
    if n == 0 {
        return None;
    }
    let quoted = work[0] == '"';
    let mut j: usize;
    if quoted {
        proof {
            lemma_qkey_end_bound(work@, 1, false);
        }
        j = 1;
        let mut esc = false;
        let mut done = false;
        while j < n && !done
            invariant
                n == work@.len(),
                1 <= j <= n,
                !done ==> qkey_end(work@, 1, false) == qkey_end(work@, j as int, esc),
                done ==> qkey_end(work@, 1, false) == j,
            decreases n - j,
        {
            if esc {
                esc = false;
                j = j + 1;
            } else if work[j] == '\\' {
                esc = true;
                j = j + 1;
            } else if work[j] == '"' {
                j = j + 1;
                done = true;
            } else {
                j = j + 1;
            }
        }
        if work[j - 1] != '"' {
            return None;
        }
    } else {
        proof {
            lemma_bare_len_bound(work@, 0);
        }
        j = 0;
        while j < n && (('a' <= work[j] && work[j] <= 'z') || ('A' <= work[j] && work[j] <= 'Z') || (
        '0' <= work[j] && work[j] <= '9') || work[j] == '_' || work[j] == '-')
            invariant
                n == work@.len(),
                j <= n,
                bare_len(work@, 0) == bare_len(work@, j as int),
            decreases n - j,
        {
            j = j + 1;
        }
        if j == 0 {
            return None;
        }
    }
    let key = slice_of(work.as_slice(), 0, j);
    let after_key = slice_of(work.as_slice(), j, n);
    assert(key@ =~= work@.take(j as int));
    assert(after_key@ =~= work@.skip(j as int));
    let akt = trimmed_start(after_key.as_slice());
    if akt.len() == 0 || akt[0] != '=' {
        return None;
    }
    let after_eq = slice_of(akt.as_slice(), 1, akt.len());
    assert(after_eq@ =~= akt@.skip(1));
    let aet = trimmed_start(after_eq.as_slice());
    if aet.len() == 0 {
        return None;
    }
    let voff = leading.wrapping_add(wbyte_len(key.as_slice())).wrapping_add(
        leading_ws_bytes(after_key.as_slice()),
    ).wrapping_add(1).wrapping_add(leading_ws_bytes(after_eq.as_slice()));
    Some((key, leading, aet, voff))
}

// ── Tokens ──────────────────────────────────────────────────────────────────

#[derive(Debug, Clone, Copy, PartialEq, Eq, Structural)]
pub enum LineKind {
    Blank,
    Section,
    Vars,
    Annotation,
    Kv,
    BlockOpen,
    BlockClose,
}

#[derive(Debug)]
pub struct LineToken {
    pub kind: LineKind,
    /// Original source text (joined for multi-line values).
    pub raw: String,
    /// Source span covering `raw`.
    pub span: Span,
    /// Comment-stripped, trimmed content.
    pub content: String,
    /// 1-based number of the first physical line of this token.
    pub lineno: u32,
    /// For `Kv` / `BlockOpen`: the unquoted key.
    pub key: String,
    pub key_span: Span,
    /// For `Kv`: the right-hand side (comment-stripped, joined).
    pub value: String,
    pub value_span: Span,
    /// For `Section`: the section name, still dot-encoded.
    pub section: String,
    pub section_span: Span,
    /// For `Annotation`: the full `@name…` text.
    pub annotation_text: String,
}

pub struct TokModel {
    pub kind: LineKind,
    pub raw: Seq<char>,
    pub span: Span,
    pub content: Seq<char>,
    pub lineno: u32,
    pub key: Seq<char>,
    pub key_span: Span,
    pub value: Seq<char>,
    pub value_span: Span,
    pub section: Seq<char>,
    pub section_span: Span,
    pub annotation_text: Seq<char>,
}

impl View for LineToken {
    type V = TokModel;

    open spec fn view(&self) -> TokModel {
        TokModel {
            kind: self.kind,
            raw: self.raw@,
            span: self.span,
            content: self.content@,
            lineno: self.lineno,
            key: self.key@,
            key_span: self.key_span,
            value: self.value@,
            value_span: self.value_span,
            section: self.section@,
            section_span: self.section_span,
            annotation_text: self.annotation_text@,
        }
    }
}

impl Clone for LineToken {
    fn clone(&self) -> (r: Self)
        ensures
            r@ == self@,
    {
        LineToken {
            kind: self.kind,
            raw: self.raw.clone(),
            span: self.span,
            content: self.content.clone(),
            lineno: self.lineno,
            key: self.key.clone(),
            key_span: self.key_span,
            value: self.value.clone(),
            value_span: self.value_span,
            section: self.section.clone(),
            section_span: self.section_span,
            annotation_text: self.annotation_text.clone(),
        }
    }
}

pub open spec fn toks_model(v: Seq<LineToken>) -> Seq<TokModel> {
    v.map_values(|t: LineToken| t@)
}

/// A token with only its kind, text, span, content and line number set.
pub open spec fn plain_tok(kind: LineKind, raw: Seq<char>, span: Span, content: Seq<char>, lineno: u32) -> TokModel {
    TokModel {
        kind,
        raw,
        span,
        content,
        lineno,
        key: Seq::empty(),
        key_span: Span::dummy_spec(),
        value: Seq::empty(),
        value_span: Span::dummy_spec(),
        section: Seq::empty(),
        section_span: Span::dummy_spec(),
        annotation_text: Seq::empty(),
    }
}

fn plain_token(kind: LineKind, raw: &[char], span: Span, content: &[char], lineno: u32) -> (t: LineToken)
    ensures
        t@ == plain_tok(kind, raw@, span, content@, lineno),
{
    let e: Vec<char> = Vec::new();
    LineToken {
        kind,
        raw: string_from(raw),
        span,
        content: string_from(content),
        lineno,
        key: string_from(e.as_slice()),
        key_span: Span::dummy(),
        value: string_from(e.as_slice()),
        value_span: Span::dummy(),
        section: string_from(e.as_slice()),
        section_span: Span::dummy(),
        annotation_text: string_from(e.as_slice()),
    }
}

/// Continuation of a value whose brackets are open after line `j`: the next
/// lines are appended (raw text after a `\n`, stripped text after a space)
/// while the depth stays positive. Yields the last line taken, the joined
/// raw text and value, and the byte offset where the last line ends.
pub open spec fn join_from(
    lines: Seq<LineModel>,
    j: int,
    depth: i32,
    raw: Seq<char>,
    value: Seq<char>,
    last_end: usize,
) -> (int, Seq<char>, Seq<char>, usize)
    decreases lines.len() - j,
{
    if depth > 0 && 0 <= j && j + 1 < lines.len() {
        let nl = lines[j + 1];
        let ns = trim(strip_comment(nl.text));
        join_from(
            lines,
            j + 1,
            vstd::wrapping::i32_specs::wrapping_add(depth, bracket_delta(ns)),
            raw + seq!['\n'] + nl.text,
            value + seq![' '] + ns,
            wadd(nl.start, wblen(nl.text)),
        )
    } else {
        (j, raw, value, last_end)
    }
}

pub proof fn lemma_join_from_bound(
    lines: Seq<LineModel>,
    j: int,
    depth: i32,
    raw: Seq<char>,
    value: Seq<char>,
    last_end: usize,
)
    requires
        0 <= j < lines.len(),
    ensures
        j <= join_from(lines, j, depth, raw, value, last_end).0 < lines.len(),
    decreases lines.len() - j,
{
    if depth > 0 && 0 <= j && j + 1 < lines.len() {
        let nl = lines[j + 1];
        let ns = trim(strip_comment(nl.text));
        lemma_join_from_bound(
            lines,
            j + 1,
            vstd::wrapping::i32_specs::wrapping_add(depth, bracket_delta(ns)),
            raw + seq!['\n'] + nl.text,
            value + seq![' '] + ns,
            wadd(nl.start, wblen(nl.text)),
        );
    }
}

/// The token that starts at line `i`, and the index of the line after it.
pub open spec fn lex_step(lines: Seq<LineModel>, i: int) -> (TokModel, int) {
    let l = lines[i];
    let raw = l.text;
    let line_start = l.start;
    let lineno = l.lineno;
    let line_end = wadd(line_start, wblen(raw));
    let span = Span { start: line_start, end: line_end };
    let stripped = strip_comment(raw);
    let content = trim(stripped);
    if content.len() == 0 {
        (plain_tok(LineKind::Blank, raw, span, Seq::empty(), lineno), i + 1)
    } else if content == "[vars]"@ {
        (plain_tok(LineKind::Vars, raw, span, content, lineno), i + 1)
    } else {
        match match_section(content) {
            Some(name) => {
                let ss = wadd(
                    wadd(wadd(line_start, lead_bytes(raw)), 1),
                    lead_bytes(content.subrange(1, content.len() - 1)),
                );
                let t = plain_tok(LineKind::Section, raw, span, content, lineno);
                (TokModel { section: name, section_span: Span { start: ss, end: wadd(ss, wblen(name)) }, ..t }, i + 1)
            },
            None => if content[0] == '@' {
                let t = plain_tok(LineKind::Annotation, raw, span, content, lineno);
                (TokModel { annotation_text: content, ..t }, i + 1)
            } else if content == "}#"@ {
                (plain_tok(LineKind::BlockClose, raw, span, content, lineno), i + 1)
            } else {
                match match_kv(raw, stripped) {
                    Some((key, koff, value, voff)) => {
                        let ks = wadd(line_start, koff);
                        let key_span = Span { start: ks, end: wadd(ks, wblen(key)) };
                        if trim(value) == "#{"@ {
                            let t = plain_tok(LineKind::BlockOpen, raw, span, trim_start(stripped), lineno);
                            (TokModel { key: unquote(key), key_span, ..t }, i + 1)
                        } else {
                            let jn = join_from(lines, i, bracket_delta(value), raw, value, line_end);
                            let vs = wadd(line_start, voff);
                            let last = lines[jn.0];
                            let ve = if jn.0 == i {
                                wadd(vs, wblen(value))
                            } else {
                                wadd(
                                    wadd(last.start, lead_bytes(last.text)),
                                    wblen(trim(strip_comment(last.text))),
                                )
                            };
                            let t = plain_tok(
                                LineKind::Kv,
                                jn.1,
                                Span { start: line_start, end: jn.3 },
                                trim_start(stripped),
                                lineno,
                            );
                            (
                                TokModel {
                                    key: unquote(key),
                                    key_span,
                                    value: jn.2,
                                    value_span: Span { start: vs, end: ve },
                                    ..t
                                },
                                jn.0 + 1,
                            )
                        }
                    },
                    None => (plain_tok(LineKind::Blank, raw, span, content, lineno), i + 1),
                }
            },
        }
    }
}

pub proof fn lemma_lex_step_bound(lines: Seq<LineModel>, i: int)
    requires
        0 <= i < lines.len(),
    ensures
        i < lex_step(lines, i).1 <= lines.len(),
{
    let l = lines[i];
    let stripped = strip_comment(l.text);
    match match_kv(l.text, stripped) {
        Some((key, koff, value, voff)) => {
            lemma_join_from_bound(lines, i, bracket_delta(value), l.text, value, wadd(l.start, wblen(l.text)));
        },
        None => {},
    }
}

/// The tokens from line `i` on.
pub open spec fn lex_from(lines: Seq<LineModel>, i: int) -> Seq<TokModel>
    decreases lines.len() - i,
{
    if i < 0 || i >= lines.len() {
        Seq::empty()
    } else {
        proof {
            lemma_lex_step_bound(lines, i);
        }
        seq![lex_step(lines, i).0] + lex_from(lines, lex_step(lines, i).1)
    }
}

/// The tokens of a source text.
pub open spec fn tokens_of(source: Seq<char>) -> Seq<TokModel> {
    lex_from(physical_lines(source), 0)
}

/// The lines `lines` are the physical lines of `s`, the `k`-th beginning at
/// character `ps[k]`, in a text without `\r`.
pub open spec fn lines_fit(s: Seq<char>, lines: Seq<LineModel>, ps: Seq<int>) -> bool {
    &&& lines.len() == ps.len()
    &&& forall|j: int| 0 <= j < s.len() ==> #[trigger] s[j] != '\r'
    &&& forall|k: int| 0 <= k < lines.len() ==> line_at_char(s, #[trigger] lines[k], ps[k])
    &&& forall|k: int|
        #![trigger lines[k]]
        0 <= k < lines.len() - 1 ==> ps[k] + lines[k].text.len() < s.len() && ps[k + 1] == ps[k]
            + lines[k].text.len() + 1 + (if s[ps[k] + lines[k].text.len()] == '\r' { 1int } else { 0int })
            && s[ps[k + 1] - 1] == '\n'
    &&& lines.len() == 0 <==> s.len() == 0
    &&& lines.len() > 0 ==> line_ends_text(s, ps[lines.len() - 1] + lines[lines.len() - 1].text.len())
}

/// The lines are numbered from 1 in order.
pub open spec fn lines_numbered(lines: Seq<LineModel>) -> bool {
    forall|k: int| 0 <= k < lines.len() ==> (#[trigger] lines[k]).lineno == k + 1
}

/// The token's raw text is the source from character `p` to `q`, and its
/// span the byte offsets of those characters.
pub open spec fn tok_at(s: Seq<char>, t: TokModel) -> bool {
    exists|p: int, q: int|
        0 <= p <= q <= s.len() && #[trigger] s.subrange(p, q) == t.raw && t.span.start == wblen(s.take(p))
            && t.span.end == wblen(s.take(q))
}

proof fn lemma_line_tail(s: Seq<char>, lines: Seq<LineModel>, ps: Seq<int>, k: int)
    requires
        lines_fit(s, lines, ps),
        0 <= k < lines.len(),
    ensures
        wadd(lines[k].start, wblen(lines[k].text)) == wblen(s.take(ps[k] + lines[k].text.len())),
        s.subrange(ps[k], ps[k] + lines[k].text.len()) == lines[k].text,
        0 <= ps[k],
        ps[k] + lines[k].text.len() <= s.len(),
{
    let l = lines[k];
    assert(line_at_char(s, l, ps[k]));
    crate::text::lemma_wblen_split(s, ps[k], l.text.len() as int);
}

proof fn lemma_join_at(
    s: Seq<char>,
    lines: Seq<LineModel>,
    ps: Seq<int>,
    i: int,
    j: int,
    depth: i32,
    raw: Seq<char>,
    value: Seq<char>,
    last_end: usize,
)
    requires
        lines_fit(s, lines, ps),
        0 <= i <= j < lines.len(),
        0 <= ps[i] <= ps[j] + lines[j].text.len() <= s.len(),
        raw == s.subrange(ps[i], ps[j] + lines[j].text.len()),
        last_end == wblen(s.take(ps[j] + lines[j].text.len())),
    ensures
        ({
            let jn = join_from(lines, j, depth, raw, value, last_end);
            &&& i <= jn.0 < lines.len()
            &&& ps[i] <= ps[jn.0] + lines[jn.0].text.len() <= s.len()
            &&& jn.1 == s.subrange(ps[i], ps[jn.0] + lines[jn.0].text.len())
            &&& jn.3 == wblen(s.take(ps[jn.0] + lines[jn.0].text.len()))
        }),
    decreases lines.len() - j,
{
    if depth > 0 && j + 1 < lines.len() {
        let m = j + 1;
        let nl = lines[m];
        let ns = trim(strip_comment(nl.text));
        assert(lines[j] == lines[j]);
        let e = ps[j] + lines[j].text.len();
        assert(s[e] != '\r');
        assert(ps[m] == e + 1);
        assert(s[e] == '\n');
        lemma_line_tail(s, lines, ps, m);
        let raw2 = raw + seq!['\n'] + nl.text;
        assert(raw2 =~= s.subrange(ps[i], ps[m] + nl.text.len()));
        lemma_join_at(
            s,
            lines,
            ps,
            i,
            m,
            vstd::wrapping::i32_specs::wrapping_add(depth, bracket_delta(ns)),
            raw2,
            value + seq![' '] + ns,
            wadd(nl.start, wblen(nl.text)),
        );
    }
}

proof fn lemma_tok_at(s: Seq<char>, t: TokModel, p: int, q: int)
    requires
        0 <= p <= q <= s.len(),
        s.subrange(p, q) == t.raw,
        t.span.start == wblen(s.take(p)),
        t.span.end == wblen(s.take(q)),
    ensures
        tok_at(s, t),
{
}

proof fn lemma_lex_step_at(s: Seq<char>, lines: Seq<LineModel>, ps: Seq<int>, i: int)
    requires
        lines_fit(s, lines, ps),
        0 <= i < lines.len(),
    ensures
        tok_at(s, lex_step(lines, i).0),
        lines_numbered(lines) ==> lex_step(lines, i).0.lineno == i + 1,
        i < lex_step(lines, i).1 <= lines.len(),
        ({
            let n = lex_step(lines, i).1;
            &&& 0 <= ps[i] <= ps[n - 1] + lines[n - 1].text.len() <= s.len()
            &&& lex_step(lines, i).0.raw == s.subrange(ps[i], ps[n - 1] + lines[n - 1].text.len())
        }),
{
    lemma_lex_step_bound(lines, i);
    let l = lines[i];
    lemma_line_tail(s, lines, ps, i);
    let e = ps[i] + l.text.len();
    let t = lex_step(lines, i).0;
    let stripped = strip_comment(l.text);
    let content = trim(stripped);
    let line_end = wadd(l.start, wblen(l.text));
    if content.len() != 0 && content != "[vars]"@ && match_section(content) is None && content[0] != '@'
        && content != "}#"@ {
        match match_kv(l.text, stripped) {
            Some((key, koff, value, voff)) => {
                if trim(value) != "#{"@ {
                    lemma_join_at(s, lines, ps, i, i, bracket_delta(value), l.text, value, line_end);
                    let jn = join_from(lines, i, bracket_delta(value), l.text, value, line_end);
                    lemma_tok_at(s, t, ps[i], ps[jn.0] + lines[jn.0].text.len());
                } else {
                    lemma_tok_at(s, t, ps[i], e);
                }
            },
            None => {
                lemma_tok_at(s, t, ps[i], e);
            },
        }
    } else {
        lemma_tok_at(s, t, ps[i], e);
    }
}

proof fn lemma_lex_from_at(s: Seq<char>, lines: Seq<LineModel>, ps: Seq<int>, i: int)
    requires
        lines_fit(s, lines, ps),
        0 <= i <= lines.len(),
    ensures
        ({
            let r = lex_from(lines, i);
            &&& forall|k: int| 0 <= k < r.len() ==> tok_at(s, #[trigger] r[k])
            &&& lines_numbered(lines) ==> forall|k: int| 0 <= k < r.len() ==> (#[trigger] r[k]).lineno >= i + 1
            &&& lines_numbered(lines) ==> forall|a: int, b: int|
                0 <= a < b < r.len() ==> (#[trigger] r[a]).lineno < (#[trigger] r[b]).lineno
            &&& lines_numbered(lines) && r.len() > 0 ==> r[0].lineno == i + 1
        }),
    decreases lines.len() - i,
{
    if i < lines.len() {
        lemma_lex_step_bound(lines, i);
        let st = lex_step(lines, i);
        lemma_lex_step_at(s, lines, ps, i);
        lemma_lex_from_at(s, lines, ps, st.1);
        let r = lex_from(lines, i);
        let rest = lex_from(lines, st.1);
        assert(r == seq![st.0] + rest);
        assert forall|k: int| 0 <= k < r.len() implies tok_at(s, #[trigger] r[k]) by {
            if k > 0 {
                assert(r[k] == rest[k - 1]);
            }
        }
        if lines_numbered(lines) {
            assert forall|k: int| 0 <= k < r.len() implies (#[trigger] r[k]).lineno >= i + 1 by {
                if k > 0 {
                    assert(r[k] == rest[k - 1]);
                }
            }
            assert forall|a: int, b: int| 0 <= a < b < r.len() implies (#[trigger] r[a]).lineno < (
            #[trigger] r[b]).lineno by {
                assert(r[b] == rest[b - 1]);
                if a > 0 {
                    assert(r[a] == rest[a - 1]);
                }
            }
        }
    }
}

/// The raw texts of tokens joined with `\n`.
pub open spec fn raws_joined(ts: Seq<TokModel>) -> Seq<char>
    decreases ts.len(),
{
    if ts.len() == 0 {
        Seq::empty()
    } else if ts.len() == 1 {
        ts[0].raw
    } else {
        ts[0].raw + seq!['\n'] + raws_joined(ts.drop_first())
    }
}

#[verifier::rlimit(40)]
proof fn lemma_lex_from_join(s: Seq<char>, lines: Seq<LineModel>, ps: Seq<int>, i: int)
    requires
        lines_fit(s, lines, ps),
        0 <= i < lines.len(),
    ensures
        ({
            let n = lines.len() as int;
            &&& 0 <= ps[i] <= ps[n - 1] + lines[n - 1].text.len() <= s.len()
            &&& raws_joined(lex_from(lines, i)) == s.subrange(ps[i], ps[n - 1] + lines[n - 1].text.len())
        }),
    decreases lines.len() - i,
{
    let n = lines.len() as int;
    let st = lex_step(lines, i);
    lemma_lex_step_at(s, lines, ps, i);
    let r = lex_from(lines, i);
    let rest = lex_from(lines, st.1);
    assert(r == seq![st.0] + rest);
    let q = ps[st.1 - 1] + lines[st.1 - 1].text.len();
    if st.1 < n {
        lemma_lex_from_join(s, lines, ps, st.1);
        assert(rest.len() > 0);
        assert(r.drop_first() =~= rest);
        let k = st.1 - 1;
        assert(lines[k] == lines[k]);
        assert(s[q] != '\r');
        assert(ps[st.1] == q + 1);
        assert(raws_joined(r) == st.0.raw + seq!['\n'] + raws_joined(rest));
        let e = ps[n - 1] + lines[n - 1].text.len();
        let a = s.subrange(ps[i], q);
        let b = s.subrange(q + 1, e);
        assert(st.0.raw == a);
        assert(raws_joined(rest) == b);
        assert(a + seq!['\n'] + b =~= s.subrange(ps[i], e)) by {
            assert(s[q] == '\n');
        }
    } else {
        assert(rest.len() == 0);
    }
}

/// In a text without `\r`, the raw texts of its tokens joined with `\n`
/// give the text back, but for a final line break.
pub proof fn law_tokens_rejoin(s: Seq<char>)
    requires
        forall|j: int| 0 <= j < s.len() ==> #[trigger] s[j] != '\r',
    ensures
        raws_joined(tokens_of(s)) + (if s.len() > 0 && s.last() == '\n' {
            seq!['\n']
        } else {
            Seq::empty()
        }) == s,
{
    law_physical_lines(s);
    let lines = physical_lines(s);
    let ps = line_chars_from(s, 0, 0);
    assert(lines_fit(s, lines, ps));
    if s.len() == 0 {
        assert(tokens_of(s) =~= Seq::<TokModel>::empty());
        assert(raws_joined(tokens_of(s)) + Seq::<char>::empty() =~= s);
    } else {
        lemma_lex_from_join(s, lines, ps, 0);
        let n = lines.len() as int;
        let e = ps[n - 1] + lines[n - 1].text.len();
        assert(ps[0] == 0);
        if e == s.len() {
            assert(s.subrange(0, e) =~= s);
        } else {
            assert(s.subrange(0, e) + seq!['\n'] =~= s);
        }
    }
}

/// In a text without `\r`, each token's raw text is the source between the
/// byte offsets of its span (a continued value's lines joined by their
/// `\n`); while line numbers fit in `u32`, they count up from 1, strictly
/// increasing.
pub proof fn law_tokens_at_their_text(s: Seq<char>)
    requires
        forall|j: int| 0 <= j < s.len() ==> #[trigger] s[j] != '\r',
    ensures
        forall|k: int| 0 <= k < tokens_of(s).len() ==> tok_at(s, #[trigger] tokens_of(s)[k]),
        s.len() + 2 <= u32::MAX ==> forall|a: int, b: int|
            0 <= a < b < tokens_of(s).len() ==> (#[trigger] tokens_of(s)[a]).lineno < (
            #[trigger] tokens_of(s)[b]).lineno,
        s.len() + 2 <= u32::MAX && tokens_of(s).len() > 0 ==> tokens_of(s)[0].lineno == 1,
{
    law_physical_lines(s);
    let lines = physical_lines(s);
    let ps = line_chars_from(s, 0, 0);
    assert(lines_fit(s, lines, ps));
    if s.len() + 2 <= u32::MAX {
        assert(lines_numbered(lines));
    }
    lemma_lex_from_at(s, lines, ps, 0);
}

#[verifier::rlimit(40)]
fn lex_line(lines: &Vec<Line>, i: usize) -> (r: (LineToken, usize))
    requires
        i < lines@.len(),
    ensures
        r.0@ == lex_step(lines_model(lines@), i as int).0,
        r.1 == lex_step(lines_model(lines@), i as int).1,
{
    let ghost lm = lines_model(lines@);
    proof {
        lemma_lex_step_bound(lm, i as int);
    }
    let n_lines = lines.len();
    let l = &lines[i];
    assert(lm[i as int] == l.model());
    let raw = l.text.as_slice();
    let line_start = l.start;
    let lineno = l.lineno;
    let line_end = line_start.wrapping_add(wbyte_len(raw));
    let span = Span::new(line_start, line_end);
    let stripped = strip_comment_chars(raw);
    let content = trimmed(stripped.as_slice());
    let e: Vec<char> = Vec::new();
    if content.len() == 0 {
        return (plain_token(LineKind::Blank, raw, span, e.as_slice(), lineno), i + 1);
    }
    if eq_lit(content.as_slice(), "[vars]") {
        return (plain_token(LineKind::Vars, raw, span, content.as_slice(), lineno), i + 1);
    }
    match match_section_chars(content.as_slice()) {
        Some(name) => {
            let inner = slice_of(content.as_slice(), 1, content.len() - 1);
            let ss = line_start.wrapping_add(leading_ws_bytes(raw)).wrapping_add(1).wrapping_add(
                leading_ws_bytes(inner.as_slice()),
            );
            let mut t = plain_token(LineKind::Section, raw, span, content.as_slice(), lineno);
            t.section = string_from(name.as_slice());
            t.section_span = Span::new(ss, ss.wrapping_add(wbyte_len(name.as_slice())));
            return (t, i + 1);
        },
        None => {},
    }
    if content[0] == '@' {
        let mut t = plain_token(LineKind::Annotation, raw, span, content.as_slice(), lineno);
        t.annotation_text = string_from(content.as_slice());
        return (t, i + 1);
    }
    if eq_lit(content.as_slice(), "}#") {
        return (plain_token(LineKind::BlockClose, raw, span, content.as_slice(), lineno), i + 1);
    }
    match match_kv_chars(raw, stripped.as_slice()) {
        Some((key, koff, value, voff)) => {
            let ks = line_start.wrapping_add(koff);
            let key_span = Span::new(ks, ks.wrapping_add(wbyte_len(key.as_slice())));
            let lead_stripped = trimmed_start(stripped.as_slice());
            let uk = unquote_chars(key.as_slice());
            let tv = trimmed(value.as_slice());
            if eq_lit(tv.as_slice(), "#{") {
                let mut t = plain_token(LineKind::BlockOpen, raw, span, lead_stripped.as_slice(), lineno);
                t.key = string_from(uk.as_slice());
                t.key_span = key_span;
                return (t, i + 1);
            }
            let mut jraw = slice_of(raw, 0, raw.len());
            let mut jval = slice_of(value.as_slice(), 0, value.len());
            let mut depth = bracket_delta_chars(value.as_slice());
            let mut last_end = line_end;
            let mut j = i;
            assert(jraw@ =~= raw@);
            assert(jval@ =~= value@);
            let ghost whole = join_from(lm, i as int, bracket_delta(value@), raw@, value@, line_end);
            while depth > 0 && j + 1 < n_lines
                invariant
                    lm == lines_model(lines@),
                    n_lines == lines@.len(),
                    i <= j < lines@.len(),
                    whole == join_from(lm, j as int, depth, jraw@, jval@, last_end),
                decreases lines@.len() - j,
            {
                j = j + 1;
                let nl = &lines[j];
                assert(lm[j as int] == nl.model());
                let ns0 = strip_comment_chars(nl.text.as_slice());
                let ns = trimmed(ns0.as_slice());
                let ghost r0 = jraw@;
                let ghost v0 = jval@;
                jraw.push('\n');
                push_all(&mut jraw, nl.text.as_slice());
                jval.push(' ');
                push_all(&mut jval, ns.as_slice());
                assert(jraw@ =~= r0 + seq!['\n'] + nl.text@);
                assert(jval@ =~= v0 + seq![' '] + ns@);
                depth = depth.wrapping_add(bracket_delta_chars(ns.as_slice()));
                last_end = nl.start.wrapping_add(wbyte_len(nl.text.as_slice()));
            }
            let mut t = plain_token(
                LineKind::Kv,
                jraw.as_slice(),
                Span::new(line_start, last_end),
                lead_stripped.as_slice(),
                lineno,
            );
            t.key = string_from(uk.as_slice());
            t.key_span = key_span;
            t.value = string_from(jval.as_slice());
            let vs = line_start.wrapping_add(voff);
            let ve = if j == i {
                vs.wrapping_add(wbyte_len(value.as_slice()))
            } else {
                let ll = &lines[j];
                assert(lm[j as int] == ll.model());
                let lst = strip_comment_chars(ll.text.as_slice());
                let lt = trimmed(lst.as_slice());
                ll.start.wrapping_add(leading_ws_bytes(ll.text.as_slice())).wrapping_add(wbyte_len(lt.as_slice()))
            };
            t.value_span = Span::new(vs, ve);
            (t, j + 1)
        },
        None => (plain_token(LineKind::Blank, raw, span, content.as_slice(), lineno), i + 1),
    }
}

/// Splits `source` into logical-line tokens.
pub fn tokenize(source: &str) -> (toks: Vec<LineToken>)
    ensures
        toks_model(toks@) == tokens_of(source@),
{
    let chars = to_chars(source);
    let lines = physical_lines_of(chars.as_slice());
    let ghost lm = lines_model(lines@);
    let mut tokens: Vec<LineToken> = Vec::new();
    let mut i: usize = 0;
    assert(toks_model(tokens@) + lex_from(lm, 0) =~= tokens_of(source@));
    while i < lines.len()
        invariant
            lm == lines_model(lines@),
            lm == physical_lines(source@),
            i <= lines@.len(),
            toks_model(tokens@) + lex_from(lm, i as int) == tokens_of(source@),
        decreases lines@.len() - i,
    {
        let ghost before = toks_model(tokens@);
        let (tok, next) = lex_line(&lines, i);
        proof {
            lemma_lex_step_bound(lm, i as int);
        }
        let ghost tm = tok@;
        tokens.push(tok);
        assert(toks_model(tokens@) =~= before + seq![tm]);
        i = next;
    }
    assert(toks_model(tokens@) =~= toks_model(tokens@) + lex_from(lm, i as int));
    tokens
}

} // verus!
