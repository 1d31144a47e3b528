//! Bracket-aware scanners used by the value parser: find an operator at
//! nesting depth 0, split on a top-level separator, and cut an arithmetic
//! expression into operand and operator tokens.
//!
//! The scanners walk the characters of their input; nesting depth counts
//! `(`, `[`, `{` and `#{` against `)`, `]`, `}` and `}#` outside string
//! literals, and is an `i32` that wraps as in a release build. The text they
//! hand back keeps the input's characters, and offsets are UTF-8 byte
//! offsets.

use vstd::prelude::*;
use crate::text::{
    char_width, is_whitespace, is_ws, lemma_trim_blank, lemma_trim_blank_push, lemma_trim_slice,
    lemma_ws_prefix_concat, ws_prefix_len, lemma_weight_concat,
    lemma_weight_single, lemma_weight_subrange, lemma_weight_trim, lemma_wblen_step, slice_of, trim,
    trimmed, wadd, wblen, weight,
};

verus! {

pub open spec fn inc32(d: i32) -> i32 {
    vstd::wrapping::i32_specs::wrapping_add(d, 1)
}

pub open spec fn dec32(d: i32) -> i32 {
    vstd::wrapping::i32_specs::wrapping_sub(d, 1)
}

pub open spec fn is_open(c: char) -> bool {
    c == '(' || c == '[' || c == '{'
}

pub open spec fn is_close(c: char) -> bool {
    c == ')' || c == ']' || c == '}'
}

/// Depth after a single bracket character.
pub open spec fn depth_step(c: char, d: i32) -> i32 {
    if is_open(c) {
        inc32(d)
    } else if is_close(c) {
        dec32(d)
    } else {
        d
    }
}

pub open spec fn dict_open_at(s: Seq<char>, i: int) -> bool {
    s[i] == '#' && i + 1 < s.len() && s[i + 1] == '{'
}

pub open spec fn dict_close_at(s: Seq<char>, i: int) -> bool {
    s[i] == '}' && i + 1 < s.len() && s[i + 1] == '#'
}

pub open spec fn matches_at(s: Seq<char>, op: Seq<char>, i: int) -> bool {
    i + op.len() <= s.len() && s.subrange(i, i + op.len()) == op
}

fn step(c: char, d: i32) -> (r: i32)
    ensures
        r == depth_step(c, d),
{
    if c == '(' || c == '[' || c == '{' {
        d.wrapping_add(1)
    } else if c == ')' || c == ']' || c == '}' {
        d.wrapping_sub(1)
    } else {
        d
    }
}

fn matches_here(s: &[char], op: &[char], i: usize) -> (r: bool)
    requires
        i <= s@.len(),
    ensures
        r == matches_at(s@, op@, i as int),
{
    if op.len() > s.len() - i {
        return false;
    }
    assert(i + op@.len() <= s@.len());
    let mut k: usize = 0;
    while k < op.len()
        invariant
            i + op@.len() <= s@.len(),
            i + op@.len() <= s.len(),
            k <= op@.len(),
            forall|j: int| 0 <= j < k ==> s@[i + j] == op@[j],
        decreases op@.len() - k,
    {
        if s[i + k] != op[k] {
            assert(s@.subrange(i as int, i + op@.len())[k as int] != op@[k as int]);
            return false;
        }
        k = k + 1;
    }
    assert(s@.subrange(i as int, i + op@.len()) =~= op@);
    true
}

// ── find_op_top_level ───────────────────────────────────────────────────────

/// Index (in characters) of the first occurrence of `op` at nesting depth 0
/// outside string literals, scanning from `i` in the given state.
pub open spec fn find_op_from(s: Seq<char>, op: Seq<char>, i: int, d: i32, in_str: bool, esc: bool) -> Option<int>
    decreases s.len() - i,
{
    if i < 0 || i >= s.len() {
        None
    } else if esc {
        find_op_from(s, op, i + 1, d, in_str, false)
    } else if s[i] == '\\' {
        find_op_from(s, op, i + 1, d, in_str, true)
    } else if s[i] == '"' {
        find_op_from(s, op, i + 1, d, !in_str, false)
    } else if in_str {
        find_op_from(s, op, i + 1, d, in_str, false)
    } else if dict_open_at(s, i) {
        find_op_from(s, op, i + 2, inc32(d), in_str, false)
    } else if dict_close_at(s, i) {
        find_op_from(s, op, i + 2, dec32(d), in_str, false)
    } else {
        let d2 = depth_step(s[i], d);
        if d2 == 0 && matches_at(s, op, i) {
            Some(i)
        } else {
            find_op_from(s, op, i + 1, d2, in_str, false)
        }
    }
}

pub open spec fn find_op(s: Seq<char>, op: Seq<char>) -> Option<int> {
    find_op_from(s, op, 0, 0, false, false)
}

pub proof fn lemma_find_op_from_bound(s: Seq<char>, op: Seq<char>, i: int, d: i32, in_str: bool, esc: bool)
    ensures
        find_op_from(s, op, i, d, in_str, esc) matches Some(k) ==> i <= k < s.len() && matches_at(s, op, k),
    decreases s.len() - i,
{
    if i < 0 || i >= s.len() {
    } else if esc {
        lemma_find_op_from_bound(s, op, i + 1, d, in_str, false);
    } else if s[i] == '\\' {
        lemma_find_op_from_bound(s, op, i + 1, d, in_str, true);
    } else if s[i] == '"' {
        lemma_find_op_from_bound(s, op, i + 1, d, !in_str, false);
    } else if in_str {
        lemma_find_op_from_bound(s, op, i + 1, d, in_str, false);
    } else if dict_open_at(s, i) {
        lemma_find_op_from_bound(s, op, i + 2, inc32(d), in_str, false);
    } else if dict_close_at(s, i) {
        lemma_find_op_from_bound(s, op, i + 2, dec32(d), in_str, false);
    } else {
        let d2 = depth_step(s[i], d);
        lemma_find_op_from_bound(s, op, i + 1, d2, in_str, false);
    }
}

/// Character index of the first top-level occurrence of `op`.
pub fn find_op_top_level(s: &[char], op: &[char]) -> (r: Option<usize>)
    ensures
        match r {
            Some(k) => find_op(s@, op@) == Some(k as int) && k < s@.len() && matches_at(s@, op@, k as int),
            None => find_op(s@, op@) is None,
        },
{
    proof {
        lemma_find_op_from_bound(s@, op@, 0, 0, false, false);
    }
    let mut i: usize = 0;
    let mut d: i32 = 0;
    let mut in_str = false;
    let mut esc = false;
    while i < s.len()
        invariant
            i <= s@.len(),
            find_op(s@, op@) == find_op_from(s@, op@, i as int, d, in_str, esc),
        decreases s@.len() - i,
    {
        let c = s[i];
        if esc {
            esc = false;
            i = i + 1;
        } else if c == '\\' {
            esc = true;
            i = i + 1;
        } else if c == '"' {
            in_str = !in_str;
            i = i + 1;
        } else if in_str {
            i = i + 1;
        } else if c == '#' && i + 1 < s.len() && s[i + 1] == '{' {
            d = d.wrapping_add(1);
            i = i + 2;
        } else if c == '}' && i + 1 < s.len() && s[i + 1] == '#' {
            d = d.wrapping_sub(1);
            i = i + 2;
        } else {
            d = step(c, d);
            if d == 0 && matches_here(s, op, i) {
                return Some(i);
            }
            i = i + 1;
        }
    }
    None
}

// ── split_top_level ─────────────────────────────────────────────────────────

/// Pieces of `s` between top-level occurrences of `sep`, each with the byte
/// offset (from `abs`) where it starts; a trailing empty piece is dropped.
/// Scanning from `i` in the given state; the current piece started at
/// character `start`, at offset `start_off`.
pub open spec fn split_from(
    s: Seq<char>,
    sep: char,
    abs: usize,
    i: int,
    d: i32,
    in_str: bool,
    esc: bool,
    start: int,
    start_off: usize,
) -> Seq<(Seq<char>, usize)>
    decreases s.len() - i,
{
    if i < 0 || i >= s.len() {
        if 0 <= start < s.len() {
            seq![(s.subrange(start, s.len() as int), start_off)]
        } else {
            Seq::empty()
        }
    } else if esc {
        split_from(s, sep, abs, i + 1, d, in_str, false, start, start_off)
    } else if s[i] == '\\' {
        split_from(s, sep, abs, i + 1, d, in_str, true, start, start_off)
    } else if s[i] == '"' {
        split_from(s, sep, abs, i + 1, d, !in_str, false, start, start_off)
    } else if in_str {
        split_from(s, sep, abs, i + 1, d, in_str, false, start, start_off)
    } else if dict_open_at(s, i) {
        split_from(s, sep, abs, i + 2, inc32(d), in_str, false, start, start_off)
    } else if dict_close_at(s, i) {
        split_from(s, sep, abs, i + 2, dec32(d), in_str, false, start, start_off)
    } else {
        let d2 = depth_step(s[i], d);
        if d2 == 0 && s[i] == sep {
            seq![(s.subrange(start, i), start_off)] + split_from(
                s,
                sep,
                abs,
                i + 1,
                d2,
                in_str,
                false,
                i + 1,
                wadd(wadd(abs, wblen(s.take(i))), 1),
            )
        } else {
            split_from(s, sep, abs, i + 1, d2, in_str, false, start, start_off)
        }
    }
}

pub open spec fn split_top(s: Seq<char>, sep: char, abs: usize) -> Seq<(Seq<char>, usize)> {
    split_from(s, sep, abs, 0, 0, false, false, 0, abs)
}

pub open spec fn pieces_light(r: Seq<(Seq<char>, usize)>, w: nat) -> bool {
    forall|k: int| 0 <= k < r.len() ==> weight(#[trigger] r[k].0) <= w
}

pub proof fn lemma_split_from_weight(
    s: Seq<char>,
    sep: char,
    abs: usize,
    i: int,
    d: i32,
    in_str: bool,
    esc: bool,
    start: int,
    start_off: usize,
)
    requires
        0 <= start <= i <= s.len(),
    ensures
        pieces_light(split_from(s, sep, abs, i, d, in_str, esc, start, start_off), weight(s)),
    decreases s.len() - i,
{
    let r = split_from(s, sep, abs, i, d, in_str, esc, start, start_off);
    if i >= s.len() {
        if 0 <= start < s.len() {
            lemma_weight_subrange(s, start, s.len() as int);
            assert(r[0].0 == s.subrange(start, s.len() as int));
        }
    } else if esc {
        lemma_split_from_weight(s, sep, abs, i + 1, d, in_str, false, start, start_off);
    } else if s[i] == '\\' {
        lemma_split_from_weight(s, sep, abs, i + 1, d, in_str, true, start, start_off);
    } else if s[i] == '"' {
        lemma_split_from_weight(s, sep, abs, i + 1, d, !in_str, false, start, start_off);
    } else if in_str {
        lemma_split_from_weight(s, sep, abs, i + 1, d, in_str, false, start, start_off);
    } else if dict_open_at(s, i) {
        lemma_split_from_weight(s, sep, abs, i + 2, inc32(d), in_str, false, start, start_off);
    } else if dict_close_at(s, i) {
        lemma_split_from_weight(s, sep, abs, i + 2, dec32(d), in_str, false, start, start_off);
    } else {
        let d2 = depth_step(s[i], d);
        if d2 == 0 && s[i] == sep {
            let off = wadd(wadd(abs, wblen(s.take(i))), 1);
            lemma_split_from_weight(s, sep, abs, i + 1, d2, in_str, false, i + 1, off);
            lemma_weight_subrange(s, start, i);
            let rest = split_from(s, sep, abs, i + 1, d2, in_str, false, i + 1, off);
            assert forall|k: int| 0 <= k < r.len() implies weight(#[trigger] r[k].0) <= weight(s) by {
                if k > 0 {
                    assert(r[k] == rest[k - 1]);
                }
            }
        } else {
            lemma_split_from_weight(s, sep, abs, i + 1, d2, in_str, false, start, start_off);
        }
    }
}

/// Relates a vector of pieces to its plain-value picture.
pub open spec fn pieces_match(v: Seq<(Vec<char>, usize)>, m: Seq<(Seq<char>, usize)>) -> bool {
    &&& v.len() == m.len()
    &&& forall|k: int| 0 <= k < v.len() ==> (#[trigger] v[k]).0@ == m[k].0 && v[k].1 == m[k].1
}

/// `split_top_level(s, sep, abs)`: pieces and their byte offsets.
pub fn split_top_level(s: &[char], sep: char, abs: usize) -> (r: Vec<(Vec<char>, usize)>)
    ensures
        pieces_match(r@, split_top(s@, sep, abs)),
{
    let ghost whole = split_top(s@, sep, abs);
    let mut out: Vec<(Vec<char>, usize)> = Vec::new();
    let ghost mut om: Seq<(Seq<char>, usize)> = Seq::empty();
    let mut buf: Vec<char> = Vec::new();
    let mut buf_start: usize = abs;
    let mut d: i32 = 0;
    let mut in_str = false;
    let mut esc = false;
    let mut start: usize = 0;
    let mut pos: usize = 0;
    let mut i: usize = 0;
    proof {
        assert(buf@ =~= s@.subrange(0, 0));
        assert(om + whole =~= whole);
    }
    while i < s.len()
        invariant
            start <= i <= s@.len(),
            pos == wblen(s@.take(i as int)),
            buf@ == s@.subrange(start as int, i as int),
            pieces_match(out@, om),
            whole == om + split_from(s@, sep, abs, i as int, d, in_str, esc, start as int, buf_start),
        decreases s@.len() - i,
    {
        let c = s[i];
        proof {
            lemma_wblen_step(s@, i as int);
            if i + 1 < s@.len() {
                lemma_wblen_step(s@, i + 1);
            }
            assert(s@.take(i + 1).drop_last() =~= s@.take(i as int));
            assert(s@.subrange(start as int, i + 1) =~= s@.subrange(start as int, i as int).push(c));
        }
        if esc || c == '\\' || c == '"' || in_str {
            if esc {
                esc = false;
            } else if c == '\\' {
                esc = true;
            } else if c == '"' {
                in_str = !in_str;
            }
            buf.push(c);
            pos = pos.wrapping_add(char_width(c));
            i = i + 1;
        } else if (c == '#' && i + 1 < s.len() && s[i + 1] == '{') || (c == '}' && i + 1 < s.len()
            && s[i + 1] == '#') {
            let c2 = s[i + 1];
            proof {
                assert(s@.take(i + 2).drop_last() =~= s@.take(i + 1));
                assert(s@.subrange(start as int, i + 2) =~= s@.subrange(start as int, i + 1).push(c2));
            }
            if c == '#' {
                d = d.wrapping_add(1);
            } else {
                d = d.wrapping_sub(1);
            }
            buf.push(c);
            buf.push(c2);
            pos = pos.wrapping_add(char_width(c));
            pos = pos.wrapping_add(char_width(c2));
            i = i + 2;
        } else {
            d = step(c, d);
            if d == 0 && c == sep {
                let ghost piece_m = (buf@, buf_start);
                let ghost next_off = wadd(wadd(abs, pos), 1);
                let piece = slice_of(buf.as_slice(), 0, buf.len());
                let ghost prev = out@;
                out.push((piece, buf_start));
                proof {
                    let om2 = om.push(piece_m);
                    assert(buf@.subrange(0, buf@.len() as int) =~= buf@);
                    assert(pieces_match(out@, om2)) by {
                        assert forall|k: int| 0 <= k < out@.len() implies (#[trigger] out@[k]).0@
                            == om2[k].0 && out@[k].1 == om2[k].1 by {
                            if k < om.len() {
                                assert(out@[k] == prev[k]);
                            }
                        }
                    }
                    assert(whole =~= om2 + split_from(s@, sep, abs, i + 1, d, in_str, false, i + 1, next_off));
                    om = om2;
                }
                buf = Vec::new();
                buf_start = abs.wrapping_add(pos).wrapping_add(1);
                pos = pos.wrapping_add(char_width(c));
                i = i + 1;
                start = i;
                proof {
                    assert(buf@ =~= s@.subrange(start as int, i as int));
                }
            } else {
                buf.push(c);
                pos = pos.wrapping_add(char_width(c));
                i = i + 1;
            }
        }
    }
    if buf.len() > 0 {
        let ghost bm = (buf@, buf_start);
        let ghost prev = out@;
        out.push((buf, buf_start));
        proof {
            let om2 = om.push(bm);
            assert(pieces_match(out@, om2)) by {
                assert forall|k: int| 0 <= k < out@.len() implies (#[trigger] out@[k]).0@ == om2[k].0
                    && out@[k].1 == om2[k].1 by {
                    if k < om.len() {
                        assert(out@[k] == prev[k]);
                    }
                }
            }
            assert(whole =~= om2);
            om = om2;
        }
    } else {
        assert(whole =~= om);
    }
    out
}

// ── tokenize_arith ──────────────────────────────────────────────────────────

/// A number written up to the `e` of its exponent (digits, `.` and `_`,
/// a leading `-`, a digit before the `e`): a sign that follows belongs to
/// the exponent, not to an operator.
pub open spec fn exp_open(t: Seq<char>) -> bool {
    &&& t.len() >= 2
    &&& (t.last() == 'e' || t.last() == 'E')
    &&& '0' <= t[t.len() - 2] <= '9'
    &&& forall|j: int|
        0 <= j < t.len() - 1 ==> ('0' <= #[trigger] t[j] <= '9') || t[j] == '.' || t[j] == '_' || (j == 0 && t[j]
            == '-')
}

fn exp_open_chars(t: &[char]) -> (r: bool)
    ensures
        r == exp_open(t@),
{
    let n = t.len();
    if n < 2 || !(t[n - 1] == 'e' || t[n - 1] == 'E') || !('0' <= t[n - 2] && t[n - 2] <= '9') {
        return false;
    }
    let mut j: usize = 0;
    while j < n - 1
        invariant
            n == t@.len(),
            n >= 2,
            j <= n - 1,
            forall|q: int|
                0 <= q < j ==> ('0' <= #[trigger] t@[q] <= '9') || t@[q] == '.' || t@[q] == '_' || (q == 0
                    && t@[q] == '-'),
        decreases n - 1 - j,
    {
        let c = t[j];
        if !(('0' <= c && c <= '9') || c == '.' || c == '_' || (j == 0 && c == '-')) {
            return false;
        }
        j = j + 1;
    }
    true
}

pub open spec fn is_arith_op(c: char) -> bool {
    c == '+' || c == '-' || c == '*' || c == '/'
}

/// Operand and operator tokens of an arithmetic expression, with the byte
/// offset of each, scanning from character `i`. `buf` holds the operand read
/// so far and `buf_start` the offset of its first non-blank character;
/// `prev_op` is set at the start and after an operator, where a `-` is a
/// sign, and a sign right after the `e` of a number's exponent stays in the
/// operand. A `//` is not an operator; string literals and brackets are
/// copied into the operand.
pub open spec fn arith_from(
    raw: Seq<char>,
    abs: usize,
    i: int,
    d: i32,
    in_str: bool,
    prev_op: bool,
    buf: Seq<char>,
    buf_start: usize,
) -> Seq<(Seq<char>, usize)>
    decreases raw.len() - i,
{
    if i < 0 || i >= raw.len() {
        if trim(buf).len() > 0 {
            seq![(trim(buf), buf_start)]
        } else {
            Seq::empty()
        }
    } else {
        let c = raw[i];
        let here = wadd(abs, wblen(raw.take(i)));
        let bs = if trim(buf).len() == 0 && !is_ws(c) {
            here
        } else {
            buf_start
        };
        if c == '"' {
            arith_from(raw, abs, i + 1, d, !in_str, prev_op, buf.push('"'), bs)
        } else if !in_str && dict_open_at(raw, i) {
            arith_from(raw, abs, i + 2, inc32(d), in_str, prev_op, buf + seq!['#', '{'], bs)
        } else if !in_str && dict_close_at(raw, i) {
            arith_from(raw, abs, i + 2, dec32(d), in_str, prev_op, buf + seq!['}', '#'], bs)
        } else if !in_str && (is_open(c) || is_close(c)) {
            arith_from(raw, abs, i + 1, depth_step(c, d), in_str, prev_op, buf.push(c), bs)
        } else if !in_str && is_arith_op(c) && d == 0 && !(c == '/' && i + 1 < raw.len() && raw[i
            + 1] == '/') {
            if (c == '-' || c == '+') && exp_open(trim(buf)) {
                arith_from(raw, abs, i + 1, d, in_str, false, buf.push(c), bs)
            } else if c == '-' && (trim(buf).len() == 0 || prev_op) {
                arith_from(raw, abs, i + 1, d, in_str, false, buf.push('-'), bs)
            } else {
                let operand = if trim(buf).len() > 0 {
                    seq![(trim(buf), buf_start)]
                } else {
                    Seq::empty()
                };
                operand + seq![(seq![c], here)] + arith_from(
                    raw,
                    abs,
                    i + 1,
                    d,
                    in_str,
                    true,
                    Seq::empty(),
                    wadd(here, 1),
                )
            }
        } else {
            arith_from(raw, abs, i + 1, d, in_str, false, buf.push(c), bs)
        }
    }
}

pub open spec fn arith_tokens(raw: Seq<char>, abs: usize) -> Seq<(Seq<char>, usize)> {
    arith_from(raw, abs, 0, 0, false, true, Seq::empty(), abs)
}

pub open spec fn pieces_nonempty(r: Seq<(Seq<char>, usize)>) -> bool {
    forall|k: int| 0 <= k < r.len() ==> (#[trigger] r[k]).0.len() > 0
}

pub proof fn lemma_arith_from_shape(
    raw: Seq<char>,
    abs: usize,
    i: int,
    d: i32,
    in_str: bool,
    prev_op: bool,
    buf: Seq<char>,
    buf_start: usize,
)
    requires
        0 <= i <= raw.len(),
        weight(buf) <= weight(raw.take(i)),
    ensures
        pieces_light(arith_from(raw, abs, i, d, in_str, prev_op, buf, buf_start), weight(raw)),
        pieces_nonempty(arith_from(raw, abs, i, d, in_str, prev_op, buf, buf_start)),
    decreases raw.len() - i,
{
    let r = arith_from(raw, abs, i, d, in_str, prev_op, buf, buf_start);
    lemma_weight_trim(buf);
    if i >= raw.len() {
        assert(raw.take(i) =~= raw);
    } else {
        let c = raw[i];
        let here = wadd(abs, wblen(raw.take(i)));
        lemma_weight_subrange(raw, 0, i);
        lemma_weight_subrange(raw, 0, i + 1);
        assert(raw.subrange(0, i) =~= raw.take(i));
        assert(raw.subrange(0, i + 1) =~= raw.take(i + 1));
        lemma_weight_concat(raw.take(i), seq![c]);
        assert(raw.take(i + 1) =~= raw.take(i) + seq![c]);
        lemma_weight_single(c);
        if i + 1 < raw.len() {
            lemma_weight_concat(raw.take(i + 1), seq![raw[i + 1]]);
            assert(raw.take(i + 2) =~= raw.take(i + 1) + seq![raw[i + 1]]);
            lemma_weight_single(raw[i + 1]);
        }
        let bs = if trim(buf).len() == 0 && !is_ws(c) {
            here
        } else {
            buf_start
        };
        if c == '"' {
            lemma_weight_concat(buf, seq!['"']);
            assert(buf.push('"') =~= buf + seq!['"']);
            lemma_weight_single('"');
            lemma_arith_from_shape(raw, abs, i + 1, d, !in_str, prev_op, buf.push('"'), bs);
        } else if !in_str && dict_open_at(raw, i) {
            lemma_weight_concat(buf, seq!['#', '{']);
            lemma_weight_concat(seq!['#'], seq!['{']);
            assert(seq!['#', '{'] =~= seq!['#'] + seq!['{']);
            lemma_weight_single('#');
            lemma_weight_single('{');
            lemma_arith_from_shape(raw, abs, i + 2, inc32(d), in_str, prev_op, buf + seq!['#', '{'], bs);
        } else if !in_str && dict_close_at(raw, i) {
            lemma_weight_concat(buf, seq!['}', '#']);
            lemma_weight_concat(seq!['}'], seq!['#']);
            assert(seq!['}', '#'] =~= seq!['}'] + seq!['#']);
            lemma_weight_single('#');
            lemma_weight_single('}');
            lemma_arith_from_shape(raw, abs, i + 2, dec32(d), in_str, prev_op, buf + seq!['}', '#'], bs);
        } else if !in_str && (is_open(c) || is_close(c)) {
            lemma_weight_concat(buf, seq![c]);
            assert(buf.push(c) =~= buf + seq![c]);
            lemma_arith_from_shape(raw, abs, i + 1, depth_step(c, d), in_str, prev_op, buf.push(c), bs);
        } else if !in_str && is_arith_op(c) && d == 0 && !(c == '/' && i + 1 < raw.len() && raw[i
            + 1] == '/') {
            if (c == '-' || c == '+') && exp_open(trim(buf)) {
                lemma_weight_concat(buf, seq![c]);
                assert(buf.push(c) =~= buf + seq![c]);
                lemma_arith_from_shape(raw, abs, i + 1, d, in_str, false, buf.push(c), bs);
            } else if c == '-' && (trim(buf).len() == 0 || prev_op) {
                lemma_weight_concat(buf, seq!['-']);
                assert(buf.push('-') =~= buf + seq!['-']);
                lemma_arith_from_shape(raw, abs, i + 1, d, in_str, false, buf.push('-'), bs);
            } else {
                let operand = if trim(buf).len() > 0 {
                    seq![(trim(buf), buf_start)]
                } else {
                    Seq::<(Seq<char>, usize)>::empty()
                };
                let e: Seq<char> = Seq::empty();
                assert(weight(e) == 0);
                lemma_arith_from_shape(raw, abs, i + 1, d, in_str, true, e, wadd(here, 1));
                let rest = arith_from(raw, abs, i + 1, d, in_str, true, e, wadd(here, 1));
                assert(r == operand + seq![(seq![c], here)] + rest);
                assert forall|k: int| 0 <= k < r.len() implies weight(#[trigger] r[k].0) <= weight(raw)
                    && r[k].0.len() > 0 by {
                    if k < operand.len() {
                        assert(r[k] == operand[k]);
                    } else if k == operand.len() {
                        assert(r[k] == (seq![c], here));
                    } else {
                        assert(r[k] == rest[k - operand.len() - 1]);
                    }
                }
            }
        } else {
            lemma_weight_concat(buf, seq![c]);
            assert(buf.push(c) =~= buf + seq![c]);
            lemma_arith_from_shape(raw, abs, i + 1, d, in_str, false, buf.push(c), bs);
        }
    }
}

/// `t` is the text of `raw` that starts at the character whose UTF-8 byte
/// offset, counted from `abs`, is `off`.
pub open spec fn at_its_text(raw: Seq<char>, abs: usize, t: Seq<char>, off: usize) -> bool {
    exists|p: int|
        0 <= p && p + t.len() <= raw.len() && #[trigger] raw.subrange(p, p + t.len()) == t && off == wadd(
            abs,
            wblen(raw.take(p)),
        )
}

proof fn lemma_at_its_text(raw: Seq<char>, abs: usize, t: Seq<char>, off: usize, p: int)
    requires
        0 <= p,
        p + t.len() <= raw.len(),
        raw.subrange(p, p + t.len()) == t,
        off == wadd(abs, wblen(raw.take(p))),
    ensures
        at_its_text(raw, abs, t, off),
{
}

/// The operand held so far, `raw[q..i]`, once trimmed starts at `buf_start`.
proof fn lemma_operand_at(raw: Seq<char>, abs: usize, q: int, i: int, buf_start: usize)
    requires
        0 <= q <= i <= raw.len(),
        trim(raw.subrange(q, i)).len() > 0,
        buf_start == wadd(abs, wblen(raw.take(q + ws_prefix_len(raw.subrange(q, i))))),
    ensures
        at_its_text(raw, abs, trim(raw.subrange(q, i)), buf_start),
{
    let b = raw.subrange(q, i);
    lemma_trim_slice(b);
    let p = q + ws_prefix_len(b);
    let t = trim(b);
    assert(raw.subrange(p, p + t.len()) =~= b.subrange(ws_prefix_len(b) as int, ws_prefix_len(b) + t.len() as int));
    lemma_at_its_text(raw, abs, t, buf_start, p);
}

/// Where the trimmed operand starts after one more character is read.
proof fn lemma_operand_start_step(raw: Seq<char>, abs: usize, q: int, i: int, n: int, buf_start: usize)
    requires
        0 <= q <= i,
        i + n <= raw.len(),
        n == 1 || n == 2,
        n == 2 ==> !is_ws(raw[i]),
        trim(raw.subrange(q, i)).len() > 0 ==> buf_start == wadd(
            abs,
            wblen(raw.take(q + ws_prefix_len(raw.subrange(q, i)))),
        ),
    ensures
        ({
            let b = raw.subrange(q, i);
            let bs = if trim(b).len() == 0 && !is_ws(raw[i]) {
                wadd(abs, wblen(raw.take(i)))
            } else {
                buf_start
            };
            trim(raw.subrange(q, i + n)).len() > 0 ==> bs == wadd(
                abs,
                wblen(raw.take(q + ws_prefix_len(raw.subrange(q, i + n)))),
            )
        }),
{
    let b = raw.subrange(q, i);
    let x = raw.subrange(i, i + n);
    assert(raw.subrange(q, i + n) =~= b + x);
    lemma_ws_prefix_concat(b, x);
    lemma_trim_slice(b);
    lemma_trim_slice(b + x);
    assert(x[0] == raw[i]);
    if !is_ws(raw[i]) {
        assert(ws_prefix_len(x) == 0);
    }
    if n == 2 {
        assert(ws_prefix_len(x) == 0);
    }
}

/// Every token of the arithmetic scan from a state whose operand is
/// `raw[q..i]` is the source text at its offset.
proof fn lemma_arith_from_at(
    raw: Seq<char>,
    abs: usize,
    i: int,
    d: i32,
    in_str: bool,
    prev_op: bool,
    q: int,
    buf_start: usize,
)
    requires
        0 <= q <= i <= raw.len(),
        trim(raw.subrange(q, i)).len() > 0 ==> buf_start == wadd(
            abs,
            wblen(raw.take(q + ws_prefix_len(raw.subrange(q, i)))),
        ),
    ensures
        ({
            let r = arith_from(raw, abs, i, d, in_str, prev_op, raw.subrange(q, i), buf_start);
            forall|k: int| 0 <= k < r.len() ==> at_its_text(raw, abs, (#[trigger] r[k]).0, r[k].1)
        }),
    decreases raw.len() - i,
{
    let buf = raw.subrange(q, i);
    let r = arith_from(raw, abs, i, d, in_str, prev_op, buf, buf_start);
    if i >= raw.len() {
        if trim(buf).len() > 0 {
            lemma_operand_at(raw, abs, q, i, buf_start);
        }
        assert forall|k: int| 0 <= k < r.len() implies at_its_text(raw, abs, (#[trigger] r[k]).0, r[k].1) by {
            assert(r[k] == (trim(buf), buf_start));
        }
    } else {
        let c = raw[i];
        let here = wadd(abs, wblen(raw.take(i)));
        let bs = if trim(buf).len() == 0 && !is_ws(c) {
            here
        } else {
            buf_start
        };
        assert(buf.push(c) =~= raw.subrange(q, i + 1));
        if c == '"' {
            lemma_operand_start_step(raw, abs, q, i, 1, buf_start);
            lemma_arith_from_at(raw, abs, i + 1, d, !in_str, prev_op, q, bs);
            assert(r == arith_from(raw, abs, i + 1, d, !in_str, prev_op, raw.subrange(q, i + 1), bs));
        } else if !in_str && dict_open_at(raw, i) {
            assert(buf + seq!['#', '{'] =~= raw.subrange(q, i + 2));
            lemma_operand_start_step(raw, abs, q, i, 2, buf_start);
            lemma_arith_from_at(raw, abs, i + 2, inc32(d), in_str, prev_op, q, bs);
            assert(r == arith_from(raw, abs, i + 2, inc32(d), in_str, prev_op, raw.subrange(q, i + 2), bs));
        } else if !in_str && dict_close_at(raw, i) {
            assert(buf + seq!['}', '#'] =~= raw.subrange(q, i + 2));
            lemma_operand_start_step(raw, abs, q, i, 2, buf_start);
            lemma_arith_from_at(raw, abs, i + 2, dec32(d), in_str, prev_op, q, bs);
            assert(r == arith_from(raw, abs, i + 2, dec32(d), in_str, prev_op, raw.subrange(q, i + 2), bs));
        } else if !in_str && (is_open(c) || is_close(c)) {
            lemma_operand_start_step(raw, abs, q, i, 1, buf_start);
            lemma_arith_from_at(raw, abs, i + 1, depth_step(c, d), in_str, prev_op, q, bs);
            assert(r == arith_from(raw, abs, i + 1, depth_step(c, d), in_str, prev_op, raw.subrange(q, i + 1), bs));
        } else if !in_str && is_arith_op(c) && d == 0 && !(c == '/' && i + 1 < raw.len() && raw[i
            + 1] == '/') {
            if (c == '-' || c == '+') && exp_open(trim(buf)) {
                lemma_operand_start_step(raw, abs, q, i, 1, buf_start);
                lemma_arith_from_at(raw, abs, i + 1, d, in_str, false, q, bs);
                assert(r == arith_from(raw, abs, i + 1, d, in_str, false, raw.subrange(q, i + 1), bs));
            } else if c == '-' && (trim(buf).len() == 0 || prev_op) {
                lemma_operand_start_step(raw, abs, q, i, 1, buf_start);
                lemma_arith_from_at(raw, abs, i + 1, d, in_str, false, q, bs);
                assert(r == arith_from(raw, abs, i + 1, d, in_str, false, raw.subrange(q, i + 1), bs));
            } else {
                let operand = if trim(buf).len() > 0 {
                    seq![(trim(buf), buf_start)]
                } else {
                    Seq::<(Seq<char>, usize)>::empty()
                };
                if trim(buf).len() > 0 {
                    lemma_operand_at(raw, abs, q, i, buf_start);
                }
                assert(raw.subrange(i, i + 1) =~= seq![c]);
                lemma_at_its_text(raw, abs, seq![c], here, i);
                let e = raw.subrange(i + 1, i + 1);
                assert(e =~= Seq::<char>::empty());
                lemma_trim_slice(e);
                lemma_arith_from_at(raw, abs, i + 1, d, in_str, true, i + 1, wadd(here, 1));
                let rest = arith_from(raw, abs, i + 1, d, in_str, true, e, wadd(here, 1));
                assert(r == operand + seq![(seq![c], here)] + rest);
                assert forall|k: int| 0 <= k < r.len() implies at_its_text(raw, abs, (#[trigger] r[k]).0, r[k].1) by {
                    if k < operand.len() {
                        assert(r[k] == operand[k]);
                    } else if k == operand.len() {
                        assert(r[k] == (seq![c], here));
                    } else {
                        assert(r[k] == rest[k - operand.len() - 1]);
                    }
                }
            }
        } else {
            lemma_operand_start_step(raw, abs, q, i, 1, buf_start);
            lemma_arith_from_at(raw, abs, i + 1, d, in_str, false, q, bs);
                assert(r == arith_from(raw, abs, i + 1, d, in_str, false, raw.subrange(q, i + 1), bs));
        }
    }
}

/// Each token of an arithmetic expression is the source text at its byte
/// offset: operands trimmed, operators one character.
pub proof fn law_arith_tokens_at_their_text(raw: Seq<char>, abs: usize)
    ensures
        forall|k: int|
            0 <= k < arith_tokens(raw, abs).len() ==> at_its_text(
                raw,
                abs,
                (#[trigger] arith_tokens(raw, abs)[k]).0,
                arith_tokens(raw, abs)[k].1,
            ),
{
    let e = raw.subrange(0, 0);
    assert(e =~= Seq::<char>::empty());
    lemma_trim_slice(e);
    lemma_arith_from_at(raw, abs, 0, 0, false, true, 0, abs);
}

pub fn is_arith_op_char(c: char) -> (r: bool)
    ensures
        r == is_arith_op(c),
{
    c == '+' || c == '-' || c == '*' || c == '/'
}

/// `tokenize_arith(raw, abs)`: operand and operator tokens with offsets.
pub fn tokenize_arith(raw: &[char], abs: usize) -> (r: Vec<(Vec<char>, usize)>)
    ensures
        pieces_match(r@, arith_tokens(raw@, abs)),
{
    let ghost whole = arith_tokens(raw@, abs);
    let mut out: Vec<(Vec<char>, usize)> = Vec::new();
    let ghost mut om: Seq<(Seq<char>, usize)> = Seq::empty();
    let mut buf: Vec<char> = Vec::new();
    let mut blank = true;
    let mut buf_start: usize = abs;
    let mut d: i32 = 0;
    let mut in_str = false;
    let mut prev_op = true;
    let mut pos: usize = 0;
    let mut i: usize = 0;
    assert(om + whole =~= whole);
    proof {
        lemma_trim_blank(buf@);
    }
    while i < raw.len()
        invariant
            i <= raw@.len(),
            pos == wblen(raw@.take(i as int)),
            pieces_match(out@, om),
            blank == (trim(buf@).len() == 0),
            whole == om + arith_from(raw@, abs, i as int, d, in_str, prev_op, buf@, buf_start),
        decreases raw@.len() - i,
    {
        let c = raw[i];
        let here = abs.wrapping_add(pos);
        let ws = is_whitespace(c);
        let bs = if blank && !ws {
            here
        } else {
            buf_start
        };
        proof {
            lemma_wblen_step(raw@, i as int);
            if i + 1 < raw@.len() {
                lemma_wblen_step(raw@, i + 1);
            }
        }
        if c == '"' {
            in_str = !in_str;
            proof {
                lemma_trim_blank_push(buf@, c);
            }
            buf.push('"');
            blank = false;
            buf_start = bs;
            pos = pos.wrapping_add(char_width(c));
            i = i + 1;
        } else if !in_str && ((c == '#' && i + 1 < raw.len() && raw[i + 1] == '{') || (c == '}'
            && i + 1 < raw.len() && raw[i + 1] == '#')) {
            let c2 = raw[i + 1];
            if c == '#' {
                d = d.wrapping_add(1);
            } else {
                d = d.wrapping_sub(1);
            }
            let ghost b0 = buf@;
            proof {
                lemma_trim_blank_push(b0, c);
                lemma_trim_blank_push(b0.push(c), c2);
            }
            buf.push(c);
            buf.push(c2);
            assert(buf@ =~= b0 + seq![c, c2]);
            assert(buf@ =~= b0.push(c).push(c2));
            blank = false;
            buf_start = bs;
            pos = pos.wrapping_add(char_width(c));
            pos = pos.wrapping_add(char_width(c2));
            i = i + 2;
        } else if !in_str && (c == '(' || c == '[' || c == '{' || c == ')' || c == ']' || c == '}') {
            d = step(c, d);
            proof {
                lemma_trim_blank_push(buf@, c);
            }
            buf.push(c);
            blank = false;
            buf_start = bs;
            pos = pos.wrapping_add(char_width(c));
            i = i + 1;
        } else if !in_str && is_arith_op_char(c) && d == 0 && !(c == '/' && i + 1 < raw.len()
            && raw[i + 1] == '/') {
            let t = trimmed(buf.as_slice());
            if (c == '-' || c == '+') && exp_open_chars(t.as_slice()) {
                proof {
                    lemma_trim_blank_push(buf@, c);
                }
                buf.push(c);
                blank = false;
                buf_start = bs;
                prev_op = false;
                pos = pos.wrapping_add(char_width(c));
                i = i + 1;
            } else if c == '-' && (t.len() == 0 || prev_op) {
                proof {
                    lemma_trim_blank_push(buf@, c);
                }
                buf.push('-');
                blank = false;
                buf_start = bs;
                prev_op = false;
                pos = pos.wrapping_add(char_width(c));
                i = i + 1;
            } else {
                let ghost operand = if t@.len() > 0 {
                    seq![(t@, buf_start)]
                } else {
                    Seq::<(Seq<char>, usize)>::empty()
                };
                let ghost prev = out@;
                let ghost om0 = om;
                if t.len() > 0 {
                    out.push((t, buf_start));
                }
                let mut opv: Vec<char> = Vec::new();
                opv.push(c);
                out.push((opv, here));
                proof {
                    let om2 = om0 + operand + seq![(seq![c], here)];
                    assert(opv@ =~= seq![c]);
                    assert(pieces_match(out@, om2)) by {
                        assert forall|k: int| 0 <= k < out@.len() implies (#[trigger] out@[k]).0@
                            == om2[k].0 && out@[k].1 == om2[k].1 by {
                            if k < om0.len() {
                                assert(out@[k] == prev[k]);
                            }
                        }
                    }
                    om = om2;
                }
                buf = Vec::new();
                blank = true;
                proof {
                    lemma_trim_blank(buf@);
                }
                buf_start = here.wrapping_add(1);
                prev_op = true;
                pos = pos.wrapping_add(char_width(c));
                i = i + 1;
                proof {
                    assert(whole =~= om + arith_from(raw@, abs, i as int, d, in_str, prev_op, buf@, buf_start));
                }
            }
        } else {
            proof {
                lemma_trim_blank_push(buf@, c);
            }
            buf.push(c);
            blank = blank && ws;
            buf_start = bs;
            prev_op = false;
            pos = pos.wrapping_add(char_width(c));
            i = i + 1;
        }
    }
    let t = trimmed(buf.as_slice());
    if t.len() > 0 {
        let ghost prev = out@;
        out.push((t, buf_start));
        proof {
            let om2 = om.push((t@, buf_start));
            assert(pieces_match(out@, om2)) by {
                assert forall|k: int| 0 <= k < out@.len() implies (#[trigger] out@[k]).0@ == om2[k].0
                    && out@[k].1 == om2[k].1 by {
                    if k < om.len() {
                        assert(out@[k] == prev[k]);
                    }
                }
            }
            assert(whole =~= om2);
        }
    } else {
        assert(whole =~= om);
    }
    out
}

} // verus!
