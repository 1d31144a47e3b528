//! Character-level helpers shared by the lexer, the value parser and the
//! dumper: Unicode whitespace, trimming, UTF-8 byte widths, and the small
//! string conversions the rest of the crate is built on.
//!
//! Text is modelled as `Seq<char>` (the view of `str` / `String`); byte
//! offsets are lengths of `encode_utf8` of a prefix.

use vstd::prelude::*;
use vstd::std_specs::iter::IteratorSpec;
use vstd::utf8::*;

verus! {

broadcast use vstd::utf8::char_is_scalar;

// ── Whitespace ───────────────────────────────────────────────────────────────

/// The Unicode `White_Space` property, which is what `char::is_whitespace`
/// and `str::trim*` test.
pub open spec fn is_ws(c: char) -> bool {
    let u = c as u32;
    ||| 0x09 <= u <= 0x0D
    ||| u == 0x20
    ||| u == 0x85
    ||| u == 0xA0
    ||| u == 0x1680
    ||| 0x2000 <= u <= 0x200A
    ||| u == 0x2028
    ||| u == 0x2029
    ||| u == 0x202F
    ||| u == 0x205F
    ||| u == 0x3000
}

pub fn is_whitespace(c: char) -> (r: bool)
    ensures
        r == is_ws(c),
{
    let u = c as u32;
    (0x09 <= u && u <= 0x0D) || u == 0x20 || u == 0x85 || u == 0xA0 || u == 0x1680 || (0x2000
        <= u && u <= 0x200A) || u == 0x2028 || u == 0x2029 || u == 0x202F || u == 0x205F || u
        == 0x3000
}

/// ASCII whitespace as tested by `u8::is_ascii_whitespace` (no vertical tab).
pub open spec fn is_ascii_ws(c: char) -> bool {
    c == ' ' || c == '\t' || c == '\n' || c == '\r' || c == '\x0C'
}

/// Number of whitespace characters at the start of `s`.
pub open spec fn ws_prefix_len(s: Seq<char>) -> nat
    decreases s.len(),
{
    if s.len() > 0 && is_ws(s[0]) {
        1 + ws_prefix_len(s.drop_first())
    } else {
        0
    }
}

/// Number of whitespace characters at the end of `s`.
pub open spec fn ws_suffix_len(s: Seq<char>) -> nat
    decreases s.len(),
{
    if s.len() > 0 && is_ws(s.last()) {
        1 + ws_suffix_len(s.drop_last())
    } else {
        0
    }
}

/// `str::trim_start`.
pub open spec fn trim_start(s: Seq<char>) -> Seq<char> {
    s.skip(ws_prefix_len(s) as int)
}

/// `str::trim_end`.
pub open spec fn trim_end(s: Seq<char>) -> Seq<char> {
    s.take(s.len() - ws_suffix_len(s))
}

/// `str::trim`.
pub open spec fn trim(s: Seq<char>) -> Seq<char> {
    trim_end(trim_start(s))
}

pub proof fn lemma_ws_prefix_len_bound(s: Seq<char>)
    ensures
        ws_prefix_len(s) <= s.len(),
        forall|j: int| 0 <= j < ws_prefix_len(s) ==> is_ws(#[trigger] s[j]),
        ws_prefix_len(s) < s.len() ==> !is_ws(s[ws_prefix_len(s) as int]),
    decreases s.len(),
{
    if s.len() > 0 && is_ws(s[0]) {
        lemma_ws_prefix_len_bound(s.drop_first());
        assert forall|j: int| 0 <= j < ws_prefix_len(s) implies is_ws(#[trigger] s[j]) by {
            if j > 0 {
                assert(s[j] == s.drop_first()[j - 1]);
            }
        }
    }
}

pub proof fn lemma_ws_suffix_len_bound(s: Seq<char>)
    ensures
        ws_suffix_len(s) <= s.len(),
        forall|j: int| s.len() - ws_suffix_len(s) <= j < s.len() ==> is_ws(#[trigger] s[j]),
        ws_suffix_len(s) < s.len() ==> !is_ws(s[s.len() - ws_suffix_len(s) - 1]),
    decreases s.len(),
{
    if s.len() > 0 && is_ws(s.last()) {
        lemma_ws_suffix_len_bound(s.drop_last());
        assert forall|j: int| s.len() - ws_suffix_len(s) <= j < s.len() implies is_ws(
            #[trigger] s[j],
        ) by {
            if j < s.len() - 1 {
                assert(s[j] == s.drop_last()[j]);
            }
        }
    }
}

/// Leading whitespace of a concatenation: that of the first part, running
/// on into the second when the first is all whitespace.
pub proof fn lemma_ws_prefix_concat(a: Seq<char>, x: Seq<char>)
    ensures
        ws_prefix_len(a + x) == if ws_prefix_len(a) < a.len() {
            ws_prefix_len(a)
        } else {
            a.len() + ws_prefix_len(x)
        },
    decreases a.len(),
{
    lemma_ws_prefix_len_bound(a);
    if a.len() > 0 {
        assert((a + x)[0] == a[0]);
        assert((a + x).drop_first() =~= a.drop_first() + x);
        lemma_ws_prefix_concat(a.drop_first(), x);
    } else {
        assert(a + x =~= x);
    }
}

/// `trim(s)` is the stretch of `s` after its leading whitespace.
pub proof fn lemma_trim_slice(s: Seq<char>)
    ensures
        ws_prefix_len(s) + trim(s).len() <= s.len(),
        trim(s) == s.subrange(ws_prefix_len(s) as int, ws_prefix_len(s) + trim(s).len() as int),
        (trim(s).len() == 0) == (ws_prefix_len(s) == s.len()),
{
    lemma_ws_prefix_len_bound(s);
    let p = ws_prefix_len(s) as int;
    let t = trim_start(s);
    lemma_ws_suffix_len_bound(t);
    assert(trim(s) =~= s.subrange(p, p + trim(s).len()));
    lemma_trim_blank(s);
    if p < s.len() {
        assert(!is_ws(s[p]));
    } else {
        assert forall|j: int| 0 <= j < s.len() implies is_ws(#[trigger] s[j]) by {}
    }
}

/// `trim` leaves nothing exactly when every character is whitespace.
pub proof fn lemma_trim_blank(s: Seq<char>)
    ensures
        (trim(s).len() == 0) == (forall|j: int| 0 <= j < s.len() ==> is_ws(#[trigger] s[j])),
{
    lemma_ws_prefix_len_bound(s);
    let t = trim_start(s);
    lemma_ws_suffix_len_bound(t);
    let p = ws_prefix_len(s) as int;
    if p < s.len() {
        assert(t[0] == s[p]);
        if ws_suffix_len(t) == t.len() {
            assert(is_ws(t[0]));
        }
    } else {
        assert forall|j: int| 0 <= j < s.len() implies is_ws(#[trigger] s[j]) by {}
    }
}

/// Pushing a character keeps a blank operand blank exactly when the
/// character is whitespace.
pub proof fn lemma_trim_blank_push(s: Seq<char>, c: char)
    ensures
        (trim(s.push(c)).len() == 0) == (trim(s).len() == 0 && is_ws(c)),
{
    lemma_trim_blank(s);
    lemma_trim_blank(s.push(c));
    let t = s.push(c);
    if trim(t).len() == 0 {
        assert(is_ws(t[s.len() as int]));
        assert forall|j: int| 0 <= j < s.len() implies is_ws(#[trigger] s[j]) by {
            assert(t[j] == s[j]);
        }
    } else if trim(s).len() == 0 && is_ws(c) {
        assert forall|j: int| 0 <= j < t.len() implies is_ws(#[trigger] t[j]) by {
            if j < s.len() {
                assert(t[j] == s[j]);
            }
        }
    }
}

/// Number of leading whitespace characters (`s.len() - s.trim_start().len()`
/// counted in characters).
pub fn count_leading_ws(s: &[char]) -> (n: usize)
    ensures
        n == ws_prefix_len(s@),
{
    let mut i: usize = 0;
    assert(s@.skip(0) =~= s@);
    while i < s.len() && is_whitespace(s[i])
        invariant
            i <= s@.len(),
            ws_prefix_len(s@) == i + ws_prefix_len(s@.skip(i as int)),
        decreases s@.len() - i,
    {
        assert(s@.skip(i as int).drop_first() =~= s@.skip(i + 1));
        i = i + 1;
    }
    i
}

/// Number of trailing whitespace characters.
pub fn count_trailing_ws(s: &[char]) -> (n: usize)
    ensures
        n == ws_suffix_len(s@),
{
    let mut k: usize = s.len();
    assert(s@.take(k as int) =~= s@);
    while k > 0 && is_whitespace(s[k - 1])
        invariant
            k <= s@.len(),
            ws_suffix_len(s@) == (s@.len() - k) + ws_suffix_len(s@.take(k as int)),
        decreases k,
    {
        assert(s@.take(k as int).drop_last() =~= s@.take(k - 1));
        k = k - 1;
    }
    proof {
        lemma_ws_suffix_len_bound(s@);
    }
    s.len() - k
}

// ── UTF-8 widths ─────────────────────────────────────────────────────────────

/// Length in bytes of the UTF-8 encoding of `s`.
pub open spec fn blen(s: Seq<char>) -> nat {
    encode_utf8(s).len()
}

/// Length in bytes of the UTF-8 encoding of one character (`char::len_utf8`).
pub open spec fn cw(c: char) -> nat {
    let u = c as u32;
    if u <= 0x7F {
        1
    } else if u <= 0x7FF {
        2
    } else if u <= 0xFFFF {
        3
    } else {
        4
    }
}

pub proof fn lemma_encode_concat(a: Seq<char>, b: Seq<char>)
    ensures
        encode_utf8(a + b) == encode_utf8(a) + encode_utf8(b),
    decreases a.len(),
{
    if a.len() == 0 {
        assert(a + b =~= b);
    } else {
        lemma_encode_concat(a.drop_first(), b);
        assert((a + b).drop_first() =~= a.drop_first() + b);
        assert(encode_utf8(a + b) =~= encode_scalar(a[0] as u32) + encode_utf8(a.drop_first() + b));
    }
}

pub proof fn lemma_encode_single(c: char)
    ensures
        encode_utf8(seq![c]) == encode_scalar(c as u32),
{
    assert(seq![c].drop_first() =~= Seq::<char>::empty());
    assert(encode_utf8(Seq::<char>::empty()) =~= Seq::<u8>::empty());
    assert(seq![c][0] == c);
    assert(encode_utf8(seq![c]) =~= encode_scalar(c as u32));
}

pub proof fn lemma_encode_char_len(c: char)
    ensures
        encode_utf8(seq![c]).len() == cw(c),
        encode_scalar(c as u32).len() == cw(c),
{
    lemma_encode_single(c);
}

pub proof fn lemma_blen_push(s: Seq<char>, c: char)
    ensures
        blen(s.push(c)) == blen(s) + cw(c),
{
    lemma_encode_concat(s, seq![c]);
    assert(s.push(c) =~= s + seq![c]);
    lemma_encode_char_len(c);
}

pub proof fn lemma_blen_take_step(s: Seq<char>, i: int)
    requires
        0 <= i < s.len(),
    ensures
        blen(s.take(i + 1)) == blen(s.take(i)) + cw(s[i]),
{
    assert(s.take(i + 1) =~= s.take(i).push(s[i]));
    lemma_blen_push(s.take(i), s[i]);
}

pub proof fn lemma_blen_take_mono(s: Seq<char>, i: int, j: int)
    requires
        0 <= i <= j <= s.len(),
    ensures
        blen(s.take(i)) <= blen(s.take(j)),
        blen(s.take(j)) <= blen(s),
{
    lemma_encode_concat(s.take(i), s.subrange(i, j));
    assert(s.take(i) + s.subrange(i, j) =~= s.take(j));
    lemma_encode_concat(s.take(j), s.skip(j));
    assert(s.take(j) + s.skip(j) =~= s);
}

/// `char::len_utf8`.
pub fn char_width(c: char) -> (w: usize)
    ensures
        w == cw(c),
{
    let u = c as u32;
    if u <= 0x7F {
        1
    } else if u <= 0x7FF {
        2
    } else if u <= 0xFFFF {
        3
    } else {
        4
    }
}

/// Byte length of a character slice; `s` must be the characters of some
/// string of at most `bound` bytes so that the sum cannot overflow.
pub fn byte_len(s: &[char]) -> (n: usize)
    requires
        blen(s@) <= usize::MAX,
    ensures
        n == blen(s@),
{
    let mut n: usize = 0;
    let mut i: usize = 0;
    while i < s.len()
        invariant
            i <= s@.len(),
            n == blen(s@.take(i as int)),
            blen(s@) <= usize::MAX,
        decreases s@.len() - i,
    {
        proof {
            lemma_blen_take_step(s@, i as int);
            lemma_blen_take_mono(s@, i + 1, i + 1);
        }
        n = n + char_width(s[i]);
        i = i + 1;
    }
    assert(s@.take(i as int) =~= s@);
    n
}

// ── Conversions ──────────────────────────────────────────────────────────────

/// The characters of `s`.
pub fn to_chars(s: &str) -> (v: Vec<char>)
    ensures
        v@ == s@,
{
    broadcast use vstd::string::group_string_axioms;

    let mut v: Vec<char> = Vec::new();
    for c in iter: s.chars()
        invariant
            v@ == iter.seq().take(iter.index() as int),
    {
        v.push(c);
    }
    v
}

/// `String::from_iter` over a character slice.
#[verifier::external_body]
pub fn string_from(v: &[char]) -> (s: String)
    ensures
        s@ == v@,
{
    v.iter().collect()
}

/// Copy of `v[i..j]`.
pub fn slice_of(v: &[char], i: usize, j: usize) -> (r: Vec<char>)
    requires
        i <= j <= v@.len(),
    ensures
        r@ == v@.subrange(i as int, j as int),
{
    let s = vstd::slice::slice_subrange(v, i, j);
    vstd::slice::slice_to_vec(s)
}

/// Characters of `v` with trailing whitespace removed.
pub fn trimmed_end(v: &[char]) -> (r: Vec<char>)
    ensures
        r@ == trim_end(v@),
{
    let b = count_trailing_ws(v);
    proof {
        lemma_ws_suffix_len_bound(v@);
    }
    slice_of(v, 0, v.len() - b)
}

/// Characters of `v` with leading whitespace removed.
pub fn trimmed_start(v: &[char]) -> (r: Vec<char>)
    ensures
        r@ == trim_start(v@),
{
    let a = count_leading_ws(v);
    proof {
        lemma_ws_prefix_len_bound(v@);
    }
    slice_of(v, a, v.len())
}

/// Characters of `v` with leading and trailing whitespace removed.
pub fn trimmed(v: &[char]) -> (r: Vec<char>)
    ensures
        r@ == trim(v@),
{
    let a = count_leading_ws(v);
    proof {
        lemma_ws_prefix_len_bound(v@);
    }
    let rest = slice_of(v, a, v.len());
    let b = count_trailing_ws(rest.as_slice());
    proof {
        lemma_ws_suffix_len_bound(rest@);
    }
    slice_of(rest.as_slice(), 0, rest.len() - b)
}

pub fn seq_eq(a: &[char], b: &[char]) -> (r: bool)
    ensures
        r == (a@ == b@),
{
    if a.len() != b.len() {
        return false;
    }
    let mut i: usize = 0;
    while i < a.len()
        invariant
            a@.len() == b@.len(),
            i <= a@.len(),
            forall|j: int| 0 <= j < i ==> a@[j] == b@[j],
        decreases a@.len() - i,
    {
        if a[i] != b[i] {
            return false;
        }
        i = i + 1;
    }
    assert(a@ =~= b@);
    true
}

/// `a == lit`.
pub fn eq_lit(a: &[char], lit: &str) -> (r: bool)
    ensures
        r == (a@ == lit@),
{
    let l = to_chars(lit);
    seq_eq(a, l.as_slice())
}

/// `a.starts_with(lit)`.
pub fn starts_with_lit(a: &[char], lit: &str) -> (r: bool)
    ensures
        r == (lit@.len() <= a@.len() && a@.take(lit@.len() as int) == lit@),
{
    let l = to_chars(lit);
    if l.len() > a.len() {
        return false;
    }
    let head = slice_of(a, 0, l.len());
    seq_eq(head.as_slice(), l.as_slice())
}

/// `a.ends_with(lit)`.
pub fn ends_with_lit(a: &[char], lit: &str) -> (r: bool)
    ensures
        r == (lit@.len() <= a@.len() && a@.skip(a@.len() - lit@.len()) == lit@),
{
    let l = to_chars(lit);
    if l.len() > a.len() {
        return false;
    }
    let tail = slice_of(a, a.len() - l.len(), a.len());
    seq_eq(tail.as_slice(), l.as_slice())
}

/// Appends the characters of `lit`.
pub fn push_lit(v: &mut Vec<char>, lit: &str)
    ensures
        final(v)@ == old(v)@ + lit@,
{
    let mut l = to_chars(lit);
    v.append(&mut l);
}

/// Appends a copy of `other`.
pub fn push_all(v: &mut Vec<char>, other: &[char])
    ensures
        final(v)@ == old(v)@ + other@,
{
    let mut l = vstd::slice::slice_to_vec(other);
    v.append(&mut l);
}

/// The texts of a sequence of strings.
pub open spec fn strings_model(v: Seq<String>) -> Seq<Seq<char>> {
    v.map_values(|s: String| s@)
}

/// A copy of a vector of strings.
pub fn clone_strings(v: &Vec<String>) -> (r: Vec<String>)
    ensures
        strings_model(r@) == strings_model(v@),
{
    let mut out: Vec<String> = Vec::new();
    let mut i: usize = 0;
    while i < v.len()
        invariant
            i <= v@.len(),
            strings_model(out@) == strings_model(v@.take(i as int)),
        decreases v@.len() - i,
    {
        let ghost before = out@;
        let c = v[i].clone();
        out.push(c);
        assert(out@ == before.push(c));
        assert(strings_model(out@) =~= strings_model(before).push(c@));
        assert(v@.take(i + 1) =~= v@.take(i as int).push(v@[i as int]));
        assert(strings_model(v@.take(i + 1)) =~= strings_model(v@.take(i as int)).push(v@[i as int]@));
        i = i + 1;
    }
    assert(v@.take(i as int) =~= v@);
    out
}

/// The characters of a `String`.
pub fn chars_of(s: &String) -> (v: Vec<char>)
    ensures
        v@ == s@,
{
    to_chars(s.as_str())
}

// ── Wrapping byte offsets ───────────────────────────────────────────────────

/// `a + b` on `usize`, wrapping on overflow as a release build does.
pub open spec fn wadd(a: usize, b: usize) -> usize {
    vstd::wrapping::usize_specs::wrapping_add(a, b)
}

/// Byte length of the UTF-8 encoding of `s`, summed with wrapping `usize`
/// additions (equal to `blen(s)` whenever that fits).
pub open spec fn wblen(s: Seq<char>) -> usize
    decreases s.len(),
{
    if s.len() == 0 {
        0
    } else {
        wadd(wblen(s.drop_last()), cw(s.last()) as usize)
    }
}

pub proof fn lemma_wadd_assoc(a: usize, b: usize, c: usize)
    ensures
        wadd(wadd(a, b), c) == wadd(a, wadd(b, c)),
{
}

/// The wrapping byte length of a prefix splits at any point.
pub proof fn lemma_wblen_split(s: Seq<char>, p: int, n: int)
    requires
        0 <= p,
        0 <= n,
        p + n <= s.len(),
    ensures
        wblen(s.take(p + n)) == wadd(wblen(s.take(p)), wblen(s.subrange(p, p + n))),
    decreases n,
{
    if n == 0 {
        assert(s.subrange(p, p) =~= Seq::<char>::empty());
        assert(s.take(p + 0) =~= s.take(p));
    } else {
        lemma_wblen_split(s, p, n - 1);
        lemma_wblen_step(s, p + n - 1);
        let sub = s.subrange(p, p + n);
        assert(sub.drop_last() =~= s.subrange(p, p + n - 1));
        assert(sub.last() == s[p + n - 1]);
        lemma_wadd_assoc(wblen(s.take(p)), wblen(s.subrange(p, p + n - 1)), cw(s[p + n - 1]) as usize);
    }
}

pub proof fn lemma_wblen_step(s: Seq<char>, i: int)
    requires
        0 <= i < s.len(),
    ensures
        wblen(s.take(i + 1)) == wadd(wblen(s.take(i)), cw(s[i]) as usize),
{
    assert(s.take(i + 1).drop_last() =~= s.take(i));
    assert(s.take(i + 1).last() == s[i]);
}

pub fn wbyte_len(s: &[char]) -> (n: usize)
    ensures
        n == wblen(s@),
{
    let mut n: usize = 0;
    let mut i: usize = 0;
    while i < s.len()
        invariant
            i <= s@.len(),
            n == wblen(s@.take(i as int)),
        decreases s@.len() - i,
    {
        assert(s@.take(i + 1).drop_last() =~= s@.take(i as int));
        n = n.wrapping_add(char_width(s[i]));
        i = i + 1;
    }
    assert(s@.take(i as int) =~= s@);
    n
}

/// Bytes taken by the leading whitespace of `s`
/// (`s.len() - s.trim_start().len()`).
pub open spec fn lead_bytes(s: Seq<char>) -> usize {
    wblen(s.take(ws_prefix_len(s) as int))
}

pub fn leading_ws_bytes(s: &[char]) -> (n: usize)
    ensures
        n == lead_bytes(s@),
{
    let k = count_leading_ws(s);
    proof {
        lemma_ws_prefix_len_bound(s@);
    }
    let head = slice_of(s, 0, k);
    wbyte_len(head.as_slice())
}

// ── Weight: the number of ASCII characters ──────────────────────────────────

/// Number of ASCII characters in `s`. Every nested value is strictly
/// lighter than the text it is written in, which is how the recursive
/// parsers terminate.
pub open spec fn weight(s: Seq<char>) -> nat
    decreases s.len(),
{
    if s.len() == 0 {
        0
    } else {
        weight(s.drop_last()) + if (s.last() as u32) < 0x80 {
            1nat
        } else {
            0nat
        }
    }
}

pub proof fn lemma_weight_concat(a: Seq<char>, b: Seq<char>)
    ensures
        weight(a + b) == weight(a) + weight(b),
    decreases b.len(),
{
    if b.len() == 0 {
        assert(a + b =~= a);
    } else {
        lemma_weight_concat(a, b.drop_last());
        assert((a + b).drop_last() =~= a + b.drop_last());
    }
}

pub proof fn lemma_weight_subrange(s: Seq<char>, i: int, j: int)
    requires
        0 <= i <= j <= s.len(),
    ensures
        weight(s.subrange(i, j)) <= weight(s),
        weight(s.take(i)) + weight(s.subrange(i, j)) + weight(s.skip(j)) == weight(s),
{
    lemma_weight_concat(s.take(i), s.subrange(i, j));
    lemma_weight_concat(s.take(i) + s.subrange(i, j), s.skip(j));
    assert(s.take(i) + s.subrange(i, j) + s.skip(j) =~= s);
}

pub proof fn lemma_weight_single(c: char)
    ensures
        weight(seq![c]) == if (c as u32) < 0x80 { 1nat } else { 0nat },
{
    assert(seq![c].drop_last() =~= Seq::<char>::empty());
    assert(weight(Seq::<char>::empty()) == 0);
    assert(seq![c].last() == c);
}

pub proof fn lemma_weight_trim(s: Seq<char>)
    ensures
        weight(trim(s)) <= weight(s),
        weight(trim_start(s)) <= weight(s),
        weight(trim_end(s)) <= weight(s),
{
    lemma_ws_prefix_len_bound(s);
    let t = trim_start(s);
    lemma_weight_subrange(s, ws_prefix_len(s) as int, s.len() as int);
    assert(s.subrange(ws_prefix_len(s) as int, s.len() as int) =~= t);
    lemma_ws_suffix_len_bound(t);
    lemma_weight_subrange(t, 0, t.len() - ws_suffix_len(t));
    assert(t.subrange(0, t.len() - ws_suffix_len(t)) =~= trim_end(t));
    lemma_ws_suffix_len_bound(s);
    lemma_weight_subrange(s, 0, s.len() - ws_suffix_len(s));
    assert(s.subrange(0, s.len() - ws_suffix_len(s)) =~= trim_end(s));
}

} // verus!
