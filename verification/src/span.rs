//! Source spans — half-open byte ranges into the source text — and the
//! byte-offset → (line, column) index.

use vstd::prelude::*;
use vstd::utf8::encode_utf8;

verus! {

#[derive(Copy, Clone, Debug, PartialEq, Eq, Hash, Structural)]
pub struct Span {
    pub start: usize,
    pub end: usize,
}

impl Span {
    /// The empty span at offset 0, used where no better location exists.
    pub open spec fn dummy_spec() -> Span {
        Span { start: 0, end: 0 }
    }

    #[verifier::when_used_as_spec(dummy_spec)]
    pub fn dummy() -> (s: Span)
        ensures
            s == Span::dummy_spec(),
    {
        Span { start: 0, end: 0 }
    }

    pub fn new(start: usize, end: usize) -> (s: Span)
        ensures
            s.start == start,
            s.end == end,
    {
        Span { start, end }
    }

    pub fn point(offset: usize) -> (s: Span)
        ensures
            s.start == offset,
            s.end == offset,
    {
        Span { start: offset, end: offset }
    }

    /// The smallest span covering both.
    pub fn merge(self, other: Span) -> (s: Span)
        ensures
            s.start == if self.start <= other.start { self.start } else { other.start },
            s.end == if self.end >= other.end { self.end } else { other.end },
    {
        let start = if self.start <= other.start { self.start } else { other.start };
        let end = if self.end >= other.end { self.end } else { other.end };
        Span { start, end }
    }

    pub open spec fn spec_contains(self, offset: int) -> bool {
        self.start <= offset < self.end
    }

    pub fn contains(self, offset: usize) -> (r: bool)
        ensures
            r == self.spec_contains(offset as int),
    {
        self.start <= offset && offset < self.end
    }

    /// `end - start`, wrapping when a span was built with `end < start`.
    pub fn len(self) -> (n: usize)
        ensures
            n == vstd::wrapping::usize_specs::wrapping_sub(self.end, self.start),
            self.start <= self.end ==> n == self.end - self.start,
    {
        self.end.wrapping_sub(self.start)
    }

    pub fn is_empty(self) -> (r: bool)
        ensures
            r == (self.start == self.end),
    {
        self.start == self.end
    }
}

impl From<Span> for core::ops::Range<usize> {
    fn from(s: Span) -> (r: Self) {
        s.start..s.end
    }
}

impl vstd::std_specs::convert::FromSpecImpl<Span> for core::ops::Range<usize> {
    open spec fn obeys_from_spec() -> bool {
        true
    }

    /// The same bounds.
    open spec fn from_spec(v: Span) -> Self {
        core::ops::Range { start: v.start, end: v.end }
    }
}

/// Merging never loses coverage: every offset inside either span lies inside
/// their merge, and merging is symmetric.
pub proof fn law_merge_covers(a: Span, b: Span, offset: int)
    ensures
        ({
            let m = Span {
                start: if a.start <= b.start { a.start } else { b.start },
                end: if a.end >= b.end { a.end } else { b.end },
            };
            let m2 = Span {
                start: if b.start <= a.start { b.start } else { a.start },
                end: if b.end >= a.end { b.end } else { a.end },
            };
            &&& (a.spec_contains(offset) || b.spec_contains(offset)) ==> m.spec_contains(offset)
            &&& m == m2
        }),
{
}

/// Byte offsets at which the lines of `b` start: 0, then one past every
/// `\n`.
pub open spec fn line_starts_of(b: Seq<u8>) -> Seq<usize>
    decreases b.len(),
{
    if b.len() == 0 {
        seq![0usize]
    } else {
        let prev = line_starts_of(b.drop_last());
        if b.last() == 10u8 {
            prev.push(b.len() as usize)
        } else {
            prev
        }
    }
}

/// The line holding byte offset `o`: the last line whose start is at or
/// before `o`.
pub open spec fn line_at(starts: Seq<usize>, o: int) -> int
    decreases starts.len(),
{
    if starts.len() <= 1 {
        0
    } else if starts.last() <= o {
        starts.len() - 1
    } else {
        line_at(starts.drop_last(), o)
    }
}

pub open spec fn strictly_sorted(s: Seq<usize>) -> bool {
    forall|i: int, j: int| 0 <= i < j < s.len() ==> s[i] < s[j]
}

proof fn lemma_line_at_unique(starts: Seq<usize>, o: int, l: int)
    requires
        strictly_sorted(starts),
        starts.len() >= 1,
        0 <= l < starts.len(),
        starts[0] <= o,
        starts[l] <= o,
        l + 1 == starts.len() || o < starts[l + 1],
    ensures
        line_at(starts, o) == l,
    decreases starts.len(),
{
    if starts.len() <= 1 {
    } else if starts.last() <= o {
        if l + 1 < starts.len() {
            assert(starts[l + 1] <= starts[starts.len() - 1]);
        }
    } else {
        let p = starts.drop_last();
        assert(l < starts.len() - 1);
        lemma_line_at_unique(p, o, l);
    }
}

/// Maps byte offsets to (line, column) using UTF-8 byte counts.
/// Lines are 0-indexed; columns are byte offsets within their line.
#[derive(Debug)]
pub struct LineIndex {
    /// Byte offset where each line starts. Always begins with 0.
    line_starts: Vec<usize>,
    len: usize,
}

impl Clone for LineIndex {
    fn clone(&self) -> (r: Self)
        ensures
            r.starts() == self.starts(),
            r.text_len() == self.text_len(),
    {
        proof {
            use_type_invariant(self);
        }
        let mut line_starts: Vec<usize> = Vec::new();
        let mut i: usize = 0;
        while i < self.line_starts.len()
            invariant
                i <= self.line_starts@.len(),
                line_starts@ == self.line_starts@.take(i as int),
            decreases self.line_starts@.len() - i,
        {
            line_starts.push(self.line_starts[i]);
            i = i + 1;
        }
        assert(line_starts@ =~= self.line_starts@);
        LineIndex { line_starts, len: self.len }
    }
}

impl LineIndex {
    #[verifier::type_invariant]
    spec fn inv(self) -> bool {
        &&& self.line_starts@.len() >= 1
        &&& self.line_starts@[0] == 0
        &&& strictly_sorted(self.line_starts@)
        &&& forall|i: int| 0 <= i < self.line_starts@.len() ==> #[trigger] self.line_starts@[i] <= self.len
    }

    /// Start offsets of the lines.
    pub closed spec fn starts(&self) -> Seq<usize> {
        self.line_starts@
    }

    /// Byte length of the indexed text.
    pub closed spec fn text_len(&self) -> usize {
        self.len
    }

    /// The (line, column) of a byte offset, clamped to the text's end.
    pub open spec fn pos(&self, offset: usize) -> (u32, u32) {
        let o = if offset <= self.text_len() {
            offset as int
        } else {
            self.text_len() as int
        };
        let l = line_at(self.starts(), o);
        (l as u32, (o - self.starts()[l]) as u32)
    }

    pub fn new(text: &str) -> (idx: LineIndex)
        ensures
            idx.starts() == line_starts_of(encode_utf8(text@)),
            idx.text_len() == encode_utf8(text@).len(),
    {
        let bytes = text.as_bytes();
        let mut line_starts: Vec<usize> = Vec::new();
        line_starts.push(0);
        let mut i: usize = 0;
        while i < bytes.len()
            invariant
                i <= bytes@.len(),
                line_starts@ == line_starts_of(bytes@.take(i as int)),
                line_starts@.len() >= 1,
                line_starts@[0] == 0,
                strictly_sorted(line_starts@),
                forall|k: int| 0 <= k < line_starts@.len() ==> #[trigger] line_starts@[k] <= i,
            decreases bytes@.len() - i,
        {
            assert(bytes@.take(i + 1).drop_last() =~= bytes@.take(i as int));
            if bytes[i] == 10u8 {
                line_starts.push(i + 1);
            }
            i = i + 1;
        }
        assert(bytes@.take(i as int) =~= bytes@);
        LineIndex { line_starts, len: bytes.len() }
    }

    pub fn line_count(&self) -> (n: usize)
        ensures
            n == self.starts().len(),
    {
        self.line_starts.len()
    }

    /// Returns (line, column) for a byte offset. Both 0-indexed; offsets past
    /// the end are clamped to the end.
    pub fn position(&self, offset: usize) -> (r: (u32, u32))
        ensures
            ({
                let o = if offset <= self.text_len() { offset as int } else { self.text_len() as int };
                let l = line_at(self.starts(), o);
                &&& 0 <= l < self.starts().len()
                &&& self.starts()[l] <= o
                &&& (l + 1 == self.starts().len() || o < self.starts()[l + 1])
                &&& r == (l as u32, (o - self.starts()[l]) as u32)
            }),
            r == self.pos(offset),
            offset > self.text_len() ==> r == self.pos(self.text_len()),
    {
        proof {
            use_type_invariant(self);
        }
        let o = if offset <= self.len { offset } else { self.len };
        let mut lo: usize = 0;
        let mut hi: usize = self.line_starts.len();
        while hi - lo > 1
            invariant
                0 <= lo < hi <= self.line_starts@.len(),
                self.line_starts@[lo as int] <= o,
                hi == self.line_starts@.len() || o < self.line_starts@[hi as int],
            decreases hi - lo,
        {
            let mid = lo + (hi - lo) / 2;
            if self.line_starts[mid] <= o {
                lo = mid;
            } else {
                hi = mid;
            }
        }
        proof {
            lemma_line_at_unique(self.line_starts@, o as int, lo as int);
            assert(lo + 1 == hi);
        }
        let col = o - self.line_starts[lo];
        (lo as u32, col as u32)
    }

    /// Offset where `line` starts, or the text length past the last line.
    pub fn line_start(&self, line: usize) -> (r: usize)
        ensures
            r == if line < self.starts().len() { self.starts()[line as int] } else { self.text_len() },
    {
        if line < self.line_starts.len() {
            self.line_starts[line]
        } else {
            self.len
        }
    }
}

proof fn lemma_line_starts_shape(b: Seq<u8>)
    requires
        b.len() <= usize::MAX,
    ensures
        line_starts_of(b).len() >= 1,
        line_starts_of(b)[0] == 0,
        strictly_sorted(line_starts_of(b)),
        forall|k: int| 0 <= k < line_starts_of(b).len() ==> #[trigger] line_starts_of(b)[k] <= b.len(),
    decreases b.len(),
{
    if b.len() > 0 {
        let prev = line_starts_of(b.drop_last());
        lemma_line_starts_shape(b.drop_last());
        if b.last() == 10u8 {
            let cur = prev.push(b.len() as usize);
            assert forall|i: int, j: int| 0 <= i < j < cur.len() implies cur[i] < cur[j] by {
                if j == cur.len() - 1 {
                    assert(cur[i] == prev[i]);
                }
            }
        }
    }
}

/// Number of `\n` bytes in `b`.
pub open spec fn newline_count(b: Seq<u8>) -> nat
    decreases b.len(),
{
    if b.len() == 0 {
        0
    } else {
        newline_count(b.drop_last()) + if b.last() == 10u8 {
            1nat
        } else {
            0nat
        }
    }
}

/// The lines of a text: one more than its newlines, the first at offset 0,
/// every other one just past a `\n`, in increasing order and within the
/// text.
pub proof fn law_line_starts(b: Seq<u8>)
    requires
        b.len() <= usize::MAX,
    ensures
        line_starts_of(b).len() == 1 + newline_count(b),
        line_starts_of(b)[0] == 0,
        strictly_sorted(line_starts_of(b)),
        forall|k: int| 0 <= k < line_starts_of(b).len() ==> #[trigger] line_starts_of(b)[k] <= b.len(),
        forall|k: int| 0 < k < line_starts_of(b).len() ==> b[#[trigger] line_starts_of(b)[k] - 1] == 10u8,
    decreases b.len(),
{
    lemma_line_starts_shape(b);
    if b.len() > 0 {
        let d = b.drop_last();
        law_line_starts(d);
        let prev = line_starts_of(d);
        assert forall|k: int| 0 < k < line_starts_of(b).len() implies b[#[trigger] line_starts_of(b)[k] - 1]
            == 10u8 by {
            if k < prev.len() {
                assert(line_starts_of(b)[k] == prev[k]);
                assert(prev[k] <= d.len());
                assert(b[prev[k] - 1] == d[prev[k] - 1]);
            }
        }
    }
}

/// For any text: the start offset of each line maps back to that line at
/// column 0.
pub proof fn law_line_start_position(b: Seq<u8>, line: int)
    requires
        b.len() <= usize::MAX,
        0 <= line < line_starts_of(b).len(),
    ensures
        line_at(line_starts_of(b), line_starts_of(b)[line] as int) == line,
{
    lemma_line_starts_shape(b);
    lemma_line_at_unique(line_starts_of(b), line_starts_of(b)[line] as int, line);
}

} // verus!
