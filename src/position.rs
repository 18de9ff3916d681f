//! Mapping byte offsets of a source text to 1-based line and column numbers.
use vstd::prelude::*;

verus! {

/// The line-feed byte that ends a line.
pub const LINE_FEED: u8 = 10;

/// Number of line feeds among the first `end` bytes of `text`.
pub open spec fn newlines_before(text: Seq<u8>, end: int) -> nat
    decreases end,
{
    if end <= 0 {
        0
    } else {
        newlines_before(text, end - 1) + if text[end - 1] == LINE_FEED { 1nat } else { 0nat }
    }
}

/// Offset of the first byte of the line holding `offset`.
pub open spec fn line_start(text: Seq<u8>, offset: int) -> int
    decreases offset,
{
    if offset <= 0 {
        0
    } else if text[offset - 1] == LINE_FEED {
        offset
    } else {
        line_start(text, offset - 1)
    }
}

/// 1-based line of `offset`: one more than the line feeds before it.
pub open spec fn line_of(text: Seq<u8>, offset: int) -> int {
    newlines_before(text, offset) + 1int
}

/// 1-based column of `offset`, counted in bytes from the start of its line.
pub open spec fn column_of(text: Seq<u8>, offset: int) -> int {
    offset - line_start(text, offset) + 1
}

proof fn lemma_newlines_monotone(text: Seq<u8>, a: int, b: int)
    requires
        0 <= a <= b,
    ensures
        newlines_before(text, a) <= newlines_before(text, b),
    decreases b - a,
{
    if a < b {
        lemma_newlines_monotone(text, a, b - 1);
    }
}

proof fn lemma_no_newline_between(text: Seq<u8>, a: int, i: int, b: int)
    requires
        0 <= a <= i < b,
        newlines_before(text, a) == newlines_before(text, b),
    ensures
        text[i] != LINE_FEED,
{
    lemma_newlines_monotone(text, a, i);
    lemma_newlines_monotone(text, i + 1, b);
}

proof fn lemma_line_start_at(text: Seq<u8>, s: int, offset: int)
    requires
        0 <= s <= offset,
        s == 0 || text[s - 1] == LINE_FEED,
        forall|i: int| s <= i < offset ==> text[i] != LINE_FEED,
    ensures
        line_start(text, offset) == s,
    decreases offset - s,
{
    if offset > s {
        lemma_line_start_at(text, s, offset - 1);
    }
}

/// A position never exceeds one past its offset, so it fits wherever the offset does.
pub proof fn lemma_position_bounds(text: Seq<u8>, offset: int)
    requires
        0 <= offset <= text.len(),
    ensures
        1 <= line_of(text, offset) <= offset + 1,
        1 <= column_of(text, offset) <= offset + 1,
{
    lemma_newlines_at_most(text, offset);
    lemma_line_start_bounds(text, offset);
}

proof fn lemma_newlines_at_most(text: Seq<u8>, end: int)
    requires
        0 <= end,
    ensures
        newlines_before(text, end) <= end,
    decreases end,
{
    if end > 0 {
        lemma_newlines_at_most(text, end - 1);
    }
}

proof fn lemma_line_start_bounds(text: Seq<u8>, offset: int)
    requires
        0 <= offset <= text.len(),
    ensures
        0 <= line_start(text, offset) <= offset,
        line_start(text, offset) == 0 || text[line_start(text, offset) - 1] == LINE_FEED,
        forall|i: int| line_start(text, offset) <= i < offset ==> text[i] != LINE_FEED,
    decreases offset,
{
    if offset > 0 && text[offset - 1] != LINE_FEED {
        lemma_line_start_bounds(text, offset - 1);
    }
}

/// Positions keep the order of offsets: a later byte has a later line, or the
/// same line and a later column.
pub proof fn lemma_position_order(text: Seq<u8>, a: int, b: int)
    requires
        0 <= a < b <= text.len(),
    ensures
        line_of(text, a) < line_of(text, b) || (line_of(text, a) == line_of(text, b)
            && column_of(text, a) < column_of(text, b)),
{
    lemma_newlines_monotone(text, a, b);
    if newlines_before(text, a) == newlines_before(text, b) {
        lemma_line_start_bounds(text, a);
        let s = line_start(text, a);
        assert forall|i: int| s <= i < b implies text[i] != LINE_FEED by {
            if i >= a {
                lemma_no_newline_between(text, a, i, b);
            }
        }
        lemma_line_start_at(text, s, b);
    }
}

/// Offsets of the first byte of every line of a text, built once per text.
pub struct PositionIndex {
    line_starts: Vec<usize>,
    len: usize,
    text: Ghost<Seq<u8>>,
}

impl PositionIndex {
    /// The text that this index was built from.
    pub closed spec fn text(&self) -> Seq<u8> {
        self.text@
    }

    /// The line starts are exactly the offsets that follow a line feed, and zero.
    pub closed spec fn wf(&self) -> bool {
        let starts = self.line_starts@;
        let text = self.text@;
        &&& self.len == text.len()
        &&& starts.len() >= 1
        &&& starts[0] == 0
        &&& forall|k: int| 0 <= k < starts.len() ==> starts[k] <= text.len()
        &&& forall|k: int| 0 < k < starts.len() ==> text[starts[k] - 1] == LINE_FEED
        &&& forall|k: int| 0 <= k < starts.len() ==> newlines_before(text, starts[k] as int) == k
        &&& newlines_before(text, text.len() as int) == starts.len() - 1
    }

    /// One pass over `text` recording where each line begins.
    pub fn new(text: &[u8]) -> (r: Self)
        ensures
            r.wf(),
            r.text() == text@,
    {
        let mut starts: Vec<usize> = Vec::new();
        starts.push(0);
        let mut i: usize = 0;
        while i < text.len()
            invariant
                i <= text@.len(),
                starts@.len() >= 1,
                starts@[0] == 0,
                forall|k: int| 0 <= k < starts@.len() ==> starts@[k] <= i,
                forall|k: int| 0 < k < starts@.len() ==> text@[starts@[k] - 1] == LINE_FEED,
                forall|k: int|
                    0 <= k < starts@.len() ==> newlines_before(text@, starts@[k] as int) == k,
                newlines_before(text@, i as int) == starts@.len() - 1,
            decreases text@.len() - i,
        {
            if text[i] == LINE_FEED {
                starts.push(i + 1);
            }
            i = i + 1;
        }
        PositionIndex { line_starts: starts, len: text.len(), text: Ghost(text@) }
    }

    /// Length in bytes of the indexed text.
    pub fn len(&self) -> (r: usize)
        requires
            self.wf(),
        ensures
            r == self.text().len(),
    {
        self.len
    }

    /// 1-based (line, column) of a byte offset, found by binary search over the line starts.
    pub fn map(&self, offset: usize) -> (r: (usize, usize))
        requires
            self.wf(),
            offset <= self.text().len(),
            offset < usize::MAX,
        ensures
            r.0 == line_of(self.text(), offset as int),
            r.1 == column_of(self.text(), offset as int),
    {
        let ghost text = self.text@;
        let n = self.line_starts.len();
        let mut lo: usize = 0;
        let mut hi: usize = n;
        while hi - lo > 1
            invariant
                self.wf(),
                n == self.line_starts@.len(),
                0 <= lo < hi <= n,
                self.line_starts@[lo as int] <= offset,
                hi == n || self.line_starts@[hi as int] > offset,
            decreases hi - lo,
        {
            let mid = lo + (hi - lo) / 2;
            if self.line_starts[mid] <= offset {
                lo = mid;
            } else {
                hi = mid;
            }
        }
        let start = self.line_starts[lo];
        proof {
            let starts = self.line_starts@;
            lemma_newlines_monotone(text, start as int, offset as int);
            if hi == n {
                lemma_newlines_monotone(text, offset as int, text.len() as int);
            } else {
                lemma_newlines_monotone(text, offset as int, starts[hi as int] - 1);
                assert(newlines_before(text, starts[hi as int] as int) == newlines_before(
                    text,
                    starts[hi as int] - 1,
                ) + 1);
            }
            assert forall|i: int| start <= i < offset implies text[i] != LINE_FEED by {
                lemma_no_newline_between(text, start as int, i, offset as int);
            }
            lemma_line_start_at(text, start as int, offset as int);
        }
        (lo + 1, offset - start + 1)
    }
}

} // verus!
