//! Byte ranges into a file, the line index, and the spans of the domain:
//! notes, tags and todos.

use vstd::prelude::*;
use vstd::utf8::*;

use crate::text;

verus! {

/// A half-open byte range `[start, end)` into a `TextBuffer`'s content string.
/// All span byte offsets must sit on UTF-8 char boundaries.
#[derive(Debug, Clone, Copy, PartialEq, Eq, Hash, Default, Structural)]
pub struct Span {
    pub start: usize,
    pub end: usize,
}

impl Span {
    /// A span inside `b` whose ends are character boundaries.
    pub open spec fn lies_in(self, b: Seq<u8>) -> bool {
        &&& self.start <= self.end <= b.len()
        &&& text::on_boundary(b, self.start as int)
        &&& text::on_boundary(b, self.end as int)
    }

    /// The bytes of `b` that the span covers.
    pub open spec fn of(self, b: Seq<u8>) -> Seq<u8> {
        b.subrange(self.start as int, self.end as int)
    }

    pub fn new(start: usize, end: usize) -> (r: Self)
        requires
            start <= end,
        ensures
            r.start == start,
            r.end == end,
    {
        Self { start, end }
    }

    pub fn len(self) -> (r: usize)
        requires
            self.start <= self.end,
        ensures
            r == self.end - self.start,
    {
        self.end - self.start
    }

    pub fn is_empty(self) -> (r: bool)
        ensures
            r == (self.start == self.end),
    {
        self.start == self.end
    }

    pub fn contains_offset(self, offset: usize) -> (r: bool)
        ensures
            r == (self.start <= offset < self.end),
    {
        offset >= self.start && offset < self.end
    }

    pub fn contains(self, other: Span) -> (r: bool)
        ensures
            r == (self.start <= other.start && other.end <= self.end),
    {
        other.start >= self.start && other.end <= self.end
    }

    pub fn overlaps(self, other: Span) -> (r: bool)
        ensures
            r == (self.start < other.end && other.start < self.end),
    {
        self.start < other.end && other.start < self.end
    }
}

// ---------------------------------------------------------------------------
// Line index
// ---------------------------------------------------------------------------

/// The offsets at which the lines of `b` start: 0, and the byte after every
/// `\n`, in order.
pub open spec fn line_starts(b: Seq<u8>) -> Seq<int>
    decreases b.len(),
{
    if b.len() == 0 {
        seq![0]
    } else if b.last() == 10u8 {
        line_starts(b.drop_last()).push(b.len() as int)
    } else {
        line_starts(b.drop_last())
    }
}

/// One past the last byte of line `l`, its `\n` included.
pub open spec fn line_stop(starts: Seq<int>, total: int, l: int) -> int {
    if l + 1 < starts.len() {
        starts[l + 1]
    } else {
        total
    }
}

/// `starts` begins with 0, grows strictly and stays within `total`.
pub open spec fn starts_ok(starts: Seq<int>, total: int) -> bool {
    &&& starts.len() >= 1
    &&& starts[0] == 0
    &&& total >= 0
    &&& forall|i: int, j: int| 0 <= i < j < starts.len() ==> starts[i] < starts[j]
    &&& forall|i: int| 0 <= i < starts.len() ==> 0 <= #[trigger] starts[i] <= total
}

/// Line starts are ordered and in range; each but the first follows a `\n`, and
/// there is no other `\n`.
pub proof fn lemma_line_starts(b: Seq<u8>)
    ensures
        starts_ok(line_starts(b), b.len() as int),
        line_starts(b).len() <= b.len() + 1,
        forall|i: int|
            1 <= i < line_starts(b).len() ==> b[#[trigger] line_starts(b)[i] - 1] == 10u8,
        forall|p: int|
            0 <= p < b.len() && #[trigger] b[p] == 10u8 ==> line_starts(b).contains(p + 1),
    decreases b.len(),
{
    if b.len() > 0 {
        let c = b.drop_last();
        lemma_line_starts(c);
        let s = line_starts(b);
        let t = line_starts(c);
        assert forall|i: int| 1 <= i < s.len() implies b[#[trigger] s[i] - 1] == 10u8 by {
            if i < t.len() {
                assert(s[i] == t[i]);
                assert(c[t[i] - 1] == 10u8);
            }
        }
        assert forall|p: int| 0 <= p < b.len() && #[trigger] b[p] == 10u8 implies s.contains(
            p + 1,
        ) by {
            if p < c.len() {
                assert(c[p] == 10u8);
                let k = choose|k: int| 0 <= k < t.len() && t[k] == p + 1;
                assert(s[k] == p + 1);
            } else {
                assert(s[s.len() - 1] == p + 1);
            }
        }
    }
}

/// Every line of a string starts, and stops, on a character boundary.
pub proof fn lemma_line_on_boundary(s: Seq<char>, l: int)
    requires
        0 <= l < line_starts(encode_utf8(s)).len(),
    ensures
        text::on_boundary(encode_utf8(s), line_starts(encode_utf8(s))[l]),
        text::on_boundary(
            encode_utf8(s),
            line_stop(line_starts(encode_utf8(s)), encode_utf8(s).len() as int, l),
        ),
{
    let b = encode_utf8(s);
    let st = line_starts(b);
    lemma_line_starts(b);
    encode_utf8_valid_utf8(s);
    text::lemma_boundary_ends(s);
    if l > 0 {
        text::lemma_after_ascii(b, st[l] - 1);
    }
    if l + 1 < st.len() {
        text::lemma_after_ascii(b, st[l + 1] - 1);
    }
}

/// Maps between byte offsets and (line, column) positions.
///
/// Built from a text snapshot; rebuild after any mutation.
/// Lines are 0-indexed. Columns are byte offsets from the line start.
pub struct LineIndex {
    /// Byte offset of the first byte of each line.
    /// Always starts with 0; line N starts at `starts[N]`.
    starts: Vec<usize>,
    /// Total byte length of the indexed text.
    total: usize,
}

impl LineIndex {
    /// The line starts.
    pub closed spec fn starts(&self) -> Seq<int> {
        self.starts@.map_values(|x: usize| x as int)
    }

    /// The length of the indexed text.
    pub closed spec fn total(&self) -> int {
        self.total as int
    }

    /// The start of line `l`.
    pub open spec fn start_of(&self, l: int) -> int {
        self.starts()[l]
    }

    /// One past the last byte of line `l`.
    pub open spec fn stop_of(&self, l: int) -> int {
        line_stop(self.starts(), self.total(), l)
    }

    /// The line starts are ordered and in range.
    pub open spec fn wf(&self) -> bool {
        &&& starts_ok(self.starts(), self.total())
        &&& self.starts().len() <= self.total() + 1
        &&& self.total() <= usize::MAX
    }

    /// The index belongs to the text `b`.
    pub open spec fn describes(&self, b: Seq<u8>) -> bool {
        self.starts() == line_starts(b) && self.total() == b.len()
    }

    /// `l` is the line on which `offset` lies; offsets past the end lie on the
    /// last line.
    pub open spec fn holds(&self, l: int, offset: int) -> bool {
        &&& 0 <= l < self.starts().len()
        &&& self.starts()[l] <= offset
        &&& l + 1 < self.starts().len() ==> offset < self.starts()[l + 1]
    }

    pub fn build(text: &str) -> (r: Self)
        ensures
            r.wf(),
            r.describes(encode_utf8(text@)),
    {
        let b = text.as_bytes();
        let mut starts: Vec<usize> = Vec::new();
        starts.push(0);
        let mut i: usize = 0;
        proof {
            assert(b@.subrange(0, 0) =~= Seq::<u8>::empty());
            assert(starts@.map_values(|x: usize| x as int) =~= line_starts(b@.subrange(0, 0)));
        }
        while i < b.len()
            invariant
                i <= b.len(),
                starts@.map_values(|x: usize| x as int) == line_starts(b@.subrange(0, i as int)),
            decreases b.len() - i,
        {
            proof {
                assert(b@.subrange(0, i + 1).drop_last() =~= b@.subrange(0, i as int));
            }
            if b[i] == 10u8 {
                starts.push(i + 1);
            }
            i += 1;
            proof {
                assert(starts@.map_values(|x: usize| x as int) =~= line_starts(
                    b@.subrange(0, i as int),
                ));
            }
        }
        proof {
            assert(b@.subrange(0, i as int) =~= b@);
            lemma_line_starts(b@);
        }
        Self { starts, total: b.len() }
    }

    pub fn line_count(&self) -> (r: usize)
        ensures
            r == self.starts().len(),
    {
        self.starts.len()
    }

    /// Byte offset of the first byte of `line` (inclusive).
    pub fn line_start(&self, line: usize) -> (r: Option<usize>)
        ensures
            r matches Some(s) ==> line < self.starts().len() && s == self.start_of(line as int),
            r is None <==> line >= self.starts().len(),
    {
        if line < self.starts.len() {
            Some(self.starts[line])
        } else {
            None
        }
    }

    /// Byte offset just past the last byte of `line` (exclusive).
    /// For lines with `\n`, this is the byte after `\n`.
    /// For the last line (no trailing `\n`), this is `total`.
    pub fn line_end(&self, line: usize) -> (r: Option<usize>)
        requires
            self.wf(),
        ensures
            r matches Some(s) ==> line < self.starts().len() && s == self.stop_of(line as int),
            r is None <==> line >= self.starts().len(),
    {
        if line >= self.starts.len() {
            return None;
        }
        if line + 1 < self.starts.len() {
            Some(self.starts[line + 1])
        } else {
            Some(self.total)
        }
    }

    pub fn line_span(&self, line: usize) -> (r: Option<Span>)
        requires
            self.wf(),
        ensures
            r matches Some(s) ==> line < self.starts().len() && s.start == self.start_of(
                line as int,
            ) && s.end == self.stop_of(line as int),
            r is None <==> line >= self.starts().len(),
    {
        match (self.line_start(line), self.line_end(line)) {
            (Some(s), Some(e)) => Some(Span::new(s, e)),
            _ => None,
        }
    }

    /// Returns the 0-indexed line that contains `offset`.
    /// Clamps to the last valid line when `offset >= total`.
    pub fn offset_to_line(&self, offset: usize) -> (r: usize)
        requires
            self.wf(),
        ensures
            self.holds(r as int, offset as int),
    {
        let mut lo: usize = 0;
        let mut hi: usize = self.starts.len();
        proof {
            assert(self.starts()[0] == self.starts[0]);
        }
        while hi - lo > 1
            invariant
                self.wf(),
                lo < hi <= self.starts.len(),
                self.starts[lo as int] <= offset,
                hi < self.starts.len() ==> offset < self.starts[hi as int],
            decreases hi - lo,
        {
            let mid = lo + (hi - lo) / 2;
            if self.starts[mid] <= offset {
                lo = mid;
            } else {
                hi = mid;
            }
        }
        lo
    }

    pub fn offset_to_line_col(&self, offset: usize) -> (r: (usize, usize))
        requires
            self.wf(),
        ensures
            self.holds(r.0 as int, offset as int),
            r.1 == offset - self.start_of(r.0 as int),
    {
        let line = self.offset_to_line(offset);
        let col = offset - self.starts[line];
        (line, col)
    }

    /// Convert (line, col) to a byte offset. Returns `None` if out of range.
    pub fn line_col_to_offset(&self, line: usize, col: usize) -> (r: Option<usize>)
        requires
            self.wf(),
        ensures
            r matches Some(o) ==> o == self.start_of(line as int) + col,
            r is Some <==> line < self.starts().len() && self.start_of(line as int) + col
                <= self.stop_of(line as int),
    {
        match (self.line_start(line), self.line_end(line)) {
            (Some(start), Some(end)) => {
                proof {
                    assert(start <= end);
                }
                if col <= end - start {
                    Some(start + col)
                } else {
                    None
                }
            },
            _ => None,
        }
    }
}

/// An offset survives the trip through its line and column: converting it with
/// `offset_to_line_col` and back with `line_col_to_offset` gives it again.
pub proof fn law_line_col_round_trip(li: &LineIndex, offset: int, line: int, col: int)
    requires
        li.wf(),
        0 <= offset <= li.total(),
        li.holds(line, offset),
        col == offset - li.start_of(line),
    ensures
        li.start_of(line) + col == offset,
        li.start_of(line) + col <= li.stop_of(line),
        0 <= line < li.starts().len(),
{
}

// ---------------------------------------------------------------------------
// Domain spans
// ---------------------------------------------------------------------------

/// The full extent of one note, from its `===` delimiter (or file start) to
/// the byte before the next `===` delimiter (or EOF).
#[derive(Debug, Clone, Copy)]
pub struct NoteSpan {
    /// Full note span (header line, if any, plus body).
    pub span: Span,
    /// The `===` line including its trailing newline.
    /// `None` for an implicit first note that has no delimiter.
    pub header: Option<Span>,
    /// Body: everything after the header line (or the whole note if no header).
    pub body: Span,
    /// `YYYY-MM-DD` token within the header, if present.
    pub date: Option<Span>,
    /// `HH:MM` token within the header, if present.
    pub time: Option<Span>,
    /// Title text within the header (after `|`), trimmed, if present.
    pub title: Option<Span>,
}

/// A `#tagname` token found in a note body.
#[derive(Debug, Clone, Copy)]
pub struct TagSpan {
    /// Includes the leading `#`.
    pub span: Span,
    /// Just the tag name (without `#`).
    pub name: Span,
}

#[derive(Debug, Clone, Copy, PartialEq, Eq, Structural)]
pub enum TodoKind {
    /// `TODO: text` / `DONE: text`
    Prefix,
    /// `- [ ] text` / `- [x] text`
    Checkbox,
}

#[derive(Debug, Clone, Copy, PartialEq, Eq, Structural)]
pub enum TodoState {
    Open,
    Done,
}

impl TodoState {
    pub open spec fn toggled(self) -> Self {
        match self {
            TodoState::Open => TodoState::Done,
            TodoState::Done => TodoState::Open,
        }
    }

    pub fn is_open(self) -> (r: bool)
        ensures
            r == (self is Open),
    {
        matches!(self, TodoState::Open)
    }

    pub fn toggle(self) -> (r: Self)
        ensures
            r == self.toggled(),
            r != self,
            r.toggled() == self,
    {
        match self {
            TodoState::Open => TodoState::Done,
            TodoState::Done => TodoState::Open,
        }
    }
}

/// A todo item found in a note body.
#[derive(Debug, Clone, Copy)]
pub struct TodoSpan {
    /// The full line including its trailing newline.
    pub span: Span,
    pub kind: TodoKind,
    pub state: TodoState,
    /// The task text (after `TODO: ` / `DONE: ` / `- [ ] ` prefix).
    pub text: Span,
    /// The `due:YYYY-MM-DD` token, if present.
    pub due: Option<Span>,
}

} // verus!
