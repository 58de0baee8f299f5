//! Text → spans: notes, their headers, tags and todos.

use vstd::prelude::*;
use vstd::slice::slice_subrange;
use vstd::utf8::*;

use crate::buffer::TextBuffer;
use crate::spans;
use crate::spans::{LineIndex, NoteSpan, Span, TagSpan, TodoKind, TodoSpan, TodoState};
use crate::text;

verus! {

pub struct ParseResult {
    pub notes: Vec<NoteSpan>,
    /// (note_idx, tag)
    pub tags: Vec<(usize, TagSpan)>,
    /// (note_idx, todo)
    pub todos: Vec<(usize, TodoSpan)>,
}

impl ParseResult {
    /// The result is the parse of the text `b`.
    pub open spec fn of(&self, b: Seq<u8>) -> bool {
        &&& self.notes@ == notes_of(b)
        &&& self.tags@ == tags_of(b)
        &&& self.todos@ == todos_of(b)
    }
}

/// The span `[from, to)`.
pub open spec fn span_of(from: int, to: int) -> Span {
    Span { start: from as usize, end: to as usize }
}

// ---------------------------------------------------------------------------
// Dates and times by shape
// ---------------------------------------------------------------------------

pub open spec fn is_digit(x: u8) -> bool {
    48 <= x <= 57
}

/// `b` holds `YYYY-MM-DD` at `p`.
pub open spec fn date_at(b: Seq<u8>, p: int) -> bool {
    &&& 0 <= p
    &&& p + 10 <= b.len()
    &&& is_digit(b[p]) && is_digit(b[p + 1]) && is_digit(b[p + 2]) && is_digit(b[p + 3])
    &&& b[p + 4] == 45
    &&& is_digit(b[p + 5]) && is_digit(b[p + 6])
    &&& b[p + 7] == 45
    &&& is_digit(b[p + 8]) && is_digit(b[p + 9])
}

/// `b` holds `HH:MM` at `p`.
pub open spec fn time_at(b: Seq<u8>, p: int) -> bool {
    &&& 0 <= p
    &&& p + 5 <= b.len()
    &&& is_digit(b[p]) && is_digit(b[p + 1])
    &&& b[p + 2] == 58
    &&& is_digit(b[p + 3]) && is_digit(b[p + 4])
}

fn digit(x: u8) -> (r: bool)
    ensures
        r == is_digit(x),
{
    48 <= x && x <= 57
}

/// Tests for `YYYY-MM-DD` at `p`.
pub fn is_date_at(b: &[u8], p: usize) -> (r: bool)
    ensures
        r == date_at(b@, p as int),
{
    if p > b.len() || b.len() - p < 10 {
        return false;
    }
    digit(b[p]) && digit(b[p + 1]) && digit(b[p + 2]) && digit(b[p + 3]) && b[p + 4] == 45u8
        && digit(b[p + 5]) && digit(b[p + 6]) && b[p + 7] == 45u8 && digit(b[p + 8]) && digit(
        b[p + 9],
    )
}

/// Tests for `HH:MM` at `p`.
pub fn is_time_at(b: &[u8], p: usize) -> (r: bool)
    ensures
        r == time_at(b@, p as int),
{
    if p > b.len() || b.len() - p < 5 {
        return false;
    }
    digit(b[p]) && digit(b[p + 1]) && b[p + 2] == 58u8 && digit(b[p + 3]) && digit(b[p + 4])
}

// ---------------------------------------------------------------------------
// Delimiter and fence lines
// ---------------------------------------------------------------------------

/// A line that opens a note.
pub open spec fn delimiter(line: Seq<u8>) -> bool {
    text::begins_with(line, encode_utf8("==="@))
}

pub fn is_delimiter_line(line: &str) -> (r: bool)
    ensures
        r == delimiter(encode_utf8(line@)),
{
    text::starts_with(line, "===")
}

pub open spec fn is_blank(x: u8) -> bool {
    x == 32 || x == 9
}

/// The first offset at or after `pos` that holds neither space nor tab.
pub open spec fn skip_blanks(line: Seq<u8>, pos: int) -> int
    decreases line.len() - pos,
{
    if 0 <= pos < line.len() && is_blank(line[pos]) {
        skip_blanks(line, pos + 1)
    } else {
        pos
    }
}

pub proof fn lemma_skip_blanks(line: Seq<u8>, pos: int)
    requires
        0 <= pos <= line.len(),
    ensures
        pos <= skip_blanks(line, pos) <= line.len(),
        forall|k: int| pos <= k < skip_blanks(line, pos) ==> is_blank(line[k]),
    decreases line.len() - pos,
{
    if pos < line.len() && is_blank(line[pos]) {
        lemma_skip_blanks(line, pos + 1);
    }
}

/// Length of the indentation of a line.
pub fn leading_whitespace(line: &[u8]) -> (r: usize)
    ensures
        r == skip_blanks(line@, 0),
        r <= line.len(),
{
    let mut i: usize = 0;
    while i < line.len() && (line[i] == 32u8 || line[i] == 9u8)
        invariant
            i <= line.len(),
            skip_blanks(line@, i as int) == skip_blanks(line@, 0),
        decreases line.len() - i,
    {
        i += 1;
    }
    i
}

/// A line that opens or closes a fenced code block.
pub open spec fn fence(line: Seq<u8>) -> bool {
    let p = skip_blanks(line, 0);
    text::occurs_at(line, p, encode_utf8("```"@)) || text::occurs_at(line, p, encode_utf8("~~~"@))
}

pub fn is_fence_line(line: &[u8]) -> (r: bool)
    ensures
        r == fence(line@),
{
    let p = leading_whitespace(line);
    text::bytes_at(line, p, "```".as_bytes()) || text::bytes_at(line, p, "~~~".as_bytes())
}

// ---------------------------------------------------------------------------
// Header parsing: `===` followed by an optional `|`-separated pair of
// segments. The date (`YYYY-MM-DD [HH:MM]`) may appear on either side of the
// pipe; the title is whatever non-date segment remains. Both orderings are
// supported transparently.
// ---------------------------------------------------------------------------

/// The segments of a header line: left of the first `|`, and right of it.
pub open spec fn header_segments(s: Seq<u8>) -> ((int, int), Option<(int, int)>) {
    let end = text::content_len(s);
    let from = text::skip_spaces(s, 3);
    match text::find_first(s, from, end, 124) {
        Some(p) => {
            let right = text::skip_spaces(s, p + 1);
            (
                (from, text::trim_spaces(s, from, p)),
                Some((right, text::trim_spaces(s, right, end))),
            )
        },
        None => ((from, text::trim_spaces(s, from, end)), None),
    }
}

/// Where the segment `[from, to)` of `s` starts with a date: the offset of the
/// time that follows it, if one does.
pub open spec fn stamp_in(s: Seq<u8>, from: int, to: int) -> Option<Option<int>> {
    if from + 10 <= to && date_at(s, from) {
        let p = text::skip_spaces(s, from + 10);
        Some(
            if p + 5 <= to && time_at(s, p) {
                Some(p)
            } else {
                None
            },
        )
    } else {
        None
    }
}

/// What a header line says: the offset of its date, the offset of its time, and
/// the range of its title.
pub struct Header {
    pub date: Option<int>,
    pub time: Option<int>,
    pub title: Option<(int, int)>,
}

pub open spec fn nonempty(r: (int, int)) -> Option<(int, int)> {
    if r.0 < r.1 {
        Some(r)
    } else {
        None
    }
}

/// The date stands on the side of the `|` that starts with one, the left side
/// first; the title is the other side. Without a date it is the left side, or
/// the right side if the left one is empty.
pub open spec fn header_of(s: Seq<u8>) -> Header {
    let (left, right) = header_segments(s);
    match stamp_in(s, left.0, left.1) {
        Some(time) => Header {
            date: Some(left.0),
            time,
            title: match right {
                Some(r) => nonempty(r),
                None => None,
            },
        },
        None => match right {
            Some(r) => match stamp_in(s, r.0, r.1) {
                Some(time) => Header { date: Some(r.0), time, title: nonempty(left) },
                None => Header {
                    date: None,
                    time: None,
                    title: match nonempty(left) {
                        Some(l) => Some(l),
                        None => nonempty(r),
                    },
                },
            },
            None => Header { date: None, time: None, title: nonempty(left) },
        },
    }
}

pub open spec fn date_span(h: Header, base: int) -> Option<Span> {
    match h.date {
        Some(p) => Some(span_of(base + p, base + p + 10)),
        None => None,
    }
}

pub open spec fn time_span(h: Header, base: int) -> Option<Span> {
    match h.time {
        Some(p) => Some(span_of(base + p, base + p + 5)),
        None => None,
    }
}

pub open spec fn title_span(h: Header, base: int) -> Option<Span> {
    match h.title {
        Some((p, q)) => Some(span_of(base + p, base + q)),
        None => None,
    }
}

pub proof fn lemma_delimiter(line: Seq<u8>)
    ensures
        delimiter(line) <==> line.len() >= 3 && line[0] == 61 && line[1] == 61 && line[2] == 61,
{
    reveal_strlit("===");
    is_ascii_chars_encode_utf8("==="@);
    let e = encode_utf8("==="@);
    assert(e =~= seq![61u8, 61u8, 61u8]);
    if delimiter(line) {
        assert(line.subrange(0, 3)[0] == e[0]);
        assert(line.subrange(0, 3)[1] == e[1]);
        assert(line.subrange(0, 3)[2] == e[2]);
    } else if line.len() >= 3 && line[0] == 61 && line[1] == 61 && line[2] == 61 {
        assert(line.subrange(0, 3) =~= e);
    }
}

/// The segments of a delimiter line lie in it, in order; what stands before
/// each is one byte long, and so is what stands behind it within the line.
pub proof fn lemma_header_segments(s: Seq<u8>)
    requires
        delimiter(s),
    ensures
        ({
            let (left, right) = header_segments(s);
            let end = text::content_len(s);
            &&& 3 <= left.0 <= left.1 <= end <= s.len()
            &&& s[left.0 - 1] < 0x80
            &&& left.1 < s.len() ==> s[left.1] < 0x80
            &&& right matches Some(r) ==> {
                &&& left.1 < r.0 <= r.1 <= end
                &&& s[r.0 - 1] < 0x80
                &&& r.1 < s.len() ==> s[r.1] < 0x80
            }
        }),
{
    lemma_delimiter(s);
    text::lemma_content_len(s);
    let end = text::content_len(s);
    let from = text::skip_spaces(s, 3);
    text::lemma_skip_spaces(s, 3);
    assert(end >= 3);
    assert(from <= end) by {
        if from > end {
            assert(text::is_newline(s[end]));
            assert(s[end] == 32);
        }
    }
    text::lemma_find_first(s, from, end, 124);
    match text::find_first(s, from, end, 124) {
        Some(p) => {
            text::lemma_trim_spaces(s, from, p);
            text::lemma_skip_spaces(s, p + 1);
            let right = text::skip_spaces(s, p + 1);
            assert(right <= end) by {
                if right > end {
                    assert(text::is_newline(s[end]));
                    assert(s[end] == 32);
                }
            }
            text::lemma_trim_spaces(s, right, end);
        },
        None => {
            text::lemma_trim_spaces(s, from, end);
        },
    }
}

/// Try to parse `s[from..to]` as `YYYY-MM-DD [HH:MM]`. Gives the offset of the
/// time, if the segment *starts* with a date.
fn parse_date_segment(s: &[u8], from: usize, to: usize) -> (r: Option<Option<usize>>)
    requires
        from <= to <= s.len(),
    ensures
        match (r, stamp_in(s@, from as int, to as int)) {
            (Some(Some(p)), Some(Some(q))) => p == q && p + 5 <= to,
            (Some(None), Some(None)) => true,
            (None, None) => true,
            _ => false,
        },
        r is Some ==> from + 10 <= to,
{
    if to - from < 10 || !is_date_at(s, from) {
        return None;
    }
    let p = text::skip_sp(s, from + 10);
    if p <= to && to - p >= 5 && is_time_at(s, p) {
        Some(Some(p))
    } else {
        Some(None)
    }
}

fn title_at(base: usize, from: usize, to: usize) -> (r: Option<Span>)
    requires
        from <= to,
        base + to <= usize::MAX,
    ensures
        r == (match nonempty((from as int, to as int)) {
            Some((p, q)) => Some(span_of(base + p, base + q)),
            None => None,
        }),
{
    if from < to {
        Some(Span::new(base + from, base + to))
    } else {
        None
    }
}

/// Date, time and title spans of the delimiter line `s`, which starts at
/// offset `base` of its file.
fn parse_header(s: &[u8], base: usize) -> (r: (Option<Span>, Option<Span>, Option<Span>))
    requires
        delimiter(s@),
        base + s.len() <= usize::MAX,
    ensures
        r.0 == date_span(header_of(s@), base as int),
        r.1 == time_span(header_of(s@), base as int),
        r.2 == title_span(header_of(s@), base as int),
{
    proof {
        lemma_delimiter(s@);
        lemma_header_segments(s@);
    }
    let content_end = text::content_length(s);
    let after_eq = text::skip_sp(s, 3);

    // Split header content (after `===`) on the first `|`.
    let (left_e, right_seg): (usize, Option<(usize, usize)>) = match text::find_byte(
        s,
        after_eq,
        content_end,
        124u8,
    ) {
        Some(p) => {
            let left_e = text::trim_trailing_spaces(s, after_eq, p);
            let right_s = text::skip_sp(s, p + 1);
            let right_e = text::trim_trailing_spaces(s, right_s, content_end);
            (left_e, Some((right_s, right_e)))
        },
        None => (text::trim_trailing_spaces(s, after_eq, content_end), None),
    };

    // The date on the left: the title is on the right (or there is none).
    if let Some(time) = parse_date_segment(s, after_eq, left_e) {
        let title = match right_seg {
            Some((rs, re)) => title_at(base, rs, re),
            None => None,
        };
        let time_sp = match time {
            Some(p) => Some(Span::new(base + p, base + p + 5)),
            None => None,
        };
        return (Some(Span::new(base + after_eq, base + after_eq + 10)), time_sp, title);
    }
    // The date on the right: the title is on the left.
    if let Some((rs, re)) = right_seg {
        if let Some(time) = parse_date_segment(s, rs, re) {
            let time_sp = match time {
                Some(p) => Some(Span::new(base + p, base + p + 5)),
                None => None,
            };
            return (
                Some(Span::new(base + rs, base + rs + 10)),
                time_sp,
                title_at(base, after_eq, left_e),
            );
        }
    }
    // No date anywhere: the left side, or the right one if that is empty.
    let title = match (title_at(base, after_eq, left_e), right_seg) {
        (Some(t), _) => Some(t),
        (None, Some((rs, re))) => title_at(base, rs, re),
        (None, None) => None,
    };
    (None, None, title)
}

// ---------------------------------------------------------------------------
// Note splitting
// ---------------------------------------------------------------------------

/// The bytes of line `l` of `b`.
pub open spec fn line_of(b: Seq<u8>, l: int) -> Seq<u8> {
    b.subrange(
        spans::line_starts(b)[l],
        spans::line_stop(spans::line_starts(b), b.len() as int, l),
    )
}

/// The delimiter lines among the first `n` lines of `b`.
pub open spec fn delimiter_lines(b: Seq<u8>, n: int) -> Seq<int>
    decreases n,
{
    if n <= 0 {
        Seq::empty()
    } else if delimiter(line_of(b, n - 1)) {
        delimiter_lines(b, n - 1).push(n - 1)
    } else {
        delimiter_lines(b, n - 1)
    }
}

/// The lines on which notes start, each with whether it is a delimiter: the
/// delimiter lines, after line 0 for the implicit first note of a file that
/// does not begin with one.
pub open spec fn note_heads(b: Seq<u8>) -> Seq<(int, bool)> {
    let d = delimiter_lines(b, spans::line_starts(b).len() as int);
    let rest = d.map_values(|l: int| (l, true));
    if d.len() == 0 || d[0] > 0 {
        seq![(0int, false)] + rest
    } else {
        rest
    }
}

/// The note that starts on line `head.0` and ends before the byte `stop`.
pub open spec fn note_from(b: Seq<u8>, head: (int, bool), stop: int) -> NoteSpan {
    let from = spans::line_starts(b)[head.0];
    let header_stop = spans::line_stop(spans::line_starts(b), b.len() as int, head.0);
    let h = header_of(line_of(b, head.0));
    if head.1 {
        NoteSpan {
            span: span_of(from, stop),
            header: Some(span_of(from, header_stop)),
            body: span_of(header_stop, stop),
            date: date_span(h, from),
            time: time_span(h, from),
            title: title_span(h, from),
        }
    } else {
        NoteSpan {
            span: span_of(from, stop),
            header: None,
            body: span_of(from, stop),
            date: None,
            time: None,
            title: None,
        }
    }
}

/// The byte at which note `i` ends: the start of the next note, or the end of
/// the file.
pub open spec fn note_stop(b: Seq<u8>, i: int) -> int {
    if i + 1 < note_heads(b).len() {
        spans::line_starts(b)[note_heads(b)[i + 1].0]
    } else {
        b.len() as int
    }
}

/// The notes of a file.
pub open spec fn notes_of(b: Seq<u8>) -> Seq<NoteSpan> {
    Seq::new(note_heads(b).len(), |i: int| note_from(b, note_heads(b)[i], note_stop(b, i)))
}

pub proof fn lemma_delimiter_lines(b: Seq<u8>, n: int)
    ensures
        forall|i: int|
            0 <= i < delimiter_lines(b, n).len() ==> 0 <= #[trigger] delimiter_lines(b, n)[i] < n
                && delimiter(line_of(b, delimiter_lines(b, n)[i])),
        forall|i: int, j: int|
            0 <= i < j < delimiter_lines(b, n).len() ==> delimiter_lines(b, n)[i]
                < delimiter_lines(b, n)[j],
        delimiter_lines(b, n).len() <= if n < 0 {
            0
        } else {
            n
        },
    decreases n,
{
    if n > 0 {
        lemma_delimiter_lines(b, n - 1);
    }
}

/// Note heads are ordered lines of the file, the first of them line 0.
pub proof fn lemma_note_heads(b: Seq<u8>)
    ensures
        note_heads(b).len() >= 1,
        note_heads(b)[0].0 == 0,
        forall|i: int|
            0 <= i < note_heads(b).len() ==> 0 <= (#[trigger] note_heads(b)[i]).0
                < spans::line_starts(b).len() && (note_heads(b)[i].1 ==> delimiter(
                line_of(b, note_heads(b)[i].0),
            )),
        forall|i: int, j: int|
            0 <= i < j < note_heads(b).len() ==> note_heads(b)[i].0 < note_heads(b)[j].0,
        note_heads(b).len() <= spans::line_starts(b).len() + 1,
        forall|i: int| 1 <= i < note_heads(b).len() ==> (#[trigger] note_heads(b)[i]).1,
{
    spans::lemma_line_starts(b);
    lemma_delimiter_lines(b, spans::line_starts(b).len() as int);
}

fn delimiters(text: &str, li: &LineIndex) -> (r: Vec<usize>)
    requires
        li.wf(),
        li.describes(encode_utf8(text@)),
    ensures
        r@.map_values(|x: usize| x as int) == delimiter_lines(
            encode_utf8(text@),
            spans::line_starts(encode_utf8(text@)).len() as int,
        ),
{
    let b = text.as_bytes();
    let n = li.line_count();
    let mut out: Vec<usize> = Vec::new();
    let mut l: usize = 0;
    proof {
        assert(out@.map_values(|x: usize| x as int) =~= delimiter_lines(b@, 0));
    }
    while l < n
        invariant
            li.wf(),
            li.describes(b@),
            n == spans::line_starts(b@).len(),
            l <= n,
            out@.map_values(|x: usize| x as int) == delimiter_lines(b@, l as int),
        decreases n - l,
    {
        if let Some(sp) = li.line_span(l) {
            proof {
                spans::lemma_line_starts(b@);
            }
            let line = slice_subrange(b, sp.start, sp.end);
            if text::bytes_at(line, 0, "===".as_bytes()) {
                out.push(l);
            }
            proof {
                assert(out@.map_values(|x: usize| x as int) =~= delimiter_lines(b@, l + 1));
            }
        }
        l += 1;
    }
    out
}

fn build_note_spans(text: &str, li: &LineIndex, delim_lines: &Vec<usize>) -> (r: Vec<NoteSpan>)
    requires
        li.wf(),
        li.describes(encode_utf8(text@)),
        delim_lines@.map_values(|x: usize| x as int) == delimiter_lines(
            encode_utf8(text@),
            spans::line_starts(encode_utf8(text@)).len() as int,
        ),
    ensures
        r@ == notes_of(encode_utf8(text@)),
{
    let b = text.as_bytes();
    let total = b.len();
    let ghost heads = note_heads(b@);
    let mut bounds: Vec<(usize, bool)> = Vec::new();

    // If the first delimiter is not line 0, there is an implicit first note.
    if delim_lines.len() == 0 || delim_lines[0] > 0 {
        bounds.push((0, false));
    }
    let ghost lead = bounds@;
    let mut d: usize = 0;
    while d < delim_lines.len()
        invariant
            d <= delim_lines.len(),
            bounds@ == lead + delim_lines@.subrange(0, d as int).map_values(|l: usize| (l, true)),
        decreases delim_lines.len() - d,
    {
        bounds.push((delim_lines[d], true));
        d += 1;
        proof {
            assert(bounds@ =~= lead + delim_lines@.subrange(0, d as int).map_values(
                |l: usize| (l, true),
            ));
        }
    }
    proof {
        lemma_note_heads(b@);
        let dl = delim_lines@.map_values(|x: usize| x as int);
        assert(delim_lines@.subrange(0, d as int) =~= delim_lines@);
        assert(dl.len() == delim_lines.len());
        if dl.len() > 0 {
            assert(dl[0] == delim_lines[0]);
        }
        assert(bounds@.len() == heads.len());
        assert forall|i: int| 0 <= i < heads.len() implies (#[trigger] bounds@[i]).0 == heads[i].0
            && bounds@[i].1 == heads[i].1 by {
            let off = lead.len() as int;
            if i >= off {
                assert(dl[i - off] == delim_lines[i - off]);
            }
        }
    }

    let mut notes: Vec<NoteSpan> = Vec::new();
    let mut i: usize = 0;
    while i < bounds.len()
        invariant
            li.wf(),
            li.describes(b@),
            b@ == encode_utf8(text@),
            total == b.len(),
            heads == note_heads(b@),
            bounds@.len() == heads.len(),
            forall|k: int|
                0 <= k < heads.len() ==> (#[trigger] bounds@[k]).0 == heads[k].0 && bounds@[k].1
                    == heads[k].1,
            i <= bounds.len(),
            notes@.len() == i,
            forall|k: int| 0 <= k < i ==> notes@[k] == #[trigger] notes_of(b@)[k],
        decreases bounds.len() - i,
    {
        proof {
            lemma_note_heads(b@);
            spans::lemma_line_starts(b@);
        }
        let (line, has_header) = bounds[i];
        let mut span_end: usize = total;
        if i + 1 < bounds.len() {
            proof {
                assert(bounds@[i + 1].0 == heads[i + 1].0);
            }
            if let Some(s) = li.line_start(bounds[i + 1].0) {
                span_end = s;
            }
        }
        proof {
            assert(bounds@[i as int].0 == heads[i as int].0);
            assert(span_end == note_stop(b@, i as int));
            assert(heads[i as int].0 < heads.len() ==> true);
        }
        if let Some(header_span) = li.line_span(line) {
            proof {
                let st = spans::line_starts(b@);
                assert(header_span.end <= span_end) by {
                    if i + 1 < heads.len() {
                        assert(heads[i as int].0 < heads[i + 1].0);
                        if heads[i as int].0 + 1 < heads[i + 1].0 {
                            assert(st[heads[i as int].0 + 1] < st[heads[i + 1].0]);
                        }
                    }
                }
            }
            let span = Span::new(header_span.start, span_end);
            if has_header {
                let line_bytes = slice_subrange(b, header_span.start, header_span.end);
                let body = Span::new(header_span.end, span_end);
                let (date, time, title) = parse_header(line_bytes, header_span.start);
                notes.push(
                    NoteSpan { span, header: Some(header_span), body, date, time, title },
                );
            } else {
                notes.push(
                    NoteSpan { span, header: None, body: span, date: None, time: None, title: None },
                );
            }
            proof {
                assert(notes@[i as int] == notes_of(b@)[i as int]);
            }
        }
        i += 1;
    }
    proof {
        assert(notes@ =~= notes_of(b@));
    }
    notes
}


// ---------------------------------------------------------------------------
// Todo detection
// ---------------------------------------------------------------------------

/// The marker of a todo line, which stands after its indentation.
pub open spec fn todo_marker(line: Seq<u8>) -> Option<(TodoKind, TodoState)> {
    let p = skip_blanks(line, 0);
    if text::occurs_at(line, p, encode_utf8("- [ ]"@)) {
        Some((TodoKind::Checkbox, TodoState::Open))
    } else if text::occurs_at(line, p, encode_utf8("- [x]"@)) {
        Some((TodoKind::Checkbox, TodoState::Done))
    } else if text::occurs_at(line, p, encode_utf8("TODO:"@)) {
        Some((TodoKind::Prefix, TodoState::Open))
    } else if text::occurs_at(line, p, encode_utf8("DONE:"@)) {
        Some((TodoKind::Prefix, TodoState::Done))
    } else {
        None
    }
}

/// Where the task text of a todo line starts: after the marker and at most one
/// space.
pub open spec fn task_start(line: Seq<u8>) -> int {
    let p = skip_blanks(line, 0) + 5;
    if p < line.len() && line[p] == 32 {
        p + 1
    } else {
        p
    }
}

/// A `due:YYYY-MM-DD` token at `p`: at the start of the line or after a blank.
pub open spec fn due_at(line: Seq<u8>, p: int) -> bool {
    &&& text::occurs_at(line, p, encode_utf8("due:"@))
    &&& p == 0 || is_blank(line[p - 1])
    &&& date_at(line, p + 4)
}

/// The first due token at or after `p`.
pub open spec fn due_from(line: Seq<u8>, p: int) -> Option<int>
    decreases line.len() - p,
{
    if p >= line.len() {
        None
    } else if due_at(line, p) {
        Some(p)
    } else {
        due_from(line, p + 1)
    }
}

pub open spec fn due_span(line: Seq<u8>, base: int) -> Option<Span> {
    match due_from(line, 0) {
        Some(p) => Some(span_of(base + p, base + p + 14)),
        None => None,
    }
}

/// The todo on a line that starts at offset `base`.
pub open spec fn todo_of(line: Seq<u8>, base: int) -> Option<TodoSpan> {
    match todo_marker(line) {
        Some((kind, state)) => Some(
            TodoSpan {
                span: span_of(base, base + line.len()),
                kind,
                state,
                text: span_of(base + task_start(line), base + text::content_len(line)),
                due: due_span(line, base),
            },
        ),
        None => None,
    }
}

/// The bytes of the todo markers and of the due token.
pub proof fn lemma_markers()
    ensures
        encode_utf8("- [ ]"@) == seq![45u8, 32u8, 91u8, 32u8, 93u8],
        encode_utf8("- [x]"@) == seq![45u8, 32u8, 91u8, 120u8, 93u8],
        encode_utf8("- [X]"@) == seq![45u8, 32u8, 91u8, 88u8, 93u8],
        encode_utf8("TODO:"@) == seq![84u8, 79u8, 68u8, 79u8, 58u8],
        encode_utf8("DONE:"@) == seq![68u8, 79u8, 78u8, 69u8, 58u8],
        encode_utf8("due:"@) == seq![100u8, 117u8, 101u8, 58u8],
{
    reveal_strlit("- [ ]");
    reveal_strlit("- [x]");
    reveal_strlit("- [X]");
    reveal_strlit("TODO:");
    reveal_strlit("DONE:");
    reveal_strlit("due:");
    is_ascii_chars_encode_utf8("- [ ]"@);
    is_ascii_chars_encode_utf8("- [x]"@);
    is_ascii_chars_encode_utf8("- [X]"@);
    is_ascii_chars_encode_utf8("TODO:"@);
    is_ascii_chars_encode_utf8("DONE:"@);
    is_ascii_chars_encode_utf8("due:"@);
    assert(encode_utf8("- [ ]"@) =~= seq![45u8, 32u8, 91u8, 32u8, 93u8]);
    assert(encode_utf8("- [x]"@) =~= seq![45u8, 32u8, 91u8, 120u8, 93u8]);
    assert(encode_utf8("- [X]"@) =~= seq![45u8, 32u8, 91u8, 88u8, 93u8]);
    assert(encode_utf8("TODO:"@) =~= seq![84u8, 79u8, 68u8, 79u8, 58u8]);
    assert(encode_utf8("DONE:"@) =~= seq![68u8, 79u8, 78u8, 69u8, 58u8]);
    assert(encode_utf8("due:"@) =~= seq![100u8, 117u8, 101u8, 58u8]);
}

/// A todo line is at least as long as its marker; the byte before the task text
/// is one byte long.
pub proof fn lemma_todo_shape(line: Seq<u8>)
    requires
        todo_marker(line) is Some,
    ensures
        0 < task_start(line) <= text::content_len(line) <= line.len(),
        line[task_start(line) - 1] < 0x80,
{
    lemma_markers();
    lemma_skip_blanks(line, 0);
    text::lemma_content_len(line);
    let p = skip_blanks(line, 0);
    assert(line.subrange(p, p + 5)[4] == line[p + 4]);
    assert(line[p + 4] == 93 || line[p + 4] == 58);
    if text::content_len(line) < task_start(line) {
        assert(text::is_newline(line[task_start(line) - 1]));
    }
}

fn find_due_span(line: &[u8], line_start: usize) -> (r: Option<Span>)
    requires
        line_start + line.len() <= usize::MAX,
    ensures
        r == due_span(line@, line_start as int),
{
    let mut p: usize = 0;
    while p < line.len()
        invariant
            p <= line.len(),
            line_start + line.len() <= usize::MAX,
            due_from(line@, p as int) == due_from(line@, 0),
        decreases line.len() - p,
    {
        if (p == 0 || line[p - 1] == 32u8 || line[p - 1] == 9u8) && text::bytes_at(
            line,
            p,
            "due:".as_bytes(),
        ) {
            proof {
                lemma_markers();
            }
            if is_date_at(line, p + 4) {
                return Some(Span::new(line_start + p, line_start + p + 14));
            }
        }
        p += 1;
    }
    None
}

fn scan_line_for_todo(line: &[u8], line_start: usize) -> (r: Option<TodoSpan>)
    requires
        line_start + line.len() <= usize::MAX,
    ensures
        r == todo_of(line@, line_start as int),
{
    let p = leading_whitespace(line);
    let (kind, state) = if text::bytes_at(line, p, "- [ ]".as_bytes()) {
        (TodoKind::Checkbox, TodoState::Open)
    } else if text::bytes_at(line, p, "- [x]".as_bytes()) {
        (TodoKind::Checkbox, TodoState::Done)
    } else if text::bytes_at(line, p, "TODO:".as_bytes()) {
        (TodoKind::Prefix, TodoState::Open)
    } else if text::bytes_at(line, p, "DONE:".as_bytes()) {
        (TodoKind::Prefix, TodoState::Done)
    } else {
        return None;
    };
    proof {
        lemma_todo_shape(line@);
        lemma_markers();
    }
    let marker_end = p + 5;
    let text_start = if marker_end < line.len() && line[marker_end] == 32u8 {
        marker_end + 1
    } else {
        marker_end
    };
    let content_end = text::content_length(line);
    let due = find_due_span(line, line_start);
    Some(
        TodoSpan {
            span: Span::new(line_start, line_start + line.len()),
            kind,
            state,
            text: Span::new(line_start + text_start, line_start + content_end),
            due,
        },
    )
}

// ---------------------------------------------------------------------------
// Tag detection
// ---------------------------------------------------------------------------

pub open spec fn is_tag_byte(x: u8) -> bool {
    (65 <= x <= 90) || (97 <= x <= 122) || is_digit(x) || x == 95 || x == 47 || x == 45
}

/// One past the run of tag characters at `p`.
pub open spec fn tag_run(line: Seq<u8>, p: int) -> int
    decreases line.len() - p,
{
    if 0 <= p < line.len() && is_tag_byte(line[p]) {
        tag_run(line, p + 1)
    } else {
        p
    }
}

pub proof fn lemma_tag_run(line: Seq<u8>, p: int)
    requires
        0 <= p <= line.len(),
    ensures
        p <= tag_run(line, p) <= line.len(),
        forall|k: int| p <= k < tag_run(line, p) ==> is_tag_byte(line[k]),
        tag_run(line, p) < line.len() ==> !is_tag_byte(line[tag_run(line, p)]),
    decreases line.len() - p,
{
    if p < line.len() && is_tag_byte(line[p]) {
        lemma_tag_run(line, p + 1);
    }
}

/// The single-backtick code spans of a line, at or after `p`.
pub open spec fn code_spans(line: Seq<u8>, p: int) -> Seq<(int, int)>
    decreases line.len() - p,
{
    if p < 0 || p >= line.len() {
        Seq::empty()
    } else if line[p] == 96 {
        proof {
            lemma_code_close(line, p + 1);
        }
        match code_close(line, p + 1) {
            Some(q) => seq![(p, q + 1)] + code_spans(line, q + 1),
            None => Seq::empty(),
        }
    } else {
        code_spans(line, p + 1)
    }
}

/// The backtick that closes a code span whose text starts at `p`: the next one
/// before the end of the line.
pub open spec fn code_close(line: Seq<u8>, p: int) -> Option<int>
    decreases line.len() - p,
{
    if p < 0 || p >= line.len() || line[p] == 10 {
        None
    } else if line[p] == 96 {
        Some(p)
    } else {
        code_close(line, p + 1)
    }
}

pub proof fn lemma_code_close(line: Seq<u8>, p: int)
    ensures
        code_close(line, p) matches Some(q) ==> p <= q < line.len() && line[q] == 96,
    decreases line.len() - p,
{
    if 0 <= p < line.len() && line[p] != 10 && line[p] != 96 {
        lemma_code_close(line, p + 1);
    }
}

/// `p` lies in inline code.
pub open spec fn in_code(line: Seq<u8>, p: int) -> bool {
    exists|k: int|
        0 <= k < code_spans(line, 0).len() && (#[trigger] code_spans(line, 0)[k]).0 <= p
            < code_spans(line, 0)[k].1
}

/// Some byte of `line[p..q]` is no digit.
pub open spec fn has_non_digit(line: Seq<u8>, p: int, q: int) -> bool {
    exists|k: int| p <= k < q && !is_digit(#[trigger] line[k])
}

/// A tag starts at `p`: a `#` outside inline code, at the start of the line or
/// after white space, followed by tag characters that are not all digits.
pub open spec fn tag_at(line: Seq<u8>, p: int) -> bool {
    &&& line[p] == 35
    &&& !in_code(line, p)
    &&& p == 0 || is_blank(line[p - 1]) || text::is_newline(line[p - 1])
    &&& has_non_digit(line, p + 1, tag_run(line, p + 1))
}

/// The tags on a line that starts at offset `base`, at or after `p`.
pub open spec fn line_tags(line: Seq<u8>, base: int, p: int, note: int) -> Seq<(usize, TagSpan)>
    decreases line.len() - p,
{
    if p < 0 || p >= line.len() {
        Seq::empty()
    } else if tag_at(line, p) {
        let q = tag_run(line, p + 1);
        proof {
            lemma_tag_run(line, p + 1);
        }
        seq![
            (
                note as usize,
                TagSpan {
                    span: span_of(base + p, base + q),
                    name: span_of(base + p + 1, base + q),
                },
            ),
        ] + line_tags(line, base, q, note)
    } else {
        line_tags(line, base, p + 1, note)
    }
}

/// Tag name characters: alphanumeric or `_`, `/`, `-`.
fn is_tag_name_char(x: u8) -> (r: bool)
    ensures
        r == is_tag_byte(x),
{
    (65 <= x && x <= 90) || (97 <= x && x <= 122) || digit(x) || x == 95u8 || x == 47u8 || x == 45u8
}

fn inline_code_ranges(line: &[u8]) -> (r: Vec<(usize, usize)>)
    ensures
        r@.map_values(|c: (usize, usize)| (c.0 as int, c.1 as int)) == code_spans(line@, 0),
{
    let mut ranges: Vec<(usize, usize)> = Vec::new();
    let mut pos: usize = 0;
    proof {
        assert(ranges@.map_values(|c: (usize, usize)| (c.0 as int, c.1 as int)) + code_spans(
            line@,
            0,
        ) =~= code_spans(line@, 0));
    }
    while pos < line.len()
        invariant
            pos <= line.len(),
            ranges@.map_values(|c: (usize, usize)| (c.0 as int, c.1 as int)) + code_spans(
                line@,
                pos as int,
            ) == code_spans(line@, 0),
        decreases line.len() - pos,
    {
        if line[pos] == 96u8 {
            let start = pos;
            let ghost before = ranges@.map_values(|c: (usize, usize)| (c.0 as int, c.1 as int));
            pos += 1;
            // Find the closing backtick (not past the end of the line).
            while pos < line.len() && line[pos] != 96u8 && line[pos] != 10u8
                invariant
                    start < pos <= line.len(),
                    code_close(line@, pos as int) == code_close(line@, start + 1),
                decreases line.len() - pos,
            {
                pos += 1;
            }
            if pos < line.len() && line[pos] == 96u8 {
                ranges.push((start, pos + 1));
                pos += 1;
                proof {
                    let now = ranges@.map_values(|c: (usize, usize)| (c.0 as int, c.1 as int));
                    assert(now =~= before.push((start as int, pos as int)));
                    assert(now + code_spans(line@, pos as int) =~= before + (seq![
                        (start as int, pos as int),
                    ] + code_spans(line@, pos as int)));
                }
            } else {
                proof {
                    assert(code_spans(line@, start as int) =~= Seq::empty());
                    assert(before =~= code_spans(line@, 0));
                }
                return ranges;
            }
        } else {
            pos += 1;
        }
    }
    proof {
        assert(ranges@.map_values(|c: (usize, usize)| (c.0 as int, c.1 as int))
            =~= code_spans(line@, 0));
    }
    ranges
}

fn in_code_range(pos: usize, ranges: &Vec<(usize, usize)>) -> (r: bool)
    ensures
        r == exists|k: int| 0 <= k < ranges@.len() && (#[trigger] ranges@[k]).0 <= pos < ranges@[k].1,
{
    let mut i: usize = 0;
    while i < ranges.len()
        invariant
            i <= ranges.len(),
            forall|k: int| 0 <= k < i ==> !((#[trigger] ranges@[k]).0 <= pos < ranges@[k].1),
        decreases ranges.len() - i,
    {
        if ranges[i].0 <= pos && pos < ranges[i].1 {
            return true;
        }
        i += 1;
    }
    false
}

fn scan_line_for_tags(
    line: &[u8],
    line_start: usize,
    note_idx: usize,
    tags: &mut Vec<(usize, TagSpan)>,
)
    requires
        line_start + line.len() <= usize::MAX,
    ensures
        final(tags)@ == old(tags)@ + line_tags(line@, line_start as int, 0, note_idx as int),
{
    let code_ranges = inline_code_ranges(line);
    let mut pos: usize = 0;
    let ghost whole = old(tags)@ + line_tags(line@, line_start as int, 0, note_idx as int);
    while pos < line.len()
        invariant
            pos <= line.len(),
            line_start + line.len() <= usize::MAX,
            code_ranges@.map_values(|c: (usize, usize)| (c.0 as int, c.1 as int)) == code_spans(
                line@,
                0,
            ),
            tags@ + line_tags(line@, line_start as int, pos as int, note_idx as int) == whole,
        decreases line.len() - pos,
    {
        let hidden = in_code_range(pos, &code_ranges);
        proof {
            let cs = code_spans(line@, 0);
            assert(hidden == in_code(line@, pos as int)) by {
                if hidden {
                    let k = choose|k: int|
                        0 <= k < code_ranges@.len() && (#[trigger] code_ranges@[k]).0 <= pos
                            < code_ranges@[k].1;
                    assert(cs[k].0 == code_ranges@[k].0);
                }
                if in_code(line@, pos as int) {
                    let k = choose|k: int|
                        0 <= k < cs.len() && (#[trigger] cs[k]).0 <= pos < cs[k].1;
                    assert(cs[k].0 == code_ranges@[k].0);
                }
            }
        }
        if line[pos] != 35u8 || hidden {
            pos += 1;
            continue ;
        }
        // Must be at line start or preceded by whitespace
        let preceded_ok = pos == 0 || line[pos - 1] == 32u8 || line[pos - 1] == 9u8 || line[pos - 1]
            == 10u8 || line[pos - 1] == 13u8;
        if !preceded_ok {
            pos += 1;
            continue ;
        }
        let name_start = pos + 1;
        let mut name_end: usize = name_start;
        let mut named = false;
        while name_end < line.len() && is_tag_name_char(line[name_end])
            invariant
                name_start <= name_end <= line.len(),
                tag_run(line@, name_end as int) == tag_run(line@, name_start as int),
                named == has_non_digit(line@, name_start as int, name_end as int),
            decreases line.len() - name_end,
        {
            if !digit(line[name_end]) {
                named = true;
            }
            name_end += 1;
        }
        if !named {
            pos += 1;
            continue ;
        }
        let ghost before = tags@;
        tags.push(
            (
                note_idx,
                TagSpan {
                    span: Span::new(line_start + pos, line_start + name_end),
                    name: Span::new(line_start + name_start, line_start + name_end),
                },
            ),
        );
        proof {
            let rest = line_tags(line@, line_start as int, name_end as int, note_idx as int);
            assert(tags@ + rest =~= before + (seq![tags@.last()] + rest));
        }
        pos = name_end;
    }
    proof {
        assert(tags@ =~= whole);
    }
}

// ---------------------------------------------------------------------------
// Body scanning — tags and todos, respecting code fences and inline code
// ---------------------------------------------------------------------------

/// One past the line of `b[..end]` that starts at `p`.
pub open spec fn line_after(b: Seq<u8>, p: int, end: int) -> int {
    match text::find_first(b, p, end, 10) {
        Some(i) => i + 1,
        None => end,
    }
}

/// What the lines of `b[p..end]` hold in turn: their todos and tags, lines in
/// fenced code skipped.
pub open spec fn body_todos(b: Seq<u8>, p: int, end: int, fenced: bool, note: int) -> Seq<
    (usize, TodoSpan),
>
    decreases end - p,
{
    if p < 0 || p >= end || end > b.len() {
        Seq::empty()
    } else {
        let q = line_after(b, p, end);
        let line = b.subrange(p, q);
        proof {
            text::lemma_find_first(b, p, end, 10);
        }
        if fence(line) {
            body_todos(b, q, end, !fenced, note)
        } else if fenced {
            body_todos(b, q, end, fenced, note)
        } else {
            match todo_of(line, p) {
                Some(t) => seq![(note as usize, t)] + body_todos(b, q, end, fenced, note),
                None => body_todos(b, q, end, fenced, note),
            }
        }
    }
}

pub open spec fn body_tags(b: Seq<u8>, p: int, end: int, fenced: bool, note: int) -> Seq<
    (usize, TagSpan),
>
    decreases end - p,
{
    if p < 0 || p >= end || end > b.len() {
        Seq::empty()
    } else {
        let q = line_after(b, p, end);
        let line = b.subrange(p, q);
        proof {
            text::lemma_find_first(b, p, end, 10);
        }
        if fence(line) {
            body_tags(b, q, end, !fenced, note)
        } else if fenced {
            body_tags(b, q, end, fenced, note)
        } else {
            line_tags(line, p, 0, note) + body_tags(b, q, end, fenced, note)
        }
    }
}

/// The todos of the first `n` notes of `b`, each with the index of its note.
pub open spec fn todos_upto(b: Seq<u8>, n: int) -> Seq<(usize, TodoSpan)>
    decreases n,
{
    if n <= 0 {
        Seq::empty()
    } else {
        let body = notes_of(b)[n - 1].body;
        todos_upto(b, n - 1) + body_todos(b, body.start as int, body.end as int, false, n - 1)
    }
}

/// The tags of the first `n` notes of `b`, each with the index of its note.
pub open spec fn tags_upto(b: Seq<u8>, n: int) -> Seq<(usize, TagSpan)>
    decreases n,
{
    if n <= 0 {
        Seq::empty()
    } else {
        let body = notes_of(b)[n - 1].body;
        tags_upto(b, n - 1) + body_tags(b, body.start as int, body.end as int, false, n - 1)
    }
}

/// The todos of a file, in file order.
pub open spec fn todos_of(b: Seq<u8>) -> Seq<(usize, TodoSpan)> {
    todos_upto(b, notes_of(b).len() as int)
}

/// The tags of a file, in file order.
pub open spec fn tags_of(b: Seq<u8>) -> Seq<(usize, TagSpan)> {
    tags_upto(b, notes_of(b).len() as int)
}

fn scan_body(
    text: &str,
    body: Span,
    note_idx: usize,
    tags: &mut Vec<(usize, TagSpan)>,
    todos: &mut Vec<(usize, TodoSpan)>,
)
    requires
        body.start <= body.end <= encode_utf8(text@).len(),
    ensures
        final(tags)@ == old(tags)@ + body_tags(
            encode_utf8(text@),
            body.start as int,
            body.end as int,
            false,
            note_idx as int,
        ),
        final(todos)@ == old(todos)@ + body_todos(
            encode_utf8(text@),
            body.start as int,
            body.end as int,
            false,
            note_idx as int,
        ),
{
    let b = text.as_bytes();
    let ghost all_tags = old(tags)@ + body_tags(
        b@,
        body.start as int,
        body.end as int,
        false,
        note_idx as int,
    );
    let ghost all_todos = old(todos)@ + body_todos(
        b@,
        body.start as int,
        body.end as int,
        false,
        note_idx as int,
    );
    let mut in_fence = false;
    let mut pos: usize = body.start;
    while pos < body.end
        invariant
            pos <= body.end <= b.len(),
            tags@ + body_tags(b@, pos as int, body.end as int, in_fence, note_idx as int)
                == all_tags,
            todos@ + body_todos(b@, pos as int, body.end as int, in_fence, note_idx as int)
                == all_todos,
        decreases body.end - pos,
    {
        let line_end = match text::find_byte(b, pos, body.end, 10u8) {
            Some(i) => i + 1,
            None => body.end,
        };
        let line = slice_subrange(b, pos, line_end);
        if is_fence_line(line) {
            in_fence = !in_fence;
        } else if !in_fence {
            let ghost rest_todos = body_todos(
                b@,
                line_end as int,
                body.end as int,
                in_fence,
                note_idx as int,
            );
            let ghost rest_tags = body_tags(
                b@,
                line_end as int,
                body.end as int,
                in_fence,
                note_idx as int,
            );
            let ghost old_todos = todos@;
            let ghost old_tags = tags@;
            if let Some(todo) = scan_line_for_todo(line, pos) {
                todos.push((note_idx, todo));
                proof {
                    assert(todos@ + rest_todos =~= old_todos + (seq![(note_idx, todo)]
                        + rest_todos));
                }
            }
            scan_line_for_tags(line, pos, note_idx, tags);
            proof {
                let here = line_tags(line@, pos as int, 0, note_idx as int);
                assert(tags@ + rest_tags =~= old_tags + (here + rest_tags));
            }
        }
        pos = line_end;
    }
    proof {
        assert(tags@ =~= all_tags);
        assert(todos@ =~= all_todos);
    }
}

/// The bodies of the notes are ranges of the file.
pub proof fn lemma_note_ranges(b: Seq<u8>, i: int)
    requires
        0 <= i < notes_of(b).len(),
        b.len() <= usize::MAX,
    ensures
        ({
            let n = notes_of(b)[i];
            let from = spans::line_starts(b)[note_heads(b)[i].0];
            &&& n.span.start == from
            &&& n.span.end == note_stop(b, i)
            &&& n.body.end == n.span.end
            &&& n.span.start <= n.body.start <= n.body.end <= b.len()
            &&& n.header matches Some(h) ==> h.start == n.span.start && h.end == n.body.start
            &&& n.header is None ==> n.body == n.span
        }),
{
    lemma_note_heads(b);
    spans::lemma_line_starts(b);
    let heads = note_heads(b);
    let st = spans::line_starts(b);
    let l = heads[i].0;
    if i + 1 < heads.len() {
        let m = heads[i + 1].0;
        assert(l < m);
        assert(st[l] < st[m]);
        if l + 1 < m {
            assert(st[l + 1] < st[m]);
        }
    }
}

/// Parses a file: its notes, and the tags and todos in their bodies.
pub fn parse(buffer: &TextBuffer) -> (r: ParseResult)
    requires
        buffer.wf(),
    ensures
        r.of(buffer.bytes()),
{
    let text = buffer.as_str();
    let n_bytes = text::byte_len(text);
    let li = buffer.line_index();
    let delim_lines = delimiters(text, li);
    let notes = build_note_spans(text, li, &delim_lines);
    let mut tags: Vec<(usize, TagSpan)> = Vec::new();
    let mut todos: Vec<(usize, TodoSpan)> = Vec::new();
    let mut i: usize = 0;
    while i < notes.len()
        invariant
            i <= notes.len(),
            n_bytes == encode_utf8(text@).len(),
            notes@ == notes_of(encode_utf8(text@)),
            tags@ == tags_upto(encode_utf8(text@), i as int),
            todos@ == todos_upto(encode_utf8(text@), i as int),
        decreases notes.len() - i,
    {
        proof {
            lemma_note_ranges(encode_utf8(text@), i as int);
        }
        scan_body(text, notes[i].body, i, &mut tags, &mut todos);
        i += 1;
    }
    ParseResult { notes, tags, todos }
}

} // verus!
