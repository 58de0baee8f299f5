//! What notes, headers and todos are, said of the bytes of a file.

use vstd::prelude::*;
use vstd::utf8::*;

use crate::note_laws;
use crate::parser;
use crate::scan_laws;
use crate::spans;
use crate::spans::{Span, TodoKind, TodoState};
use crate::tag_laws;
use crate::tag_laws::{all_blank, on_one_line, running, starts_line};
use crate::text;

verus! {

// ---------------------------------------------------------------------------
// Notes
// ---------------------------------------------------------------------------

/// A line that starts with `===` starts at `p`.
pub open spec fn delimiter_at(b: Seq<u8>, p: int) -> bool {
    &&& 0 <= p
    &&& p + 3 <= b.len()
    &&& starts_line(b, p)
    &&& b[p] == 61 && b[p + 1] == 61 && b[p + 2] == 61
}

/// `[p, q)` is a line of the file, its newline included.
pub open spec fn is_line(b: Seq<u8>, p: int, q: int) -> bool {
    &&& 0 <= p < q <= b.len()
    &&& starts_line(b, p)
    &&& on_one_line(b, p, q - 1)
    &&& q == b.len() || b[q - 1] == 10
}

/// Some note with a header starts at `p`.
pub open spec fn opens_note(b: Seq<u8>, p: int) -> bool {
    exists|i: int|
        0 <= i < parser::notes_of(b).len() && (#[trigger] parser::notes_of(b)[i]).span.start == p
            && parser::notes_of(b)[i].header is Some
}

proof fn lemma_line_bytes(b: Seq<u8>, l: int)
    requires
        0 <= l < spans::line_starts(b).len(),
    ensures
        ({
            let p = spans::line_starts(b)[l];
            let q = spans::line_stop(spans::line_starts(b), b.len() as int, l);
            &&& 0 <= p <= q <= b.len()
            &&& starts_line(b, p)
            &&& p < q ==> is_line(b, p, q)
            &&& p == q ==> p == b.len()
            &&& parser::delimiter(parser::line_of(b, l)) == delimiter_at(b, p)
        }),
{
    spans::lemma_line_starts(b);
    let st = spans::line_starts(b);
    let p = st[l];
    let q = spans::line_stop(st, b.len() as int, l);
    if l > 0 {
        assert(b[st[l] - 1] == 10);
    }
    if l + 1 < st.len() {
        assert(b[st[l + 1] - 1] == 10);
    }
    assert forall|k: int| p <= k < q - 1 implies #[trigger] b[k] != 10 by {
        if b[k] == 10 {
            assert(st.contains(k + 1));
            let x = choose|x: int| 0 <= x < st.len() && st[x] == k + 1;
            if x <= l {
                assert(st[x] <= st[l]);
            } else if l + 1 < st.len() {
                assert(st[l + 1] <= st[x]);
            }
        }
    }
    let line = parser::line_of(b, l);
    parser::lemma_delimiter(line);
    if line.len() >= 3 {
        assert(line[0] == b[p] && line[1] == b[p + 1] && line[2] == b[p + 2]);
    } else if delimiter_at(b, p) {
        assert(q < b.len());
        assert(b[q - 1] == 10);
    }
}

proof fn lemma_delimiter_listed(b: Seq<u8>, n: int, l: int)
    requires
        0 <= l < n,
        parser::delimiter(parser::line_of(b, l)),
    ensures
        parser::delimiter_lines(b, n).contains(l),
    decreases n,
{
    let d = parser::delimiter_lines(b, n);
    if l == n - 1 {
        assert(d[d.len() - 1] == l);
    } else {
        lemma_delimiter_listed(b, n - 1, l);
        let e = parser::delimiter_lines(b, n - 1);
        let k = choose|k: int| 0 <= k < e.len() && e[k] == l;
        assert(d[k] == l);
    }
}

/// A note opens at every line that starts with `===`, and nowhere else.
pub proof fn law_notes_open(b: Seq<u8>, p: int)
    requires
        b.len() <= usize::MAX,
        0 <= p,
    ensures
        opens_note(b, p) <==> delimiter_at(b, p),
{
    parser::lemma_note_heads(b);
    spans::lemma_line_starts(b);
    let st = spans::line_starts(b);
    let heads = parser::note_heads(b);
    let d = parser::delimiter_lines(b, st.len() as int);
    parser::lemma_delimiter_lines(b, st.len() as int);
    if opens_note(b, p) {
        let i = choose|i: int|
            0 <= i < parser::notes_of(b).len() && (#[trigger] parser::notes_of(b)[i]).span.start
                == p && parser::notes_of(b)[i].header is Some;
        parser::lemma_note_ranges(b, i);
        assert(heads[i].1);
        lemma_line_bytes(b, heads[i].0);
    }
    if delimiter_at(b, p) {
        assert(st.contains(p)) by {
            if p > 0 {
                assert(b[p - 1] == 10);
                assert(st.contains(p - 1 + 1));
            } else {
                assert(st[0] == 0);
            }
        }
        let l = choose|l: int| 0 <= l < st.len() && st[l] == p;
        lemma_line_bytes(b, l);
        lemma_delimiter_listed(b, st.len() as int, l);
        let k = choose|k: int| 0 <= k < d.len() && d[k] == l;
        let rest = d.map_values(|l: int| (l, true));
        assert(rest[k] == (l, true));
        let i = if d.len() == 0 || d[0] > 0 {
            k + 1
        } else {
            k
        };
        assert(heads[i] == (l, true));
        parser::lemma_note_ranges(b, i);
        assert(parser::notes_of(b)[i].span.start == p);
    }
}

/// The header of a note is its first line, the body the rest up to the next note.
pub proof fn law_header_is_first_line(b: Seq<u8>, i: int)
    requires
        b.len() <= usize::MAX,
        0 <= i < parser::notes_of(b).len(),
    ensures
        ({
            let n = parser::notes_of(b)[i];
            &&& n.header is Some <==> delimiter_at(b, n.span.start as int)
            &&& n.header matches Some(h) ==> is_line(b, h.start as int, h.end as int) && h.start
                == n.span.start && n.body.start == h.end
            &&& n.header is None ==> i == 0 && n.span.start == 0 && n.body == n.span
            &&& n.body.end == n.span.end
            &&& n.span.end == if i + 1 < parser::notes_of(b).len() {
                parser::notes_of(b)[i + 1].span.start as int
            } else {
                b.len() as int
            }
        }),
{
    parser::lemma_note_heads(b);
    parser::lemma_note_ranges(b, i);
    let h = parser::note_heads(b)[i];
    lemma_line_bytes(b, h.0);
    if i + 1 < parser::notes_of(b).len() {
        parser::lemma_note_ranges(b, i + 1);
    }
    if !h.1 {
        assert(i == 0) by {
            if i > 0 {
                assert(parser::note_heads(b)[i].1);
            }
        }
        spans::lemma_line_starts(b);
        lemma_line_bytes(b, 0);
        if delimiter_at(b, 0) {
            lemma_delimiter_listed(b, spans::line_starts(b).len() as int, 0);
            let d = parser::delimiter_lines(b, spans::line_starts(b).len() as int);
            let k = choose|k: int| 0 <= k < d.len() && d[k] == 0;
            parser::lemma_delimiter_lines(b, spans::line_starts(b).len() as int);
            if k > 0 {
                assert(d[0] < d[k]);
            }
            let rest = d.map_values(|l: int| (l, true));
            assert(parser::note_heads(b)[0] == rest[0]);
        }
    }
}

// ---------------------------------------------------------------------------
// Headers
// ---------------------------------------------------------------------------

pub open spec fn digit(x: u8) -> bool {
    48 <= x <= 57
}

/// `YYYY-MM-DD` by shape.
pub open spec fn date_shape(b: Seq<u8>, x: int) -> bool {
    &&& digit(b[x]) && digit(b[x + 1]) && digit(b[x + 2]) && digit(b[x + 3])
    &&& b[x + 4] == 45
    &&& digit(b[x + 5]) && digit(b[x + 6])
    &&& b[x + 7] == 45
    &&& digit(b[x + 8]) && digit(b[x + 9])
}

/// `HH:MM` by shape.
pub open spec fn time_shape(b: Seq<u8>, x: int) -> bool {
    &&& digit(b[x]) && digit(b[x + 1])
    &&& b[x + 2] == 58
    &&& digit(b[x + 3]) && digit(b[x + 4])
}

/// Spaces only in `b[i..j]`.
pub open spec fn spaces(b: Seq<u8>, i: int, j: int) -> bool {
    forall|k: int| i <= k < j ==> #[trigger] b[k] == 32
}

/// `[s, e)` is what `b[i..j]` holds without the spaces at its ends.
pub open spec fn kernel(b: Seq<u8>, i: int, j: int, s: int, e: int) -> bool {
    &&& i <= s <= e <= j
    &&& spaces(b, i, s)
    &&& spaces(b, e, j)
    &&& s < e ==> b[s] != 32 && b[e - 1] != 32
    &&& s == e ==> s == j
}

/// No bar in `b[i..j]`.
pub open spec fn no_bar(b: Seq<u8>, i: int, j: int) -> bool {
    forall|k: int| i <= k < j ==> #[trigger] b[k] != 124
}

/// The text of a header line `[p, q)` ends at `z`, before its newline bytes.
pub open spec fn text_ends(b: Seq<u8>, p: int, q: int, z: int) -> bool {
    &&& p < z <= q
    &&& b[z - 1] != 10 && b[z - 1] != 13
    &&& forall|k: int| z <= k < q ==> #[trigger] b[k] == 10 || b[k] == 13
}

pub open spec fn some_span(s: int, e: int) -> Option<Span> {
    Some(Span { start: s as usize, end: e as usize })
}

/// A range, where it holds something.
pub open spec fn if_any(s: int, e: int) -> Option<Span> {
    if s < e {
        some_span(s, e)
    } else {
        None
    }
}

/// A date at the start of `[s, e)`.
pub open spec fn dated(b: Seq<u8>, s: int, e: int) -> bool {
    s + 10 <= e && date_shape(b, s)
}

/// A header without a bar: a date, and a time behind it; other text is the title.
pub proof fn law_header_without_bar(b: Seq<u8>, i: int, z: int, s: int, e: int)
    requires
        b.len() <= usize::MAX,
        0 <= i < parser::notes_of(b).len(),
        parser::notes_of(b)[i].header matches Some(h) && text_ends(
            b,
            h.start as int,
            h.end as int,
            z,
        ) && no_bar(b, h.start + 3, z) && kernel(b, h.start + 3, z, s, e),
    ensures
        ({
            let n = parser::notes_of(b)[i];
            &&& dated(b, s, e) ==> n.date == some_span(s, s + 10) && n.title is None
            &&& !dated(b, s, e) ==> n.date is None && n.time is None && n.title == if_any(s, e)
        }),
{
    let h = parser::notes_of(b)[i].header->Some_0;
    let p = h.start as int;
    let q = h.end as int;
    law_header_is_first_line(b, i);
    lemma_header_line(b, i);
    let line = b.subrange(p, q);
    lemma_text_end(b, p, q, z);
    lemma_core(b, p, q, 3, z - p, s, e);
    lemma_no_bar(b, p, q, text::skip_spaces(line, 3), z - p);
    lemma_dated(b, p, q, s, e);
}

/// A header with a bar: the date stands on the side that starts with one, the left side
/// first, and the title is the other side. Without a date the title is the left side, or
/// the right one where that is blank.
pub proof fn law_header_with_bar(
    b: Seq<u8>,
    i: int,
    z: int,
    bar: int,
    s: int,
    e: int,
    s2: int,
    e2: int,
)
    requires
        b.len() <= usize::MAX,
        0 <= i < parser::notes_of(b).len(),
        parser::notes_of(b)[i].header matches Some(h) && text_ends(
            b,
            h.start as int,
            h.end as int,
            z,
        ) && h.start + 3 <= bar < z && b[bar] == 124 && no_bar(b, h.start + 3, bar) && kernel(
            b,
            h.start + 3,
            bar,
            s,
            e,
        ) && kernel(b, bar + 1, z, s2, e2),
    ensures
        ({
            let n = parser::notes_of(b)[i];
            if dated(b, s, e) {
                n.date == some_span(s, s + 10) && n.title == if_any(s2, e2)
            } else if dated(b, s2, e2) {
                n.date == some_span(s2, s2 + 10) && n.title == if_any(s, e)
            } else {
                n.date is None && n.time is None && n.title == if s < e {
                    if_any(s, e)
                } else {
                    if_any(s2, e2)
                }
            }
        }),
{
    let h = parser::notes_of(b)[i].header->Some_0;
    let p = h.start as int;
    let q = h.end as int;
    law_header_is_first_line(b, i);
    lemma_header_line(b, i);
    let line = b.subrange(p, q);
    lemma_text_end(b, p, q, z);
    lemma_segments(b, p, q, z, bar, s, e, s2, e2);
    lemma_dated(b, p, q, s, e);
    lemma_dated(b, p, q, s2, e2);
    lemma_sides(line, s - p, e - p, s2 - p, e2 - p);
    let hd = parser::header_of(line);
    if dated(b, s, e) {
        assert(parser::date_span(hd, p) == some_span(s, s + 10));
        assert(parser::title_span(hd, p) == if_any(s2, e2));
    } else if dated(b, s2, e2) {
        assert(parser::date_span(hd, p) == some_span(s2, s2 + 10));
        assert(parser::title_span(hd, p) == if_any(s, e));
    } else {
        assert(parser::title_span(hd, p) == if s < e {
            if_any(s, e)
        } else {
            if_any(s2, e2)
        });
    }
}

proof fn lemma_segments(
    b: Seq<u8>,
    p: int,
    q: int,
    z: int,
    bar: int,
    s: int,
    e: int,
    s2: int,
    e2: int,
)
    requires
        0 <= p <= q <= b.len(),
        p + 3 <= bar < z <= q,
        text::content_len(b.subrange(p, q)) == z - p,
        b[bar] == 124,
        z < q ==> b[z] != 32,
        no_bar(b, p + 3, bar),
        kernel(b, p + 3, bar, s, e),
        kernel(b, bar + 1, z, s2, e2),
    ensures
        parser::header_segments(b.subrange(p, q)) == (
            (s - p, e - p),
            Some((s2 - p, e2 - p)),
        ),
{
    let line = b.subrange(p, q);
    lemma_core(b, p, q, 3, bar - p, s, e);
    lemma_core(b, p, q, bar + 1 - p, z - p, s2, e2);
    lemma_bar(b, p, q, text::skip_spaces(line, 3), bar, z - p);
}

/// What a header with two sides says.
proof fn lemma_sides(line: Seq<u8>, s: int, e: int, s2: int, e2: int)
    requires
        parser::header_segments(line) == ((s, e), Some((s2, e2))),
    ensures
        ({
            let h = parser::header_of(line);
            if parser::stamp_in(line, s, e) is Some {
                h.date == Some(s) && h.title == parser::nonempty((s2, e2))
            } else if parser::stamp_in(line, s2, e2) is Some {
                h.date == Some(s2) && h.title == parser::nonempty((s, e))
            } else {
                h.date is None && h.time is None && h.title == if s < e {
                    Some((s, e))
                } else {
                    parser::nonempty((s2, e2))
                }
            }
        }),
{
}

/// A time stands behind the date, with spaces between: where one does, it is the time of
/// the note, and it has no other.
pub proof fn law_header_time(b: Seq<u8>, i: int, z: int, x: int)
    requires
        b.len() <= usize::MAX,
        0 <= i < parser::notes_of(b).len(),
        parser::notes_of(b)[i].header matches Some(h) && text_ends(
            b,
            h.start as int,
            h.end as int,
            z,
        ),
        parser::notes_of(b)[i].date matches Some(d) && d.end <= x && spaces(b, d.end as int, x)
            && x <= z && (x < z ==> b[x] != 32),
    ensures
        ({
            let n = parser::notes_of(b)[i];
            n.time == if x + 5 <= z && time_shape(b, x) {
                some_span(x, x + 5)
            } else {
                None
            }
        }),
{
    let h = parser::notes_of(b)[i].header->Some_0;
    let d = parser::notes_of(b)[i].date->Some_0;
    let p = h.start as int;
    let q = h.end as int;
    law_header_is_first_line(b, i);
    lemma_header_line(b, i);
    let line = b.subrange(p, q);
    lemma_text_end(b, p, q, z);
    parser::lemma_header_segments(line);
    let hd = parser::header_of(line);
    let o = hd.date->Some_0;
    let (left, right) = parser::header_segments(line);
    let end = if parser::stamp_in(line, left.0, left.1) is Some {
        left.1
    } else {
        right->Some_0.1
    };
    let y = text::skip_spaces(line, o + 10);
    text::lemma_skip_spaces(line, o + 10);
    assert(d.start == p + o && d.end == p + o + 10);
    assert(y == x - p) by {
        if y < x - p {
            assert(b[p + y] == 32);
            assert(line[y] == b[p + y]);
        } else if y > x - p {
            assert(line[x - p] == b[x]);
            if x == z {
                assert(b[z] == 10 || b[z] == 13);
            }
        }
    }
    if x + 5 <= z && time_shape(b, x) {
        assert(line[y] == b[x] && line[y + 1] == b[x + 1] && line[y + 2] == b[x + 2] && line[y + 3]
            == b[x + 3] && line[y + 4] == b[x + 4]);
        assert(parser::time_at(line, y));
        lemma_segment_end(line, o, y, end);
    }
    if parser::time_at(line, y) && y + 5 <= end {
        assert(line[y] == b[x] && line[y + 1] == b[x + 1] && line[y + 2] == b[x + 2] && line[y + 3]
            == b[x + 3] && line[y + 4] == b[x + 4]);
    }
}

/// A segment that starts with a date goes on over the time behind it.
proof fn lemma_segment_end(line: Seq<u8>, o: int, y: int, end: int)
    requires
        parser::delimiter(line),
        parser::header_of(line).date == Some(o),
        y == text::skip_spaces(line, o + 10),
        parser::time_at(line, y),
        y + 5 <= text::content_len(line),
        ({
            let (left, right) = parser::header_segments(line);
            end == if parser::stamp_in(line, left.0, left.1) is Some {
                left.1
            } else {
                right->Some_0.1
            }
        }),
    ensures
        y + 5 <= end,
{
    parser::lemma_header_segments(line);
    let (left, right) = parser::header_segments(line);
    let z = text::content_len(line);
    text::lemma_content_len(line);
    text::lemma_skip_spaces(line, o + 10);
    let from = text::skip_spaces(line, 3);
    parser::lemma_delimiter(line);
    text::lemma_skip_spaces(line, 3);
    text::lemma_find_first(line, from, z, 124);
    // The segment as it is before spaces are cut from its end.
    let (a, m) = match text::find_first(line, from, z, 124) {
        Some(k) => if parser::stamp_in(line, left.0, left.1) is Some {
            (from, k)
        } else {
            (text::skip_spaces(line, k + 1), z)
        },
        None => (from, z),
    };
    assert(a == o);
    assert(parser::date_at(line, o));
    assert(y + 5 <= m) by {
        if y + 5 > m {
            assert(m < z && line[m] == 124);
            if m < y {
                if m < o + 10 {
                    assert(line[m] == 124);
                } else {
                    assert(line[m] == 32);
                }
            }
        }
    }
    text::lemma_trim_spaces(line, a, m);
    let e = text::trim_spaces(line, a, m);
    assert(e == end);
    if e < y + 5 {
        assert(line[y + 4] == 32);
    }
}

/// The header of a note is that of its first line.
proof fn lemma_header_line(b: Seq<u8>, i: int)
    requires
        b.len() <= usize::MAX,
        0 <= i < parser::notes_of(b).len(),
        parser::notes_of(b)[i].header is Some,
    ensures
        ({
            let n = parser::notes_of(b)[i];
            let h = n.header->Some_0;
            let line = b.subrange(h.start as int, h.end as int);
            let hd = parser::header_of(line);
            &&& parser::delimiter(line)
            &&& n.date == parser::date_span(hd, h.start as int)
            &&& n.time == parser::time_span(hd, h.start as int)
            &&& n.title == parser::title_span(hd, h.start as int)
            &&& h.start + 3 <= h.end <= b.len()
        }),
{
    parser::lemma_note_heads(b);
    parser::lemma_note_ranges(b, i);
    let head = parser::note_heads(b)[i];
    lemma_line_bytes(b, head.0);
    assert(head.1);
    parser::lemma_delimiter(parser::line_of(b, head.0));
}

proof fn lemma_text_end(b: Seq<u8>, p: int, q: int, z: int)
    requires
        0 <= p <= q <= b.len(),
        text_ends(b, p, q, z),
    ensures
        text::content_len(b.subrange(p, q)) == z - p,
{
    let line = b.subrange(p, q);
    text::lemma_content_len(line);
    let c = text::content_len(line);
    if c < z - p {
        assert(text::is_newline(line[z - 1 - p]));
        assert(line[z - 1 - p] == b[z - 1]);
    } else if c > z - p {
        assert(line[c - 1] == b[p + c - 1]);
    }
}

/// The core of a stretch is what is left when spaces are skipped and trimmed.
proof fn lemma_core(b: Seq<u8>, p: int, q: int, i: int, j: int, s: int, e: int)
    requires
        0 <= p <= q <= b.len(),
        0 <= i <= j <= q - p,
        kernel(b, p + i, p + j, s, e),
        p + j < q ==> b[p + j] != 32,
    ensures
        ({
            let line = b.subrange(p, q);
            let from = text::skip_spaces(line, i);
            &&& from == s - p
            &&& text::trim_spaces(line, from, j) == e - p
        }),
{
    let line = b.subrange(p, q);
    let from = text::skip_spaces(line, i);
    text::lemma_skip_spaces(line, i);
    assert(from == s - p) by {
        if from < s - p {
            assert(b[p + from] == 32);
            assert(line[from] == b[p + from]);
        } else if from > s - p {
            assert(line[s - p] == b[s]);
        }
    }
    text::lemma_trim_spaces(line, from, j);
    let t = text::trim_spaces(line, from, j);
    if t < e - p {
        assert(line[e - 1 - p] == b[e - 1]);
    } else if t > e - p {
        assert(b[p + t - 1] == 32);
        assert(line[t - 1] == b[p + t - 1]);
    }
}

proof fn lemma_no_bar(b: Seq<u8>, p: int, q: int, from: int, end: int)
    requires
        0 <= p <= q <= b.len(),
        3 <= from <= end <= q - p,
        no_bar(b, p + 3, p + end),
    ensures
        text::find_first(b.subrange(p, q), from, end, 124) is None,
{
    let line = b.subrange(p, q);
    text::lemma_find_first(line, from, end, 124);
    if let Some(k) = text::find_first(line, from, end, 124) {
        assert(line[k] == b[p + k]);
    }
}

proof fn lemma_bar(b: Seq<u8>, p: int, q: int, from: int, bar: int, end: int)
    requires
        0 <= p <= q <= b.len(),
        3 <= from <= bar - p < end <= q - p,
        b[bar] == 124,
        no_bar(b, p + 3, bar),
    ensures
        text::find_first(b.subrange(p, q), from, end, 124) == Some(bar - p),
{
    let line = b.subrange(p, q);
    text::lemma_find_first(line, from, end, 124);
    assert(line[bar - p] == 124);
    let k = text::find_first(line, from, end, 124)->Some_0;
    assert(line[k] == b[p + k]);
}

proof fn lemma_dated(b: Seq<u8>, p: int, q: int, s: int, e: int)
    requires
        0 <= p <= s <= e <= q <= b.len(),
    ensures
        (parser::stamp_in(b.subrange(p, q), s - p, e - p) is Some) == dated(b, s, e),
{
    let line = b.subrange(p, q);
    let x = s - p;
    if s + 10 <= e {
        assert(line[x] == b[s] && line[x + 1] == b[s + 1] && line[x + 2] == b[s + 2] && line[x + 3]
            == b[s + 3] && line[x + 4] == b[s + 4]);
        assert(line[x + 5] == b[s + 5] && line[x + 6] == b[s + 6] && line[x + 7] == b[s + 7]
            && line[x + 8] == b[s + 8] && line[x + 9] == b[s + 9]);
    }
}

// ---------------------------------------------------------------------------
// Todos
// ---------------------------------------------------------------------------

/// The five bytes of a todo marker at `x`: `- [ ]`, `- [x]`, `TODO:` or `DONE:`.
pub open spec fn marks(b: Seq<u8>, x: int, end: int) -> Option<(TodoKind, TodoState)> {
    if x + 5 > end {
        None
    } else if b[x] == 45 && b[x + 1] == 32 && b[x + 2] == 91 && b[x + 4] == 93 {
        if b[x + 3] == 32 {
            Some((TodoKind::Checkbox, TodoState::Open))
        } else if b[x + 3] == 120 {
            Some((TodoKind::Checkbox, TodoState::Done))
        } else {
            None
        }
    } else if b[x + 4] == 58 {
        if b[x] == 84 && b[x + 1] == 79 && b[x + 2] == 68 && b[x + 3] == 79 {
            Some((TodoKind::Prefix, TodoState::Open))
        } else if b[x] == 68 && b[x + 1] == 79 && b[x + 2] == 78 && b[x + 3] == 69 {
            Some((TodoKind::Prefix, TodoState::Done))
        } else {
            None
        }
    } else {
        None
    }
}

/// `due:YYYY-MM-DD` at `y` of the line `[p, q)`, at its start or behind a blank.
pub open spec fn due_token(b: Seq<u8>, p: int, q: int, y: int) -> bool {
    &&& p <= y
    &&& y + 14 <= q
    &&& b[y] == 100 && b[y + 1] == 117 && b[y + 2] == 101 && b[y + 3] == 58
    &&& date_shape(b, y + 4)
    &&& y == p || b[y - 1] == 32 || b[y - 1] == 9
}

/// A todo of note `i` starts at `p`.
pub open spec fn todo_starts(b: Seq<u8>, i: int, p: int) -> bool {
    exists|k: int|
        0 <= k < parser::todos_of(b).len() && (#[trigger] parser::todos_of(b)[k]).0 == i
            && parser::todos_of(b)[k].1.span.start == p
}

proof fn lemma_marks(b: Seq<u8>, p: int, q: int, x: int)
    requires
        0 <= p <= x <= q <= b.len(),
        all_blank(b, p, x),
        x < q ==> b[x] != 32 && b[x] != 9,
    ensures
        parser::skip_blanks(b.subrange(p, q), 0) == x - p,
        parser::todo_marker(b.subrange(p, q)) == marks(b, x, q),
{
    let line = b.subrange(p, q);
    let n = parser::skip_blanks(line, 0);
    parser::lemma_skip_blanks(line, 0);
    tag_laws::lemma_blanks_end(line, 0);
    parser::lemma_markers();
    assert(n == x - p) by {
        if n < x - p {
            assert(b[p + n] == 32 || b[p + n] == 9);
            assert(line[n] == b[p + n]);
        } else if n > x - p {
            assert(parser::is_blank(line[x - p]));
            assert(line[x - p] == b[x]);
        }
    }
    if x + 5 <= q {
        let t = line.subrange(n, n + 5);
        assert(t[0] == b[x] && t[1] == b[x + 1] && t[2] == b[x + 2] && t[3] == b[x + 3] && t[4]
            == b[x + 4]);
        if marks(b, x, q) is Some {
            assert(t =~= seq![b[x], b[x + 1], b[x + 2], b[x + 3], b[x + 4]]);
        }
    }
}

/// A todo of note `i` stands on a line of its body exactly where the line is running text
/// and a marker follows its indentation. `x` is the first byte of the line that is no
/// blank.
pub proof fn law_marker_is_todo(b: Seq<u8>, i: int, p: int, q: int, x: int)
    requires
        b.len() <= usize::MAX,
        0 <= i < parser::notes_of(b).len(),
        parser::notes_of(b)[i].body.start <= p,
        q <= parser::notes_of(b)[i].body.end,
        is_line(b, p, q),
        p <= x <= q,
        all_blank(b, p, x),
        x < q ==> b[x] != 32 && b[x] != 9,
    ensures
        todo_starts(b, i, p) <==> marks(b, x, q) is Some && running(
            b,
            parser::notes_of(b)[i].body.start as int,
            p,
            parser::notes_of(b)[i].body.end as int,
        ),
{
    let from = parser::notes_of(b)[i].body.start as int;
    let end = parser::notes_of(b)[i].body.end as int;
    lemma_todo_line(b, i, p, q, x);
    let line = b.subrange(p, q);
    match parser::todo_of(line, p) {
        Some(t) => {
            scan_laws::law_todos_are_found(b, i, t);
            if running(b, from, p, end) {
                assert(scan_laws::has_todo(parser::todos_of(b), i, t));
                let k = choose|k: int|
                    0 <= k < parser::todos_of(b).len() && (#[trigger] parser::todos_of(b)[k]).0
                        == i && parser::todos_of(b)[k].1 == t;
                assert(parser::todos_of(b)[k].1.span.start == p);
            }
        },
        None => {},
    }
    if todo_starts(b, i, p) {
        let k = choose|k: int|
            0 <= k < parser::todos_of(b).len() && (#[trigger] parser::todos_of(b)[k]).0 == i
                && parser::todos_of(b)[k].1.span.start == p;
        let u = parser::todos_of(b)[k].1;
        assert(scan_laws::has_todo(parser::todos_of(b), i, u));
        scan_laws::law_todos_are_found(b, i, u);
    }
}

proof fn lemma_todo_line(b: Seq<u8>, i: int, p: int, q: int, x: int)
    requires
        b.len() <= usize::MAX,
        0 <= i < parser::notes_of(b).len(),
        parser::notes_of(b)[i].body.start <= p,
        q <= parser::notes_of(b)[i].body.end,
        is_line(b, p, q),
        p <= x <= q,
        all_blank(b, p, x),
        x < q ==> b[x] != 32 && b[x] != 9,
    ensures
        ({
            let from = parser::notes_of(b)[i].body.start as int;
            let end = parser::notes_of(b)[i].body.end as int;
            &&& scan_laws::todo_in_body(b, from, end, false, p) == if running(b, from, p, end) {
                parser::todo_of(b.subrange(p, q), p)
            } else {
                None
            }
            &&& parser::todo_marker(b.subrange(p, q)) == marks(b, x, q)
            &&& parser::skip_blanks(b.subrange(p, q), 0) == x - p
        }),
{
    let from = parser::notes_of(b)[i].body.start as int;
    let end = parser::notes_of(b)[i].body.end as int;
    tag_laws::lemma_body_starts_line(b, i);
    crate::toggle_laws::lemma_body_lines(b, i);
    tag_laws::lemma_read(b, from, p, end, false, p);
    text::lemma_find_first(b, p, end, 10);
    assert(parser::line_after(b, p, end) == q) by {
        let r = parser::line_after(b, p, end);
        if r < q {
            assert(b[r - 1] == 10);
        } else if r > q {
            assert(b[q - 1] == 10);
        }
    }
    lemma_marks(b, p, q, x);
}

/// What a todo is: its line, the kind and state that its marker says, the task behind the
/// marker and at most one space, up to the end of the text of the line, and the first due
/// date on it.
pub proof fn law_todo_says(b: Seq<u8>, i: int, p: int, q: int, x: int, z: int, k: int)
    requires
        b.len() <= usize::MAX,
        0 <= i < parser::notes_of(b).len(),
        parser::notes_of(b)[i].body.start <= p,
        q <= parser::notes_of(b)[i].body.end,
        is_line(b, p, q),
        p <= x <= q,
        all_blank(b, p, x),
        x < q ==> b[x] != 32 && b[x] != 9,
        text_ends(b, p, q, z),
        0 <= k < parser::todos_of(b).len(),
        parser::todos_of(b)[k].0 == i,
        parser::todos_of(b)[k].1.span.start == p,
    ensures
        ({
            let t = parser::todos_of(b)[k].1;
            let task = if x + 5 < z && b[x + 5] == 32 {
                x + 6
            } else {
                x + 5
            };
            &&& marks(b, x, q) == Some((t.kind, t.state))
            &&& t.span.end == q
            &&& t.text.start == task && t.text.end == z
            &&& match t.due {
                Some(d) => d.end == d.start + 14 && due_token(b, p, q, d.start as int) && forall|y: int|
                    p <= y < d.start ==> !#[trigger] due_token(b, p, q, y),
                None => forall|y: int| p <= y < q ==> !#[trigger] due_token(b, p, q, y),
            }
        }),
{
    let t = parser::todos_of(b)[k].1;
    assert(scan_laws::has_todo(parser::todos_of(b), i, t));
    scan_laws::law_todos_are_found(b, i, t);
    lemma_todo_line(b, i, p, q, x);
    let line = b.subrange(p, q);
    assert(parser::todo_of(line, p) == Some(t));
    lemma_text_end(b, p, q, z);
    parser::lemma_todo_shape(line);
    text::lemma_content_len(line);
    if x + 5 < q {
        assert(line[x + 5 - p] == b[x + 5]);
        if x + 5 >= z {
            assert(b[x + 5] == 10 || b[x + 5] == 13);
        }
    }
    lemma_due(b, p, q, 0);
}

proof fn lemma_due(b: Seq<u8>, p: int, q: int, o: int)
    requires
        0 <= p <= q <= b.len(),
        0 <= o <= q - p,
    ensures
        match parser::due_from(b.subrange(p, q), o) {
            Some(y) => o <= y && due_token(b, p, q, p + y) && forall|v: int|
                p + o <= v < p + y ==> !#[trigger] due_token(b, p, q, v),
            None => forall|v: int| p + o <= v < q ==> !#[trigger] due_token(b, p, q, v),
        },
    decreases q - p - o,
{
    let line = b.subrange(p, q);
    if o < q - p {
        lemma_due_at(b, p, q, o);
        if !parser::due_at(line, o) {
            lemma_due(b, p, q, o + 1);
        }
    }
}

proof fn lemma_due_at(b: Seq<u8>, p: int, q: int, o: int)
    requires
        0 <= p <= q <= b.len(),
        0 <= o < q - p,
    ensures
        parser::due_at(b.subrange(p, q), o) == due_token(b, p, q, p + o),
{
    let line = b.subrange(p, q);
    let y = p + o;
    parser::lemma_markers();
    if o > 0 {
        assert(line[o - 1] == b[y - 1]);
    }
    if y + 14 <= q {
        let t = line.subrange(o, o + 4);
        assert(t[0] == b[y] && t[1] == b[y + 1] && t[2] == b[y + 2] && t[3] == b[y + 3]);
        assert(line[o + 4] == b[y + 4] && line[o + 5] == b[y + 5] && line[o + 6] == b[y + 6]
            && line[o + 7] == b[y + 7] && line[o + 8] == b[y + 8]);
        assert(line[o + 9] == b[y + 9] && line[o + 10] == b[y + 10] && line[o + 11] == b[y + 11]
            && line[o + 12] == b[y + 12] && line[o + 13] == b[y + 13]);
        if due_token(b, p, q, y) {
            assert(t =~= seq![100u8, 117u8, 101u8, 58u8]);
        }
    }
}

/// Todos come in file order, each a line of the body of its note.
pub proof fn law_todos_in_order(s: Seq<char>, j: int, k: int)
    requires
        encode_utf8(s).len() <= usize::MAX,
        0 <= j < k < parser::todos_of(encode_utf8(s)).len(),
    ensures
        ({
            let ts = parser::todos_of(encode_utf8(s));
            ts[j].1.span.start < ts[j].1.span.end <= ts[k].1.span.start && ts[j].0 <= ts[k].0
                < parser::notes_of(encode_utf8(s)).len()
        }),
{
    let b = encode_utf8(s);
    note_laws::law_todos_lie_in_notes(s, parser::notes_of(b).len() as int);
    let ts = parser::todos_of(b);
    assert(note_laws::todo_ok(
        b,
        ts[j].1,
        parser::notes_of(b)[ts[j].0 as int].body.start as int,
        parser::notes_of(b)[ts[j].0 as int].body.end as int,
    ));
    assert(ts[j].1.span.end <= ts[k].1.span.start);
}

} // verus!
