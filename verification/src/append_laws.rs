//! What the parser makes of a file that notes were added to.

use vstd::prelude::*;

use crate::note_laws;
use crate::parser;
use crate::scan_laws;
use crate::spans;
use crate::spans::{NoteSpan, Span, TagSpan, TodoSpan};
use crate::text;

verus! {

// ---------------------------------------------------------------------------
// Two texts, one behind the other
// ---------------------------------------------------------------------------

/// `a` can be followed by a note: it ends with a line ending, if it is not empty.
pub open spec fn is_front(a: Seq<u8>) -> bool {
    a.len() == 0 || a.last() == 10
}

/// Number of lines of `a` that end in it.
pub open spec fn whole_lines(a: Seq<u8>) -> int {
    spans::line_starts(a).len() - 1
}

proof fn lemma_starts_join(a: Seq<u8>, c: Seq<u8>)
    requires
        is_front(a),
    ensures
        spans::line_starts(a)[whole_lines(a)] == a.len(),
        spans::line_starts(a + c) == spans::line_starts(a).drop_last()
            + spans::line_starts(c).map_values(|x: int| x + a.len()),
    decreases c.len(),
{
    spans::lemma_line_starts(a);
    if a.len() > 0 {
        assert(spans::line_starts(a).last() == a.len());
    }
    if c.len() == 0 {
        assert(a + c =~= a);
        assert(spans::line_starts(a) =~= spans::line_starts(a).drop_last()
            + spans::line_starts(c).map_values(|x: int| x + a.len()));
    } else {
        let d = c.drop_last();
        lemma_starts_join(a, d);
        assert((a + c).drop_last() =~= a + d);
        assert((a + c).last() == c.last());
        assert(spans::line_starts(a + c) =~= spans::line_starts(a).drop_last()
            + spans::line_starts(c).map_values(|x: int| x + a.len()));
    }
}

/// The lines of two texts are the lines of both.
pub proof fn lemma_lines_join(a: Seq<u8>, c: Seq<u8>)
    requires
        is_front(a),
    ensures
        forall|l: int|
            0 <= l < whole_lines(a) ==> #[trigger] parser::line_of(a + c, l) == parser::line_of(a, l),
        forall|k: int|
            0 <= k < spans::line_starts(c).len() ==> #[trigger] parser::line_of(
                a + c,
                whole_lines(a) + k,
            ) == parser::line_of(c, k),
{
    let m = whole_lines(a);
    let st = spans::line_starts(a + c);
    lemma_starts_join(a, c);
    spans::lemma_line_starts(a);
    spans::lemma_line_starts(c);
    assert forall|l: int| 0 <= l < m implies #[trigger] parser::line_of(a + c, l)
        == parser::line_of(a, l) by {
        assert(st[l] == spans::line_starts(a)[l]);
        assert(st[l + 1] == spans::line_starts(a)[l + 1]) by {
            if l + 1 == m {
                assert(st[m] == spans::line_starts(c)[0] + a.len());
            }
        }
        assert(parser::line_of(a + c, l) =~= parser::line_of(a, l));
    }
    assert forall|k: int| 0 <= k < spans::line_starts(c).len() implies #[trigger] parser::line_of(
        a + c,
        m + k,
    ) == parser::line_of(c, k) by {
        assert(st[m + k] == spans::line_starts(c)[k] + a.len());
        if k + 1 < spans::line_starts(c).len() {
            assert(st[m + k + 1] == spans::line_starts(c)[k + 1] + a.len());
        }
        assert(parser::line_of(a + c, m + k) =~= parser::line_of(c, k));
    }
}

proof fn lemma_front_delimiters(a: Seq<u8>, c: Seq<u8>, n: int)
    requires
        is_front(a),
        0 <= n <= whole_lines(a),
    ensures
        parser::delimiter_lines(a + c, n) == parser::delimiter_lines(a, n),
    decreases n,
{
    if n > 0 {
        lemma_front_delimiters(a, c, n - 1);
        lemma_lines_join(a, c);
    }
}

pub proof fn lemma_delimiters_join(a: Seq<u8>, c: Seq<u8>, k: int)
    requires
        is_front(a),
        0 <= k <= spans::line_starts(c).len(),
    ensures
        parser::delimiter_lines(a + c, whole_lines(a) + k) == parser::delimiter_lines(
            a,
            whole_lines(a),
        ) + parser::delimiter_lines(c, k).map_values(|l: int| l + whole_lines(a)),
    decreases k,
{
    let m = whole_lines(a);
    let front = parser::delimiter_lines(a, m);
    spans::lemma_line_starts(a);
    if k == 0 {
        lemma_front_delimiters(a, c, m);
        assert(front + parser::delimiter_lines(c, 0).map_values(|l: int| l + m) =~= front);
    } else {
        lemma_delimiters_join(a, c, k - 1);
        lemma_lines_join(a, c);
        assert(parser::line_of(a + c, m + (k - 1)) == parser::line_of(c, k - 1));
        assert(parser::delimiter_lines(a + c, m + k) =~= front + parser::delimiter_lines(
            c,
            k,
        ).map_values(|l: int| l + m));
    }
}

proof fn lemma_first_delimiter(c: Seq<u8>, n: int)
    requires
        1 <= n,
        parser::delimiter(parser::line_of(c, 0)),
    ensures
        parser::delimiter_lines(c, n).len() > 0,
        parser::delimiter_lines(c, n)[0] == 0,
    decreases n,
{
    if n > 1 {
        lemma_first_delimiter(c, n - 1);
    } else {
        assert(parser::delimiter_lines(c, 0).len() == 0);
    }
}

/// The notes of two texts start where they start in each, if the second begins with a
/// delimiter.
proof fn lemma_heads_join(a: Seq<u8>, c: Seq<u8>)
    requires
        is_front(a),
        a.len() > 0,
        parser::delimiter(parser::line_of(c, 0)),
    ensures
        parser::note_heads(a + c) == parser::note_heads(a) + parser::note_heads(c).map_values(
            |h: (int, bool)| (h.0 + whole_lines(a), h.1),
        ),
        forall|i: int|
            0 <= i < parser::note_heads(a).len() ==> 0 <= (#[trigger] parser::note_heads(a)[i]).0
                < whole_lines(a),
{
    let m = whole_lines(a);
    let nc = spans::line_starts(c).len() as int;
    let whole = a + c;
    lemma_starts_join(a, c);
    spans::lemma_line_starts(a);
    spans::lemma_line_starts(c);
    assert(m >= 1) by {
        assert(spans::line_starts(a).contains(a.len() - 1 + 1));
    }
    lemma_delimiters_join(a, c, nc);
    lemma_first_delimiter(c, nc);
    let da = parser::delimiter_lines(a, m);
    let dc = parser::delimiter_lines(c, nc);
    assert(parser::line_of(a, m).len() == 0);
    parser::lemma_delimiter(parser::line_of(a, m));
    assert(parser::delimiter_lines(a, m + 1) == da);
    parser::lemma_delimiter_lines(a, m);
    let d = parser::delimiter_lines(whole, m + nc);
    assert(d == da + dc.map_values(|l: int| l + m));
    if da.len() > 0 {
        assert(d[0] == da[0]);
    } else {
        assert(d[0] == dc[0] + m);
    }
    assert(parser::note_heads(whole) =~= parser::note_heads(a) + parser::note_heads(c).map_values(
        |h: (int, bool)| (h.0 + m, h.1),
    ));
}

/// A span moved by `n` bytes.
pub open spec fn moved(s: Span, n: int) -> Span {
    parser::span_of(s.start + n, s.end + n)
}

pub open spec fn moved_some(s: Option<Span>, n: int) -> Option<Span> {
    match s {
        Some(x) => Some(moved(x, n)),
        None => None,
    }
}

/// A note moved by `n` bytes.
pub open spec fn moved_note(x: NoteSpan, n: int) -> NoteSpan {
    NoteSpan {
        span: moved(x.span, n),
        header: moved_some(x.header, n),
        body: moved(x.body, n),
        date: moved_some(x.date, n),
        time: moved_some(x.time, n),
        title: moved_some(x.title, n),
    }
}

/// What a header says does not depend on where the line stands.
proof fn lemma_header_moved(line: Seq<u8>, from: int, n: int)
    requires
        parser::delimiter(line),
        0 <= from,
        0 <= n,
        from + line.len() + n <= usize::MAX,
    ensures
        ({
            let h = parser::header_of(line);
            &&& parser::date_span(h, from + n) == moved_some(parser::date_span(h, from), n)
            &&& parser::time_span(h, from + n) == moved_some(parser::time_span(h, from), n)
            &&& parser::title_span(h, from + n) == moved_some(parser::title_span(h, from), n)
        }),
{
    parser::lemma_header_segments(line);
}

/// Where the lines of two texts start.
pub proof fn lemma_starts_at(a: Seq<u8>, c: Seq<u8>)
    requires
        is_front(a),
    ensures
        forall|l: int|
            0 <= l <= whole_lines(a) ==> #[trigger] spans::line_starts(a + c)[l]
                == spans::line_starts(a)[l],
        forall|k: int|
            0 <= k < spans::line_starts(c).len() ==> spans::line_starts(a + c)[whole_lines(a) + k]
                == #[trigger] spans::line_starts(c)[k] + a.len(),
        spans::line_starts(a + c).len() == whole_lines(a) + spans::line_starts(c).len(),
{
    lemma_starts_join(a, c);
    spans::lemma_line_starts(a);
    spans::lemma_line_starts(c);
    let m = whole_lines(a);
    assert(spans::line_starts(a + c)[m] == spans::line_starts(c)[0] + a.len());
}

/// A note of the first text.
proof fn lemma_front_note(a: Seq<u8>, c: Seq<u8>, i: int)
    requires
        is_front(a),
        a.len() > 0,
        parser::delimiter(parser::line_of(c, 0)),
        0 <= i < parser::note_heads(a).len(),
    ensures
        parser::note_from(a + c, parser::note_heads(a + c)[i], parser::note_stop(a + c, i))
            == parser::note_from(a, parser::note_heads(a)[i], parser::note_stop(a, i)),
{
    let m = whole_lines(a);
    lemma_heads_join(a, c);
    lemma_starts_at(a, c);
    lemma_starts_join(a, c);
    lemma_lines_join(a, c);
    parser::lemma_note_heads(c);
    let ha = parser::note_heads(a);
    let l = ha[i].0;
    let hw = parser::note_heads(a + c);
    assert(hw[i] == ha[i]);
    assert(spans::line_starts(a + c)[l] == spans::line_starts(a)[l]);
    assert(spans::line_starts(a + c)[l + 1] == spans::line_starts(a)[l + 1]);
    assert(parser::line_of(a + c, l) == parser::line_of(a, l));
    if i + 1 < ha.len() {
        assert(hw[i + 1] == ha[i + 1]);
        assert(spans::line_starts(a + c)[ha[i + 1].0] == spans::line_starts(a)[ha[i + 1].0]);
    } else {
        assert(hw[i + 1].0 == parser::note_heads(c)[0].0 + m);
        assert(spans::line_starts(a + c)[m] == spans::line_starts(a)[m]);
    }
}

/// Where a note of the second text stands.
proof fn lemma_back_place(a: Seq<u8>, c: Seq<u8>, k: int)
    requires
        is_front(a),
        a.len() > 0,
        parser::delimiter(parser::line_of(c, 0)),
        0 <= k < parser::note_heads(c).len(),
    ensures
        ({
            let i = parser::note_heads(a).len() + k;
            let l = parser::note_heads(c)[k].0;
            let w = a + c;
            &&& parser::note_heads(w)[i] == (l + whole_lines(a), true)
            &&& parser::note_heads(c)[k].1
            &&& 0 <= l < spans::line_starts(c).len()
            &&& parser::line_of(w, whole_lines(a) + l) == parser::line_of(c, l)
            &&& parser::delimiter(parser::line_of(c, l))
            &&& spans::line_starts(w)[whole_lines(a) + l] == spans::line_starts(c)[l] + a.len()
            &&& spans::line_stop(spans::line_starts(w), w.len() as int, whole_lines(a) + l)
                == spans::line_stop(spans::line_starts(c), c.len() as int, l) + a.len()
            &&& parser::note_stop(w, i) == parser::note_stop(c, k) + a.len()
        }),
{
    let m = whole_lines(a);
    lemma_heads_join(a, c);
    lemma_starts_at(a, c);
    lemma_lines_join(a, c);
    spans::lemma_line_starts(c);
    parser::lemma_note_heads(c);
    lemma_first_delimiter(c, spans::line_starts(c).len() as int);
    let i = parser::note_heads(a).len() + k;
    let hc = parser::note_heads(c);
    let hw = parser::note_heads(a + c);
    let st = spans::line_starts(a + c);
    let sc = spans::line_starts(c);
    let l = hc[k].0;
    assert(hw[i] == (l + m, hc[k].1));
    if l + 1 < sc.len() {
        assert(st[m + (l + 1)] == sc[l + 1] + a.len());
    }
    if k + 1 < hc.len() {
        assert(hw[i + 1] == (hc[k + 1].0 + m, hc[k + 1].1));
        assert(st[m + hc[k + 1].0] == sc[hc[k + 1].0] + a.len());
    }
}

/// A note of the second text.
proof fn lemma_back_note(a: Seq<u8>, c: Seq<u8>, k: int)
    requires
        is_front(a),
        a.len() > 0,
        a.len() + c.len() <= usize::MAX,
        parser::delimiter(parser::line_of(c, 0)),
        0 <= k < parser::note_heads(c).len(),
    ensures
        ({
            let i = parser::note_heads(a).len() + k;
            parser::note_from(a + c, parser::note_heads(a + c)[i], parser::note_stop(a + c, i))
                == moved_note(
                parser::note_from(c, parser::note_heads(c)[k], parser::note_stop(c, k)),
                a.len() as int,
            )
        }),
{
    let n = a.len() as int;
    lemma_back_place(a, c, k);
    let l = parser::note_heads(c)[k].0;
    let sc = spans::line_starts(c);
    assert(0 <= sc[l] <= spans::line_stop(sc, c.len() as int, l) <= c.len()) by {
        spans::lemma_line_starts(c);
    }
    assert(0 <= parser::note_stop(c, k) <= c.len()) by {
        spans::lemma_line_starts(c);
        parser::lemma_note_heads(c);
    }
    lemma_header_moved(parser::line_of(c, l), sc[l], n);
}

/// The notes of a text followed by notes: those of the text as they were, and those
/// that follow, moved behind it.
pub open spec fn joined_notes(a: Seq<u8>, c: Seq<u8>) -> Seq<NoteSpan> {
    if a.len() == 0 {
        parser::notes_of(c)
    } else {
        parser::notes_of(a) + parser::notes_of(c).map_values(
            |x: NoteSpan| moved_note(x, a.len() as int),
        )
    }
}

/// Adding notes behind a text changes none of its notes, and the notes added are
/// those that they are by themselves.
pub proof fn law_notes_join(a: Seq<u8>, c: Seq<u8>)
    requires
        is_front(a),
        a.len() + c.len() <= usize::MAX,
        parser::delimiter(parser::line_of(c, 0)),
    ensures
        parser::notes_of(a + c) == joined_notes(a, c),
{
    if a.len() == 0 {
        assert(a + c =~= c);
    } else {
        lemma_heads_join(a, c);
        let na = parser::note_heads(a).len() as int;
        assert forall|i: int| 0 <= i < parser::notes_of(a + c).len() implies #[trigger] parser::notes_of(
            a + c,
        )[i] == joined_notes(a, c)[i] by {
            if i < na {
                lemma_front_note(a, c, i);
            } else {
                lemma_back_note(a, c, i - na);
            }
        }
        assert(parser::notes_of(a + c) =~= joined_notes(a, c));
    }
}

// ---------------------------------------------------------------------------
// Tags and todos
// ---------------------------------------------------------------------------

proof fn lemma_find_front(a: Seq<u8>, c: Seq<u8>, from: int, to: int)
    requires
        0 <= from,
        to <= a.len(),
    ensures
        text::find_first(a + c, from, to, 10) == text::find_first(a, from, to, 10),
    decreases to - from,
{
    if from < to {
        lemma_find_front(a, c, from + 1, to);
    }
}

proof fn lemma_find_back(a: Seq<u8>, c: Seq<u8>, from: int, to: int)
    requires
        0 <= from,
        to <= c.len(),
    ensures
        text::find_first(a + c, from + a.len(), to + a.len(), 10) == match text::find_first(
            c,
            from,
            to,
            10,
        ) {
            Some(i) => Some(i + a.len()),
            None => None,
        },
    decreases to - from,
{
    if from < to {
        lemma_find_back(a, c, from + 1, to);
    }
}

pub proof fn lemma_line_front(a: Seq<u8>, c: Seq<u8>, p: int, end: int)
    requires
        0 <= p <= end <= a.len(),
    ensures
        parser::line_after(a + c, p, end) == parser::line_after(a, p, end),
        scan_laws::line_from(a + c, p, end) == scan_laws::line_from(a, p, end),
{
    lemma_find_front(a, c, p, end);
    text::lemma_find_first(a, p, end, 10);
    assert(scan_laws::line_from(a + c, p, end) =~= scan_laws::line_from(a, p, end));
}

proof fn lemma_line_back(a: Seq<u8>, c: Seq<u8>, p: int, end: int)
    requires
        0 <= p <= end <= c.len(),
    ensures
        parser::line_after(a + c, p + a.len(), end + a.len()) == parser::line_after(c, p, end)
            + a.len(),
        scan_laws::line_from(a + c, p + a.len(), end + a.len()) == scan_laws::line_from(c, p, end),
{
    lemma_find_back(a, c, p, end);
    text::lemma_find_first(c, p, end, 10);
    assert(scan_laws::line_from(a + c, p + a.len(), end + a.len()) =~= scan_laws::line_from(
        c,
        p,
        end,
    ));
}

proof fn lemma_read_front(a: Seq<u8>, c: Seq<u8>, p: int, end: int, fenced: bool, o: int)
    requires
        0 <= p <= end <= a.len(),
    ensures
        scan_laws::read_line(a + c, p, end, fenced, o) == scan_laws::read_line(
            a,
            p,
            end,
            fenced,
            o,
        ),
    decreases end - p,
{
    if p < end && o >= p {
        lemma_line_front(a, c, p, end);
        text::lemma_find_first(a, p, end, 10);
        let q = parser::line_after(a, p, end);
        let line = scan_laws::line_from(a, p, end);
        if o >= q {
            lemma_read_front(a, c, q, end, fenced != parser::fence(line), o);
        }
    }
}

pub open spec fn moved_place(o: Option<int>, n: int) -> Option<int> {
    match o {
        Some(x) => Some(x + n),
        None => None,
    }
}

proof fn lemma_read_back(a: Seq<u8>, c: Seq<u8>, p: int, end: int, fenced: bool, o: int)
    requires
        0 <= p <= end <= c.len(),
    ensures
        scan_laws::read_line(a + c, p + a.len(), end + a.len(), fenced, o + a.len())
            == moved_place(scan_laws::read_line(c, p, end, fenced, o), a.len() as int),
    decreases end - p,
{
    if p < end && o >= p {
        lemma_line_back(a, c, p, end);
        text::lemma_find_first(c, p, end, 10);
        let q = parser::line_after(c, p, end);
        let line = scan_laws::line_from(c, p, end);
        if o >= q {
            lemma_read_back(a, c, q, end, fenced != parser::fence(line), o);
        }
    }
}

/// A tag moved by `n` bytes.
pub open spec fn moved_tag(t: TagSpan, n: int) -> TagSpan {
    TagSpan { span: moved(t.span, n), name: moved(t.name, n) }
}

/// A todo moved by `n` bytes.
pub open spec fn moved_todo(t: TodoSpan, n: int) -> TodoSpan {
    TodoSpan {
        span: moved(t.span, n),
        kind: t.kind,
        state: t.state,
        text: moved(t.text, n),
        due: moved_some(t.due, n),
    }
}

proof fn lemma_tag_front(a: Seq<u8>, c: Seq<u8>, p: int, end: int, o: int)
    requires
        0 <= p <= end <= a.len(),
    ensures
        scan_laws::tag_in_body(a + c, p, end, false, o) == scan_laws::tag_in_body(
            a,
            p,
            end,
            false,
            o,
        ),
        scan_laws::todo_in_body(a + c, p, end, false, o) == scan_laws::todo_in_body(
            a,
            p,
            end,
            false,
            o,
        ),
{
    lemma_read_front(a, c, p, end, false, o);
    scan_laws::lemma_read_line(a, p, end, false, o);
    if let Some(l) = scan_laws::read_line(a, p, end, false, o) {
        lemma_line_front(a, c, l, end);
    }
}

proof fn lemma_tag_back(a: Seq<u8>, c: Seq<u8>, p: int, end: int, o: int)
    requires
        0 <= p <= end <= c.len(),
        a.len() + c.len() <= usize::MAX,
    ensures
        scan_laws::tag_in_body(a + c, p + a.len(), end + a.len(), false, o + a.len())
            == match scan_laws::tag_in_body(c, p, end, false, o) {
            Some(t) => Some(moved_tag(t, a.len() as int)),
            None => None,
        },
{
    let n = a.len() as int;
    lemma_read_back(a, c, p, end, false, o);
    scan_laws::lemma_read_line(c, p, end, false, o);
    if let Some(l) = scan_laws::read_line(c, p, end, false, o) {
        lemma_line_back(a, c, l, end);
        text::lemma_find_first(c, l, end, 10);
        let line = scan_laws::line_from(c, l, end);
        let x = o - l;
        if parser::tag_at(line, x) && x < line.len() {
            parser::lemma_tag_run(line, x + 1);
            assert(scan_laws::tag_on(line, l + n, x) == moved_tag(
                scan_laws::tag_on(line, l, x),
                n,
            ));
        }
    }
}

proof fn lemma_todo_back(a: Seq<u8>, c: Seq<u8>, p: int, end: int, o: int)
    requires
        0 <= p <= end <= c.len(),
        a.len() + c.len() <= usize::MAX,
    ensures
        scan_laws::todo_in_body(a + c, p + a.len(), end + a.len(), false, o + a.len())
            == match scan_laws::todo_in_body(c, p, end, false, o) {
            Some(t) => Some(moved_todo(t, a.len() as int)),
            None => None,
        },
{
    let n = a.len() as int;
    lemma_read_back(a, c, p, end, false, o);
    scan_laws::lemma_read_line(c, p, end, false, o);
    if scan_laws::read_line(c, p, end, false, o) == Some(o) {
        lemma_line_back(a, c, o, end);
        text::lemma_find_first(c, o, end, 10);
        let line = scan_laws::line_from(c, o, end);
        if parser::todo_marker(line) is Some {
            parser::lemma_todo_shape(line);
            text::lemma_content_len(line);
            note_laws::lemma_due(line, 0);
            assert(parser::todo_of(line, o + n) == Some(
                moved_todo(parser::todo_of(line, o)->Some_0, n),
            ));
        }
    }
}

/// The number of the first note that follows `a`.
pub open spec fn notes_before(a: Seq<u8>) -> int {
    if a.len() == 0 {
        0
    } else {
        parser::notes_of(a).len() as int
    }
}

/// Adding notes behind a text changes neither the tags nor the todos of its notes.
pub proof fn law_tags_and_todos_stay(a: Seq<u8>, c: Seq<u8>, i: int, t: TagSpan, u: TodoSpan)
    requires
        is_front(a),
        a.len() + c.len() <= usize::MAX,
        parser::delimiter(parser::line_of(c, 0)),
        0 <= i < notes_before(a),
    ensures
        scan_laws::has_tag(parser::tags_of(a + c), i, t) <==> scan_laws::has_tag(
            parser::tags_of(a),
            i,
            t,
        ),
        scan_laws::has_todo(parser::todos_of(a + c), i, u) <==> scan_laws::has_todo(
            parser::todos_of(a),
            i,
            u,
        ),
{
    law_notes_join(a, c);
    parser::lemma_note_ranges(a, i);
    let body = parser::notes_of(a)[i].body;
    assert(parser::notes_of(a + c)[i] == parser::notes_of(a)[i]);
    lemma_tag_front(a, c, body.start as int, body.end as int, t.span.start as int);
    lemma_tag_front(a, c, body.start as int, body.end as int, u.span.start as int);
    scan_laws::law_tags_are_found(a, i, t);
    scan_laws::law_tags_are_found(a + c, i, t);
    scan_laws::law_todos_are_found(a, i, u);
    scan_laws::law_todos_are_found(a + c, i, u);
}

proof fn lemma_not_moved(x: NoteSpan)
    ensures
        moved_note(x, 0) == x,
{
}

/// A note of `c`, in the file where it follows `a`.
pub proof fn lemma_note_behind(a: Seq<u8>, c: Seq<u8>, k: int)
    requires
        is_front(a),
        a.len() + c.len() <= usize::MAX,
        parser::delimiter(parser::line_of(c, 0)),
        0 <= k < parser::notes_of(c).len(),
    ensures
        notes_before(a) + k < parser::notes_of(a + c).len(),
        parser::notes_of(a + c)[notes_before(a) + k] == moved_note(
            parser::notes_of(c)[k],
            a.len() as int,
        ),
        parser::notes_of(a + c).len() == notes_before(a) + parser::notes_of(c).len(),
        parser::notes_of(c)[k].body.start <= parser::notes_of(c)[k].body.end <= c.len(),
{
    law_notes_join(a, c);
    parser::lemma_note_ranges(c, k);
    if a.len() == 0 {
        lemma_not_moved(parser::notes_of(c)[k]);
    }
}

/// The tags and todos of notes that are added are those that they have by themselves.
pub proof fn law_added_tags_and_todos(a: Seq<u8>, c: Seq<u8>, k: int, t: TagSpan, u: TodoSpan)
    requires
        is_front(a),
        a.len() + c.len() <= usize::MAX,
        parser::delimiter(parser::line_of(c, 0)),
        0 <= k < parser::notes_of(c).len(),
    ensures
        scan_laws::has_tag(parser::tags_of(c), k, t) ==> scan_laws::has_tag(
            parser::tags_of(a + c),
            notes_before(a) + k,
            moved_tag(t, a.len() as int),
        ),
        scan_laws::has_todo(parser::todos_of(c), k, u) ==> scan_laws::has_todo(
            parser::todos_of(a + c),
            notes_before(a) + k,
            moved_todo(u, a.len() as int),
        ),
{
    let n = a.len() as int;
    lemma_note_behind(a, c, k);
    let body = parser::notes_of(c)[k].body;
    let p = body.start as int;
    let end = body.end as int;
    scan_laws::law_tags_are_found(c, k, t);
    scan_laws::law_todos_are_found(c, k, u);
    lemma_tag_back(a, c, p, end, t.span.start as int);
    lemma_todo_back(a, c, p, end, u.span.start as int);
    scan_laws::lemma_read_line(c, p, end, false, t.span.start as int);
    scan_laws::lemma_read_line(c, p, end, false, u.span.start as int);
    scan_laws::law_tags_are_found(a + c, notes_before(a) + k, moved_tag(t, n));
    scan_laws::law_todos_are_found(a + c, notes_before(a) + k, moved_todo(u, n));
}

} // verus!
