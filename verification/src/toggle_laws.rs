//! What toggling a todo leaves as it is.

use vstd::prelude::*;
use vstd::utf8::*;

use crate::commands;
use crate::parser;
use crate::scan_laws;
use crate::spans;
use crate::spans::{TodoSpan, TodoState};
use crate::text;

verus! {

/// `c` is `b` with other bytes on one line: the line `[o, q)`, which opens no note and
/// is no fence, neither before nor after, and keeps its length.
pub open spec fn line_changed(b: Seq<u8>, c: Seq<u8>, o: int, q: int) -> bool {
    &&& b.len() == c.len()
    &&& 0 <= o < q <= b.len()
    &&& o == 0 || b[o - 1] == 10
    &&& q == parser::line_after(b, o, b.len() as int)
    &&& forall|i: int| 0 <= i < b.len() ==> (#[trigger] b[i] == 10) == (c[i] == 10)
    &&& forall|i: int| 0 <= i < b.len() && !(o <= i < q) ==> #[trigger] b[i] == c[i]
    &&& !parser::delimiter(b.subrange(o, q)) && !parser::delimiter(c.subrange(o, q))
    &&& !parser::fence(b.subrange(o, q)) && !parser::fence(c.subrange(o, q))
}

proof fn lemma_same_starts(b: Seq<u8>, c: Seq<u8>)
    requires
        b.len() == c.len(),
        forall|i: int| 0 <= i < b.len() ==> (#[trigger] b[i] == 10) == (c[i] == 10),
    ensures
        spans::line_starts(b) == spans::line_starts(c),
    decreases b.len(),
{
    if b.len() > 0 {
        assert(b[b.len() - 1] == 10 <==> c[b.len() - 1] == 10);
        assert forall|i: int| 0 <= i < b.len() - 1 implies (#[trigger] b.drop_last()[i] == 10) == (
        c.drop_last()[i] == 10) by {
            assert(b[i] == b.drop_last()[i]);
        }
        lemma_same_starts(b.drop_last(), c.drop_last());
    }
}

/// The lines of both texts: the same ones, but for the changed line.
proof fn lemma_same_lines(b: Seq<u8>, c: Seq<u8>, o: int, q: int, l: int)
    requires
        line_changed(b, c, o, q),
        0 <= l < spans::line_starts(b).len(),
    ensures
        spans::line_starts(b) == spans::line_starts(c),
        parser::line_of(b, l) == parser::line_of(c, l) || (!parser::delimiter(
            parser::line_of(b, l),
        ) && !parser::delimiter(parser::line_of(c, l))),
{
    lemma_same_starts(b, c);
    spans::lemma_line_starts(b);
    let st = spans::line_starts(b);
    let n = b.len() as int;
    let from = st[l];
    let to = spans::line_stop(st, n, l);
    text::lemma_find_first(b, o, n, 10);
    if from == o {
        assert(to == q) by {
            if l + 1 < st.len() {
                assert(b[st[l + 1] - 1] == 10);
                assert(st[l + 1] >= q);
                if st[l + 1] > q {
                    assert(st.contains(q - 1 + 1));
                    let k = choose|k: int| 0 <= k < st.len() && st[k] == q;
                    assert(l < k < l + 1);
                }
            } else if q < n {
                assert(st.contains(q - 1 + 1));
                let k = choose|k: int| 0 <= k < st.len() && st[k] == q;
                assert(k > l);
            }
        }
    } else {
        assert(to <= o || q <= from) by {
            if from < o {
                assert(st.contains(o - 1 + 1));
                let k = choose|k: int| 0 <= k < st.len() && st[k] == o;
                assert(l < k);
                assert(l + 1 <= k);
            } else {
                assert(b[from - 1] == 10);
            }
        }
        assert(parser::line_of(b, l) =~= parser::line_of(c, l));
    }
}

proof fn lemma_same_delimiters(b: Seq<u8>, c: Seq<u8>, o: int, q: int, n: int)
    requires
        line_changed(b, c, o, q),
        0 <= n <= spans::line_starts(b).len(),
    ensures
        parser::delimiter_lines(b, n) == parser::delimiter_lines(c, n),
    decreases n,
{
    if n > 0 {
        lemma_same_delimiters(b, c, o, q, n - 1);
        lemma_same_lines(b, c, o, q, n - 1);
    }
}

/// The notes stay.
proof fn lemma_same_notes(b: Seq<u8>, c: Seq<u8>, o: int, q: int)
    requires
        line_changed(b, c, o, q),
    ensures
        parser::notes_of(b) == parser::notes_of(c),
{
    spans::lemma_line_starts(b);
    lemma_same_starts(b, c);
    lemma_same_delimiters(b, c, o, q, spans::line_starts(b).len() as int);
    parser::lemma_note_heads(b);
    parser::lemma_note_heads(c);
    assert(parser::note_heads(b) == parser::note_heads(c));
    assert forall|i: int| 0 <= i < parser::note_heads(b).len() implies #[trigger] parser::notes_of(
        b,
    )[i] == parser::notes_of(c)[i] by {
        let h = parser::note_heads(b)[i];
        lemma_same_lines(b, c, o, q, h.0);
        assert(parser::note_stop(b, i) == parser::note_stop(c, i));
        if h.1 {
            assert(parser::delimiter(parser::line_of(b, h.0)));
            assert(parser::line_of(b, h.0) == parser::line_of(c, h.0));
        }
    }
    assert(parser::notes_of(b) =~= parser::notes_of(c));
}

proof fn lemma_same_find(b: Seq<u8>, c: Seq<u8>, from: int, to: int)
    requires
        b.len() == c.len(),
        forall|i: int| 0 <= i < b.len() ==> (#[trigger] b[i] == 10) == (c[i] == 10),
        0 <= from,
        to <= b.len(),
    ensures
        text::find_first(b, from, to, 10) == text::find_first(c, from, to, 10),
    decreases to - from,
{
    if from < to {
        assert(b[from] == 10 <==> c[from] == 10);
        lemma_same_find(b, c, from + 1, to);
    }
}

/// Which lines are read stays.
proof fn lemma_same_reading(
    b: Seq<u8>,
    c: Seq<u8>,
    o: int,
    q: int,
    p: int,
    end: int,
    fenced: bool,
    x: int,
)
    requires
        line_changed(b, c, o, q),
        0 <= p <= end <= b.len(),
        p == 0 || b[p - 1] == 10,
        end == b.len() || (end > 0 && b[end - 1] == 10),
    ensures
        scan_laws::read_line(b, p, end, fenced, x) == scan_laws::read_line(c, p, end, fenced, x),
        scan_laws::read_line(b, p, end, fenced, x) matches Some(l) ==> l == 0 || b[l - 1] == 10,
    decreases end - p,
{
    if p < end && x >= p {
        lemma_same_find(b, c, p, end);
        text::lemma_find_first(b, p, end, 10);
        text::lemma_find_first(b, o, b.len() as int, 10);
        let r = parser::line_after(b, p, end);
        assert(r == parser::line_after(c, p, end));
        assert(r == b.len() || b[r - 1] == 10);
        lemma_one_of_lines(b, c, o, q, p, end);
        let next = fenced != parser::fence(b.subrange(p, r));
        if x >= r && r < end {
            lemma_same_reading(b, c, o, q, r, end, next, x);
        } else if x >= r {
            assert(scan_laws::read_line(b, r, end, next, x) is None);
            assert(scan_laws::read_line(c, r, end, next, x) is None);
        }
    }
}

/// A line of both texts is a fence in both or in none.
proof fn lemma_one_of_lines(b: Seq<u8>, c: Seq<u8>, o: int, q: int, p: int, end: int)
    requires
        line_changed(b, c, o, q),
        0 <= p < end <= b.len(),
        p == 0 || b[p - 1] == 10,
        end == b.len() || b[end - 1] == 10,
    ensures
        ({
            let r = parser::line_after(b, p, end);
            &&& parser::fence(b.subrange(p, r)) == parser::fence(c.subrange(p, r))
            &&& p != o ==> b.subrange(p, r) == c.subrange(p, r)
            &&& p == o ==> r == q
        }),
{
    text::lemma_find_first(b, p, end, 10);
    text::lemma_find_first(b, o, b.len() as int, 10);
    let r = parser::line_after(b, p, end);
    if p == o {
        if r < q {
            assert(b[r - 1] == 10);
        }
        assert(r == q);
    } else {
        assert(r <= o || q <= p) by {
            if p < o {
                assert(b[o - 1] == 10);
                if r > o {
                    assert(end >= o);
                }
            }
        }
        assert(b.subrange(p, r) =~= c.subrange(p, r));
    }
}

/// A line with a todo marker opens no note and is no fence.
proof fn lemma_marked(line: Seq<u8>, p: int)
    requires
        0 <= p < line.len(),
        p == parser::skip_blanks(line, 0),
        forall|i: int| 0 <= i < p ==> parser::is_blank(#[trigger] line[i]),
        line[p] == 45 || line[p] == 68 || line[p] == 84,
    ensures
        !parser::delimiter(line),
        !parser::fence(line),
{
    parser::lemma_delimiter(line);
    if p > 0 {
        assert(parser::is_blank(line[0]));
    }
    reveal_strlit("```");
    reveal_strlit("~~~");
    is_ascii_chars_encode_utf8("```"@);
    is_ascii_chars_encode_utf8("~~~"@);
    if parser::fence(line) {
        assert(line.subrange(p, p + 3)[0] == line[p]);
    }
}

/// Toggling a todo changes its line and nothing else.
proof fn lemma_toggled_at(b: Seq<u8>, o: int, state: TodoState)
    requires
        0 <= o < b.len(),
        o == 0 || b[o - 1] == 10,
        ({
            let line = b.subrange(o, parser::line_after(b, o, b.len() as int));
            parser::todo_marker(line) is Some && parser::todo_marker(line)->Some_0.1 == state
        }),
    ensures
        ({
            let q = parser::line_after(b, o, b.len() as int);
            let c = commands::toggled_at(b, o, state);
            &&& line_changed(b, c, o, q)
            &&& c.subrange(o, q) == commands::toggled_line(b.subrange(o, q), state)
        }),
{
    let n = b.len() as int;
    let q = parser::line_after(b, o, n);
    let c = commands::toggled_at(b, o, state);
    text::lemma_find_first(b, o, n, 10);
    let line = b.subrange(o, q);
    let t = commands::toggled_line(line, state);
    let p = parser::skip_blanks(line, 0);
    commands::lemma_toggled_marker(line);
    assert(c.subrange(o, q) =~= t);
    assert forall|i: int| 0 <= i < n && !(o <= i < q) implies #[trigger] b[i] == c[i] by {}
    assert forall|i: int| 0 <= i < n implies (#[trigger] b[i] == 10) == (c[i] == 10) by {
        if o <= i < q {
            assert(c[i] == t[i - o]);
            assert(b[i] == line[i - o]);
            if p <= i - o < p + 5 {
                assert(!text::is_newline(line[i - o]) && !text::is_newline(t[i - o]));
            } else {
                assert(t[i - o] == line[i - o]);
            }
        }
    }
    assert forall|i: int| 0 <= i < p implies parser::is_blank(#[trigger] t[i]) by {
        assert(t[i] == line[i]);
    }
    lemma_marked(line, p);
    lemma_marked(t, p);
}

/// The body of a note starts and ends with a line.
pub proof fn lemma_body_lines(b: Seq<u8>, i: int)
    requires
        b.len() <= usize::MAX,
        0 <= i < parser::notes_of(b).len(),
    ensures
        ({
            let body = parser::notes_of(b)[i].body;
            &&& body.start <= body.end <= b.len()
            &&& body.start == 0 || body.start == b.len() || b[body.start - 1] == 10
            &&& body.end == b.len() || (body.end > 0 && b[body.end - 1] == 10)
        }),
{
    parser::lemma_note_ranges(b, i);
    parser::lemma_note_heads(b);
    spans::lemma_line_starts(b);
    let st = spans::line_starts(b);
    let h = parser::note_heads(b)[i];
    if h.0 + 1 < st.len() {
        assert(b[st[h.0 + 1] - 1] == 10);
    }
    if h.0 > 0 {
        assert(b[st[h.0] - 1] == 10);
    }
    if i + 1 < parser::note_heads(b).len() {
        let m = parser::note_heads(b)[i + 1].0;
        assert(b[st[m] - 1] == 10);
    }
}

/// Where a todo stands, it stands on a whole line of the file.
proof fn lemma_todo_line(b: Seq<u8>, i: int, t: TodoSpan)
    requires
        b.len() <= usize::MAX,
        0 <= i < parser::notes_of(b).len(),
        scan_laws::has_todo(parser::todos_of(b), i, t),
    ensures
        ({
            let o = t.span.start as int;
            let end = parser::notes_of(b)[i].body.end as int;
            let q = parser::line_after(b, o, b.len() as int);
            &&& 0 <= o < end <= b.len()
            &&& o == 0 || b[o - 1] == 10
            &&& parser::line_after(b, o, end) == q
            &&& parser::todo_of(b.subrange(o, q), o) == Some(t)
        }),
{
    let o = t.span.start as int;
    let body = parser::notes_of(b)[i].body;
    let p = body.start as int;
    let end = body.end as int;
    let n = b.len() as int;
    scan_laws::law_todos_are_found(b, i, t);
    scan_laws::lemma_read_line(b, p, end, false, o);
    lemma_body_lines(b, i);
    lemma_read_at_start(b, p, end, false, o);
    text::lemma_find_first(b, o, end, 10);
    text::lemma_find_first(b, o, n, 10);
    let q = parser::line_after(b, o, n);
    assert(parser::line_after(b, o, end) == q) by {
        if end < n {
            assert(b[end - 1] == 10);
        }
    }
}

/// A line that is read starts the text or follows a newline.
proof fn lemma_read_at_start(b: Seq<u8>, p: int, end: int, fenced: bool, o: int)
    requires
        0 <= p <= end <= b.len(),
        p == 0 || p == b.len() || b[p - 1] == 10,
    ensures
        scan_laws::read_line(b, p, end, fenced, o) matches Some(l) ==> l == 0 || b[l - 1] == 10,
    decreases end - p,
{
    if p < end && o >= p {
        text::lemma_find_first(b, p, end, 10);
        let q = parser::line_after(b, p, end);
        let next = fenced != parser::fence(b.subrange(p, q));
        if o >= q && q < end {
            lemma_read_at_start(b, q, end, next, o);
        } else if o >= q {
            assert(scan_laws::read_line(b, q, end, next, o) is None);
        }
    }
}

/// Toggling a todo keeps every note of the file where it is, every other todo as it is,
/// and the todo itself but for its state.
pub proof fn law_toggle_keeps_the_rest(b: Seq<u8>, i: int, t: TodoSpan, k: int, u: TodoSpan)
    requires
        b.len() <= usize::MAX,
        0 <= i < parser::notes_of(b).len(),
        0 <= k < parser::notes_of(b).len(),
        scan_laws::has_todo(parser::todos_of(b), i, t),
        u.span.start != t.span.start,
    ensures
        ({
            let c = commands::toggled_at(b, t.span.start as int, t.state);
            &&& parser::notes_of(c) == parser::notes_of(b)
            &&& scan_laws::has_todo(
                parser::todos_of(c),
                i,
                TodoSpan { state: t.state.toggled(), ..t },
            )
            &&& scan_laws::has_todo(parser::todos_of(c), k, u) <==> scan_laws::has_todo(
                parser::todos_of(b),
                k,
                u,
            )
        }),
{
    let o = t.span.start as int;
    let c = commands::toggled_at(b, o, t.state);
    let q = parser::line_after(b, o, b.len() as int);
    lemma_todo_line(b, i, t);
    lemma_toggled_at(b, o, t.state);
    lemma_same_notes(b, c, o, q);
    lemma_toggled_here(b, c, i, t);
    lemma_others_stay(b, c, o, q, k, u);
}

/// The todo itself is read in the other state.
proof fn lemma_toggled_here(b: Seq<u8>, c: Seq<u8>, i: int, t: TodoSpan)
    requires
        b.len() <= usize::MAX,
        0 <= i < parser::notes_of(b).len(),
        scan_laws::has_todo(parser::todos_of(b), i, t),
        c == commands::toggled_at(b, t.span.start as int, t.state),
        parser::notes_of(c) == parser::notes_of(b),
    ensures
        scan_laws::has_todo(parser::todos_of(c), i, TodoSpan { state: t.state.toggled(), ..t }),
{
    let o = t.span.start as int;
    let body = parser::notes_of(b)[i].body;
    let p = body.start as int;
    let end = body.end as int;
    let q = parser::line_after(b, o, b.len() as int);
    let w = TodoSpan { state: t.state.toggled(), ..t };
    lemma_todo_line(b, i, t);
    lemma_toggled_at(b, o, t.state);
    lemma_body_lines(b, i);
    scan_laws::law_todos_are_found(b, i, t);
    scan_laws::law_todos_are_found(c, i, w);
    if p < b.len() {
        lemma_same_reading(b, c, o, q, p, end, false, o);
    }
    lemma_same_find(b, c, o, end);
    commands::law_toggled_todo_is_read(b.subrange(o, q), o);
}

/// Another todo stays.
proof fn lemma_others_stay(b: Seq<u8>, c: Seq<u8>, o: int, q: int, k: int, u: TodoSpan)
    requires
        b.len() <= usize::MAX,
        0 <= k < parser::notes_of(b).len(),
        line_changed(b, c, o, q),
        parser::notes_of(c) == parser::notes_of(b),
        u.span.start != o,
    ensures
        scan_laws::has_todo(parser::todos_of(c), k, u) <==> scan_laws::has_todo(
            parser::todos_of(b),
            k,
            u,
        ),
{
    let x = u.span.start as int;
    let body = parser::notes_of(b)[k].body;
    let p = body.start as int;
    let end = body.end as int;
    lemma_body_lines(b, k);
    scan_laws::law_todos_are_found(b, k, u);
    scan_laws::law_todos_are_found(c, k, u);
    if p < b.len() {
        lemma_same_reading(b, c, o, q, p, end, false, x);
        scan_laws::lemma_read_line(b, p, end, false, x);
        if scan_laws::read_line(b, p, end, false, x) == Some(x) {
            lemma_same_find(b, c, x, end);
            lemma_one_of_lines(b, c, o, q, x, end);
        }
    }
}

} // verus!
