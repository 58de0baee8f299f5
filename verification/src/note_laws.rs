//! What holds of every parse: notes tile the file, and every span that the
//! parser hands out lies inside its note, in file order, on character
//! boundaries.

use vstd::prelude::*;
use vstd::utf8::*;

use crate::parser;
use crate::spans;
use crate::spans::{NoteSpan, TagSpan, TodoSpan};
use crate::text;

verus! {

/// The spans of a note lie in the file on character boundaries.
pub open spec fn note_ok(b: Seq<u8>, n: NoteSpan) -> bool {
    &&& n.span.lies_in(b)
    &&& n.body.lies_in(b)
    &&& n.header matches Some(s) ==> s.lies_in(b)
    &&& n.date matches Some(s) ==> s.lies_in(b)
    &&& n.time matches Some(s) ==> s.lies_in(b)
    &&& n.title matches Some(s) ==> s.lies_in(b)
}

/// A todo lies in `[from, to)` of the file, its parts inside its line.
pub open spec fn todo_ok(b: Seq<u8>, t: TodoSpan, from: int, to: int) -> bool {
    &&& t.span.lies_in(b)
    &&& from <= t.span.start < t.span.end <= to
    &&& t.text.lies_in(b)
    &&& t.span.start < t.text.start <= t.text.end <= t.span.end
    &&& t.due matches Some(d) ==> d.lies_in(b) && t.span.start <= d.start < d.end <= t.span.end
}

/// A tag lies in `[from, to)` of the file and consists of `#` and its name.
pub open spec fn tag_ok(b: Seq<u8>, t: TagSpan, from: int, to: int) -> bool {
    &&& t.span.lies_in(b)
    &&& t.name.lies_in(b)
    &&& from <= t.span.start
    &&& t.name.start == t.span.start + 1
    &&& t.name.start < t.name.end
    &&& t.name.end == t.span.end <= to
}

/// Notes are numbered within the lines of the file.
pub proof fn lemma_note_count(b: Seq<u8>, i: int)
    requires
        0 <= i < parser::note_heads(b).len(),
    ensures
        i <= parser::note_heads(b)[i].0,
        i < spans::line_starts(b).len(),
        i <= b.len(),
    decreases i,
{
    parser::lemma_note_heads(b);
    spans::lemma_line_starts(b);
    if i > 0 {
        lemma_note_count(b, i - 1);
        assert(parser::note_heads(b)[i - 1].0 < parser::note_heads(b)[i].0);
    }
}

/// Every span of every note lies in the file on character boundaries.
pub proof fn law_note_spans_lie_in_file(s: Seq<char>, i: int)
    requires
        encode_utf8(s).len() <= usize::MAX,
        0 <= i < parser::notes_of(encode_utf8(s)).len(),
    ensures
        note_ok(encode_utf8(s), parser::notes_of(encode_utf8(s))[i]),
{
    let b = encode_utf8(s);
    let heads = parser::note_heads(b);
    let st = spans::line_starts(b);
    let n = parser::notes_of(b)[i];
    let l = heads[i].0;
    parser::lemma_note_ranges(b, i);
    parser::lemma_note_heads(b);
    spans::lemma_line_starts(b);
    spans::lemma_line_on_boundary(s, l);
    encode_utf8_valid_utf8(s);
    if i + 1 < heads.len() {
        spans::lemma_line_on_boundary(s, heads[i + 1].0);
    }
    if heads[i].1 {
        lemma_header_spans(s, st[l], spans::line_stop(st, b.len() as int, l));
    }
}

/// The header spans of a delimiter line lie in it on character boundaries.
proof fn lemma_header_spans(s: Seq<char>, from: int, to: int)
    requires
        encode_utf8(s).len() <= usize::MAX,
        0 <= from <= to <= encode_utf8(s).len(),
        text::on_boundary(encode_utf8(s), to),
        parser::delimiter(encode_utf8(s).subrange(from, to)),
    ensures
        ({
            let b = encode_utf8(s);
            let h = parser::header_of(b.subrange(from, to));
            &&& parser::date_span(h, from) matches Some(x) ==> x.lies_in(b)
            &&& parser::time_span(h, from) matches Some(x) ==> x.lies_in(b)
            &&& parser::title_span(h, from) matches Some(x) ==> x.lies_in(b)
        }),
{
    let b = encode_utf8(s);
    let line = b.subrange(from, to);
    let h = parser::header_of(line);
    let (left, right) = parser::header_segments(line);
    encode_utf8_valid_utf8(s);
    parser::lemma_header_segments(line);
    lemma_stamp(line, left.0, left.1);
    if right is Some {
        lemma_stamp(line, right->Some_0.0, right->Some_0.1);
    }
    if h.date is Some {
        let p = h.date->Some_0;
        assert(parser::date_at(line, p));
        assert(line[p] == b[from + p]);
        assert(line[p + 9] == b[from + p + 9]);
        text::lemma_after_ascii(b, from + p + 9);
    }
    if h.time is Some {
        let p = h.time->Some_0;
        assert(parser::time_at(line, p));
        assert(line[p] == b[from + p]);
        assert(line[p + 4] == b[from + p + 4]);
        text::lemma_after_ascii(b, from + p + 4);
    }
    if h.title is Some {
        let (p, q) = h.title->Some_0;
        assert(line[p - 1] == b[from + p - 1]);
        text::lemma_after_ascii(b, from + p - 1);
        if q < line.len() {
            assert(line[q] == b[from + q]);
        }
    }
}

proof fn lemma_stamp(line: Seq<u8>, from: int, to: int)
    requires
        0 <= from <= to <= line.len(),
    ensures
        parser::stamp_in(line, from, to) matches Some(t) ==> parser::date_at(line, from) && from
            + 10 <= to && (t matches Some(p) ==> parser::time_at(line, p) && from + 10 <= p && p + 5
            <= to),
{
    if from + 10 <= to {
        text::lemma_skip_spaces(line, from + 10);
    }
}

/// Notes tile the file: the first starts at 0, each starts where the one before
/// ends, the last ends at the end of the file. Each is its header line, if it
/// has one, followed by its body.
pub proof fn law_notes_tile(b: Seq<u8>)
    requires
        b.len() <= usize::MAX,
    ensures
        parser::notes_of(b).len() >= 1,
        parser::notes_of(b)[0].span.start == 0,
        parser::notes_of(b).last().span.end == b.len(),
        forall|i: int|
            0 <= i < parser::notes_of(b).len() - 1 ==> (#[trigger] parser::notes_of(b)[i]).span.end
                == parser::notes_of(b)[i + 1].span.start,
        forall|i: int|
            0 <= i < parser::notes_of(b).len() ==> {
                let n = #[trigger] parser::notes_of(b)[i];
                &&& n.body.end == n.span.end
                &&& match n.header {
                    Some(h) => h.start == n.span.start && h.end == n.body.start && parser::delimiter(
                        h.of(b),
                    ),
                    None => i == 0 && n.body == n.span,
                }
            },
{
    parser::lemma_note_heads(b);
    spans::lemma_line_starts(b);
    let notes = parser::notes_of(b);
    let heads = parser::note_heads(b);
    parser::lemma_note_ranges(b, 0);
    parser::lemma_note_ranges(b, notes.len() - 1);
    assert forall|i: int| 0 <= i < notes.len() - 1 implies (#[trigger] notes[i]).span.end == notes[i
        + 1].span.start by {
        parser::lemma_note_ranges(b, i);
        parser::lemma_note_ranges(b, i + 1);
    }
    assert forall|i: int| 0 <= i < notes.len() implies {
        let n = #[trigger] notes[i];
        &&& n.body.end == n.span.end
        &&& match n.header {
            Some(h) => h.start == n.span.start && h.end == n.body.start && parser::delimiter(
                h.of(b),
            ),
            None => i == 0 && n.body == n.span,
        }
    } by {
        parser::lemma_note_ranges(b, i);
        if heads[i].1 {
            let h = notes[i].header->Some_0;
            assert(h.of(b) == parser::line_of(b, heads[i].0));
        }
    }
}

/// The todos found from line start `p` on lie in `[p, end)`, in order, and carry
/// the number of their note.
pub proof fn lemma_body_todos(s: Seq<char>, p: int, end: int, fenced: bool, note: int)
    requires
        encode_utf8(s).len() <= usize::MAX,
        0 <= p <= end <= encode_utf8(s).len(),
        text::on_boundary(encode_utf8(s), p),
        text::on_boundary(encode_utf8(s), end),
        0 <= note <= usize::MAX,
    ensures
        ({
            let ts = parser::body_todos(encode_utf8(s), p, end, fenced, note);
            &&& forall|k: int|
                0 <= k < ts.len() ==> (#[trigger] ts[k]).0 == note && todo_ok(
                    encode_utf8(s),
                    ts[k].1,
                    p,
                    end,
                )
            &&& forall|j: int, k: int|
                0 <= j < k < ts.len() ==> (#[trigger] ts[j]).1.span.end <= (
                #[trigger] ts[k]).1.span.start
        }),
    decreases end - p,
{
    let b = encode_utf8(s);
    let ts = parser::body_todos(b, p, end, fenced, note);
    if p < end {
        encode_utf8_valid_utf8(s);
        text::lemma_find_first(b, p, end, 10);
        let q = parser::line_after(b, p, end);
        let line = b.subrange(p, q);
        if text::find_first(b, p, end, 10) is Some {
            text::lemma_after_ascii(b, q - 1);
        }
        if parser::fence(line) {
            lemma_body_todos(s, q, end, !fenced, note);
        } else {
            lemma_body_todos(s, q, end, fenced, note);
            if !fenced && parser::todo_of(line, p) is Some {
                let t = parser::todo_of(line, p)->Some_0;
                parser::lemma_todo_shape(line);
                text::lemma_content_len(line);
                let x = p + parser::task_start(line);
                text::lemma_after_ascii(b, x - 1);
                let y = p + text::content_len(line);
                if y < q {
                    assert(b[y] == line[y - p]);
                }
                lemma_due(line, 0);
                if t.due is Some {
                    let d = parser::due_from(line, 0)->Some_0;
                    assert(line[d] == b[p + d]);
                    assert(line[d + 13] == b[p + d + 13]);
                    text::lemma_after_ascii(b, p + d + 13);
                }
                assert(todo_ok(b, t, p, end));
                let rest = parser::body_todos(b, q, end, fenced, note);
                assert forall|k: int| 0 <= k < ts.len() implies (#[trigger] ts[k]).0 == note
                    && todo_ok(b, ts[k].1, p, end) by {
                    if k > 0 {
                        assert(ts[k] == rest[k - 1]);
                    }
                }
                assert forall|j: int, k: int| 0 <= j < k < ts.len() implies (
                #[trigger] ts[j]).1.span.end <= (#[trigger] ts[k]).1.span.start by {
                    assert(ts[k] == rest[k - 1]);
                    if j > 0 {
                        assert(ts[j] == rest[j - 1]);
                    }
                }
            }
        }
    }
}

pub proof fn lemma_due(line: Seq<u8>, p: int)
    requires
        0 <= p,
    ensures
        parser::due_from(line, p) matches Some(d) ==> p <= d && d + 14 <= line.len() && line[d]
            == 100 && line[d + 13] < 0x80,
    decreases line.len() - p,
{
    if p < line.len() {
        if parser::due_at(line, p) {
            reveal_strlit("due:");
            is_ascii_chars_encode_utf8("due:"@);
            assert(line.subrange(p, p + 4)[0] == line[p]);
        } else {
            lemma_due(line, p + 1);
        }
    }
}

/// The tags found on a line lie in it, in order.
proof fn lemma_line_tags(s: Seq<char>, base: int, q: int, p: int, note: int)
    requires
        encode_utf8(s).len() <= usize::MAX,
        0 <= base <= q <= encode_utf8(s).len(),
        0 <= p <= q - base,
        0 <= note <= usize::MAX,
    ensures
        ({
            let line = encode_utf8(s).subrange(base, q);
            let ts = parser::line_tags(line, base, p, note);
            &&& forall|k: int|
                0 <= k < ts.len() ==> (#[trigger] ts[k]).0 == note && tag_ok(
                    encode_utf8(s),
                    ts[k].1,
                    base + p,
                    q,
                )
            &&& forall|j: int, k: int|
                0 <= j < k < ts.len() ==> (#[trigger] ts[j]).1.span.end <= (
                #[trigger] ts[k]).1.span.start
        }),
    decreases q - base - p,
{
    let b = encode_utf8(s);
    let line = b.subrange(base, q);
    let ts = parser::line_tags(line, base, p, note);
    if p < line.len() {
        if parser::tag_at(line, p) {
            encode_utf8_valid_utf8(s);
            parser::lemma_tag_run(line, p + 1);
            let e = parser::tag_run(line, p + 1);
            lemma_line_tags(s, base, q, e, note);
            let rest = parser::line_tags(line, base, e, note);
            assert(e > p + 1);
            assert(line[p] == b[base + p]);
            assert(line[e - 1] == b[base + e - 1]);
            text::lemma_after_ascii(b, base + p);
            text::lemma_after_ascii(b, base + e - 1);
            assert(tag_ok(b, ts[0].1, base + p, q));
            assert forall|k: int| 0 <= k < ts.len() implies (#[trigger] ts[k]).0 == note && tag_ok(
                b,
                ts[k].1,
                base + p,
                q,
            ) by {
                if k > 0 {
                    assert(ts[k] == rest[k - 1]);
                }
            }
            assert forall|j: int, k: int| 0 <= j < k < ts.len() implies (
            #[trigger] ts[j]).1.span.end <= (#[trigger] ts[k]).1.span.start by {
                assert(ts[k] == rest[k - 1]);
                if j > 0 {
                    assert(ts[j] == rest[j - 1]);
                }
            }
        } else {
            lemma_line_tags(s, base, q, p + 1, note);
            let rest = parser::line_tags(line, base, p + 1, note);
            assert forall|k: int| 0 <= k < ts.len() implies (#[trigger] ts[k]).0 == note && tag_ok(
                b,
                ts[k].1,
                base + p,
                q,
            ) by {
                assert(ts[k] == rest[k]);
            }
        }
    }
}

/// The tags found from line start `p` on lie in `[p, end)`, in order, and carry
/// the number of their note.
pub proof fn lemma_body_tags(s: Seq<char>, p: int, end: int, fenced: bool, note: int)
    requires
        encode_utf8(s).len() <= usize::MAX,
        0 <= p <= end <= encode_utf8(s).len(),
        0 <= note <= usize::MAX,
    ensures
        ({
            let ts = parser::body_tags(encode_utf8(s), p, end, fenced, note);
            &&& forall|k: int|
                0 <= k < ts.len() ==> (#[trigger] ts[k]).0 == note && tag_ok(
                    encode_utf8(s),
                    ts[k].1,
                    p,
                    end,
                )
            &&& forall|j: int, k: int|
                0 <= j < k < ts.len() ==> (#[trigger] ts[j]).1.span.end <= (
                #[trigger] ts[k]).1.span.start
        }),
    decreases end - p,
{
    let b = encode_utf8(s);
    let ts = parser::body_tags(b, p, end, fenced, note);
    if p < end {
        text::lemma_find_first(b, p, end, 10);
        let q = parser::line_after(b, p, end);
        let line = b.subrange(p, q);
        if parser::fence(line) || fenced {
            let next = if parser::fence(line) {
                !fenced
            } else {
                fenced
            };
            lemma_body_tags(s, q, end, next, note);
            let rest = parser::body_tags(b, q, end, next, note);
            assert forall|k: int| 0 <= k < ts.len() implies (#[trigger] ts[k]).0 == note && tag_ok(
                b,
                ts[k].1,
                p,
                end,
            ) by {
                assert(ts[k] == rest[k]);
            }
        } else {
            lemma_body_tags(s, q, end, fenced, note);
            if !fenced {
                lemma_line_tags(s, p, q, 0, note);
                let here = parser::line_tags(line, p, 0, note);
                let rest = parser::body_tags(b, q, end, fenced, note);
                let n = here.len() as int;
                assert forall|k: int| 0 <= k < ts.len() implies (#[trigger] ts[k]).0 == note
                    && tag_ok(b, ts[k].1, p, end) by {
                    if k < n {
                        assert(ts[k] == here[k]);
                    } else {
                        assert(ts[k] == rest[k - n]);
                    }
                }
                assert forall|j: int, k: int| 0 <= j < k < ts.len() implies (
                #[trigger] ts[j]).1.span.end <= (#[trigger] ts[k]).1.span.start by {
                    if k < n {
                        assert(ts[j] == here[j]);
                        assert(ts[k] == here[k]);
                    } else {
                        assert(ts[k] == rest[k - n]);
                        if j < n {
                            assert(ts[j] == here[j]);
                        } else {
                            assert(ts[j] == rest[j - n]);
                        }
                    }
                }
            }
        }
    }
}

/// Every todo lies in the body of the note it is counted to, on character
/// boundaries.
pub proof fn law_todos_lie_in_notes(s: Seq<char>, n: int)
    requires
        encode_utf8(s).len() <= usize::MAX,
        0 <= n <= parser::notes_of(encode_utf8(s)).len(),
    ensures
        ({
            let b = encode_utf8(s);
            let ts = parser::todos_upto(b, n);
            &&& forall|k: int|
                0 <= k < ts.len() ==> (#[trigger] ts[k]).0 < n && todo_ok(
                    b,
                    ts[k].1,
                    parser::notes_of(b)[ts[k].0 as int].body.start as int,
                    parser::notes_of(b)[ts[k].0 as int].body.end as int,
                )
            &&& forall|j: int, k: int|
                0 <= j < k < ts.len() ==> (#[trigger] ts[j]).1.span.end <= (
                #[trigger] ts[k]).1.span.start && ts[j].0 <= ts[k].0
        }),
    decreases n,
{
    let b = encode_utf8(s);
    if n > 0 {
        law_todos_lie_in_notes(s, n - 1);
        let i = n - 1;
        lemma_note_count(b, i);
        law_note_spans_lie_in_file(s, i);
        parser::lemma_note_ranges(b, i);
        let body = parser::notes_of(b)[i].body;
        lemma_body_todos(s, body.start as int, body.end as int, false, i);
        let before = parser::todos_upto(b, i);
        let here = parser::body_todos(b, body.start as int, body.end as int, false, i);
        let ts = parser::todos_upto(b, n);
        let m = before.len() as int;
        assert forall|k: int| 0 <= k < ts.len() implies (#[trigger] ts[k]).0 < n && todo_ok(
            b,
            ts[k].1,
            parser::notes_of(b)[ts[k].0 as int].body.start as int,
            parser::notes_of(b)[ts[k].0 as int].body.end as int,
        ) by {
            if k < m {
                assert(ts[k] == before[k]);
            } else {
                assert(ts[k] == here[k - m]);
            }
        }
        assert forall|j: int, k: int| 0 <= j < k < ts.len() implies (#[trigger] ts[j]).1.span.end
            <= (#[trigger] ts[k]).1.span.start && ts[j].0 <= ts[k].0 by {
            if k < m {
                assert(ts[j] == before[j]);
                assert(ts[k] == before[k]);
            } else {
                assert(ts[k] == here[k - m]);
                if j < m {
                    assert(ts[j] == before[j]);
                    lemma_notes_ordered(b, ts[j].0 as int, i);
                } else {
                    assert(ts[j] == here[j - m]);
                }
            }
        }
    }
}

/// Every tag lies in the body of the note it is counted to, on character
/// boundaries.
pub proof fn law_tags_lie_in_notes(s: Seq<char>, n: int)
    requires
        encode_utf8(s).len() <= usize::MAX,
        0 <= n <= parser::notes_of(encode_utf8(s)).len(),
    ensures
        ({
            let b = encode_utf8(s);
            let ts = parser::tags_upto(b, n);
            &&& forall|k: int|
                0 <= k < ts.len() ==> (#[trigger] ts[k]).0 < n && tag_ok(
                    b,
                    ts[k].1,
                    parser::notes_of(b)[ts[k].0 as int].body.start as int,
                    parser::notes_of(b)[ts[k].0 as int].body.end as int,
                )
            &&& forall|j: int, k: int|
                0 <= j < k < ts.len() ==> (#[trigger] ts[j]).1.span.end <= (
                #[trigger] ts[k]).1.span.start && ts[j].0 <= ts[k].0
        }),
    decreases n,
{
    let b = encode_utf8(s);
    if n > 0 {
        law_tags_lie_in_notes(s, n - 1);
        let i = n - 1;
        lemma_note_count(b, i);
        parser::lemma_note_ranges(b, i);
        let body = parser::notes_of(b)[i].body;
        lemma_body_tags(s, body.start as int, body.end as int, false, i);
        let before = parser::tags_upto(b, i);
        let here = parser::body_tags(b, body.start as int, body.end as int, false, i);
        let ts = parser::tags_upto(b, n);
        let m = before.len() as int;
        assert forall|k: int| 0 <= k < ts.len() implies (#[trigger] ts[k]).0 < n && tag_ok(
            b,
            ts[k].1,
            parser::notes_of(b)[ts[k].0 as int].body.start as int,
            parser::notes_of(b)[ts[k].0 as int].body.end as int,
        ) by {
            if k < m {
                assert(ts[k] == before[k]);
            } else {
                assert(ts[k] == here[k - m]);
            }
        }
        assert forall|j: int, k: int| 0 <= j < k < ts.len() implies (#[trigger] ts[j]).1.span.end
            <= (#[trigger] ts[k]).1.span.start && ts[j].0 <= ts[k].0 by {
            if k < m {
                assert(ts[j] == before[j]);
                assert(ts[k] == before[k]);
            } else {
                assert(ts[k] == here[k - m]);
                if j < m {
                    assert(ts[j] == before[j]);
                    lemma_notes_ordered(b, ts[j].0 as int, i);
                } else {
                    assert(ts[j] == here[j - m]);
                }
            }
        }
    }
}

/// A note ends before any later note's body starts.
pub proof fn lemma_notes_ordered(b: Seq<u8>, i: int, j: int)
    requires
        b.len() <= usize::MAX,
        0 <= i < j < parser::notes_of(b).len(),
    ensures
        parser::notes_of(b)[i].span.end <= parser::notes_of(b)[j].span.start,
        parser::notes_of(b)[i].body.end <= parser::notes_of(b)[j].body.start,
{
    parser::lemma_note_ranges(b, i);
    parser::lemma_note_ranges(b, j);
    parser::lemma_note_heads(b);
    spans::lemma_line_starts(b);
    let st = spans::line_starts(b);
    let heads = parser::note_heads(b);
    if i + 1 < j {
        assert(heads[i + 1].0 < heads[j].0);
        assert(st[heads[i + 1].0] < st[heads[j].0]);
    }
}

} // verus!
