//! Which parts of a file are tags and todos: the scan of the bodies, put as
//! conditions on a single place.

use vstd::prelude::*;

use crate::note_laws;
use crate::parser;
use crate::spans::{TagSpan, TodoSpan};
use crate::text;

verus! {

/// The start of the line that `o` lies on, among the lines of `b[p..end]`, if that
/// line is read: it is no fence, and no fence before it is still open. With `fenced`
/// one is open at `p`.
pub open spec fn read_line(b: Seq<u8>, p: int, end: int, fenced: bool, o: int) -> Option<int>
    decreases end - p,
{
    if p < 0 || p >= end || end > b.len() || o < p {
        None
    } else {
        let q = parser::line_after(b, p, end);
        let line = b.subrange(p, q);
        proof {
            text::lemma_find_first(b, p, end, 10);
        }
        if o < q {
            if fenced || parser::fence(line) {
                None
            } else {
                Some(p)
            }
        } else {
            read_line(b, q, end, fenced != parser::fence(line), o)
        }
    }
}

/// The line of `b[..end]` that starts at `l`.
pub open spec fn line_from(b: Seq<u8>, l: int, end: int) -> Seq<u8> {
    b.subrange(l, parser::line_after(b, l, end))
}

/// The tag at `x` of a line that starts at `base`.
pub open spec fn tag_on(line: Seq<u8>, base: int, x: int) -> TagSpan {
    let q = parser::tag_run(line, x + 1);
    TagSpan {
        span: parser::span_of(base + x, base + q),
        name: parser::span_of(base + x + 1, base + q),
    }
}

/// The tag that starts at `o` in the body `b[p..end]`, if one does: on a line that is
/// read, at a `#` outside inline code, at the start of the line or after white space,
/// with a name that is no number.
pub open spec fn tag_in_body(b: Seq<u8>, p: int, end: int, fenced: bool, o: int) -> Option<TagSpan> {
    match read_line(b, p, end, fenced, o) {
        Some(l) => if parser::tag_at(line_from(b, l, end), o - l) {
            Some(tag_on(line_from(b, l, end), l, o - l))
        } else {
            None
        },
        None => None,
    }
}

/// The todo on the line that starts at `o` in the body `b[p..end]`, if there is one:
/// the line is read, and a marker follows its indentation.
pub open spec fn todo_in_body(b: Seq<u8>, p: int, end: int, fenced: bool, o: int) -> Option<
    TodoSpan,
> {
    if read_line(b, p, end, fenced, o) == Some(o) {
        parser::todo_of(line_from(b, o, end), o)
    } else {
        None
    }
}

/// `t` is one of the tags, and of note `i`.
pub open spec fn has_tag(ts: Seq<(usize, TagSpan)>, i: int, t: TagSpan) -> bool {
    exists|k: int| 0 <= k < ts.len() && (#[trigger] ts[k]).0 == i && ts[k].1 == t
}

/// `t` is one of the todos, and of note `i`.
pub open spec fn has_todo(ts: Seq<(usize, TodoSpan)>, i: int, t: TodoSpan) -> bool {
    exists|k: int| 0 <= k < ts.len() && (#[trigger] ts[k]).0 == i && ts[k].1 == t
}

proof fn lemma_tags_joined(
    xs: Seq<(usize, TagSpan)>,
    ys: Seq<(usize, TagSpan)>,
    i: int,
    t: TagSpan,
)
    ensures
        has_tag(xs + ys, i, t) == (has_tag(xs, i, t) || has_tag(ys, i, t)),
{
    let all = xs + ys;
    if has_tag(xs, i, t) {
        let k = choose|k: int| 0 <= k < xs.len() && (#[trigger] xs[k]).0 == i && xs[k].1 == t;
        assert(all[k] == xs[k]);
    }
    if has_tag(ys, i, t) {
        let k = choose|k: int| 0 <= k < ys.len() && (#[trigger] ys[k]).0 == i && ys[k].1 == t;
        assert(all[xs.len() + k] == ys[k]);
    }
    if has_tag(all, i, t) {
        let k = choose|k: int| 0 <= k < all.len() && (#[trigger] all[k]).0 == i && all[k].1 == t;
        if k < xs.len() {
            assert(all[k] == xs[k]);
        } else {
            assert(all[k] == ys[k - xs.len()]);
        }
    }
}

proof fn lemma_todos_joined(
    xs: Seq<(usize, TodoSpan)>,
    ys: Seq<(usize, TodoSpan)>,
    i: int,
    t: TodoSpan,
)
    ensures
        has_todo(xs + ys, i, t) == (has_todo(xs, i, t) || has_todo(ys, i, t)),
{
    let all = xs + ys;
    if has_todo(xs, i, t) {
        let k = choose|k: int| 0 <= k < xs.len() && (#[trigger] xs[k]).0 == i && xs[k].1 == t;
        assert(all[k] == xs[k]);
    }
    if has_todo(ys, i, t) {
        let k = choose|k: int| 0 <= k < ys.len() && (#[trigger] ys[k]).0 == i && ys[k].1 == t;
        assert(all[xs.len() + k] == ys[k]);
    }
    if has_todo(all, i, t) {
        let k = choose|k: int| 0 <= k < all.len() && (#[trigger] all[k]).0 == i && all[k].1 == t;
        if k < xs.len() {
            assert(all[k] == xs[k]);
        } else {
            assert(all[k] == ys[k - xs.len()]);
        }
    }
}

/// What lies before the lines is on none of them, and a line that is read starts at
/// or before the place on it.
pub proof fn lemma_read_line(b: Seq<u8>, p: int, end: int, fenced: bool, o: int)
    ensures
        read_line(b, p, end, fenced, o) matches Some(l) ==> p <= l <= o < end,
    decreases end - p,
{
    if 0 <= p < end && end <= b.len() && o >= p {
        text::lemma_find_first(b, p, end, 10);
        let q = parser::line_after(b, p, end);
        let line = b.subrange(p, q);
        if o >= q {
            lemma_read_line(b, q, end, fenced != parser::fence(line), o);
        }
    }
}

/// The tags of a line are where a tag starts.
proof fn lemma_line_tags(line: Seq<u8>, base: int, p: int, note: int, i: int, t: TagSpan)
    requires
        0 <= base,
        base + line.len() <= usize::MAX,
        0 <= p <= line.len(),
        0 <= note <= usize::MAX,
    ensures
        ({
            let o = t.span.start as int;
            has_tag(parser::line_tags(line, base, p, note), i, t) == (i == note && base + p <= o
                < base + line.len() && parser::tag_at(line, o - base) && t == tag_on(
                line,
                base,
                o - base,
            ))
        }),
    decreases line.len() - p,
{
    let ts = parser::line_tags(line, base, p, note);
    let x = t.span.start - base;
    if p < line.len() {
        if parser::tag_at(line, p) {
            let q = parser::tag_run(line, p + 1);
            parser::lemma_tag_run(line, p + 1);
            lemma_line_tags(line, base, q, note, i, t);
            let first = seq![ts[0]];
            let rest = parser::line_tags(line, base, q, note);
            assert(ts =~= first + rest);
            lemma_tags_joined(first, rest, i, t);
            assert(first[0].1 == tag_on(line, base, p));
            assert(tag_on(line, base, p).span.start == base + p);
            assert(has_tag(first, i, t) == (i == note && t == tag_on(line, base, p)));
            if p < x < q {
                assert(parser::is_tag_byte(line[x]));
            }
        } else {
            lemma_line_tags(line, base, p + 1, note, i, t);
        }
    }
}

/// The tags of a body are where a tag starts in it.
proof fn lemma_body_tags(
    b: Seq<u8>,
    p: int,
    end: int,
    fenced: bool,
    note: int,
    i: int,
    t: TagSpan,
)
    requires
        b.len() <= usize::MAX,
        0 <= p <= end <= b.len(),
        0 <= note <= usize::MAX,
    ensures
        has_tag(parser::body_tags(b, p, end, fenced, note), i, t) == (i == note && tag_in_body(
            b,
            p,
            end,
            fenced,
            t.span.start as int,
        ) == Some(t)),
    decreases end - p,
{
    let o = t.span.start as int;
    if p < end {
        text::lemma_find_first(b, p, end, 10);
        let q = parser::line_after(b, p, end);
        let line = b.subrange(p, q);
        lemma_body_tags(b, q, end, fenced != parser::fence(line), note, i, t);
        lemma_read_line(b, q, end, fenced != parser::fence(line), o);
        if !fenced && !parser::fence(line) {
            let here = parser::line_tags(line, p, 0, note);
            let rest = parser::body_tags(b, q, end, fenced, note);
            lemma_tags_joined(here, rest, i, t);
            lemma_line_tags(line, p, 0, note, i, t);
        }
    }
}

/// The todos of a body are where a todo stands in it.
proof fn lemma_body_todos(
    b: Seq<u8>,
    p: int,
    end: int,
    fenced: bool,
    note: int,
    i: int,
    t: TodoSpan,
)
    requires
        b.len() <= usize::MAX,
        0 <= p <= end <= b.len(),
        0 <= note <= usize::MAX,
    ensures
        has_todo(parser::body_todos(b, p, end, fenced, note), i, t) == (i == note && todo_in_body(
            b,
            p,
            end,
            fenced,
            t.span.start as int,
        ) == Some(t)),
    decreases end - p,
{
    let o = t.span.start as int;
    if p < end {
        text::lemma_find_first(b, p, end, 10);
        let q = parser::line_after(b, p, end);
        let line = b.subrange(p, q);
        lemma_body_todos(b, q, end, fenced != parser::fence(line), note, i, t);
        lemma_read_line(b, q, end, fenced != parser::fence(line), o);
        if !fenced && !parser::fence(line) {
            let rest = parser::body_todos(b, q, end, fenced, note);
            if let Some(u) = parser::todo_of(line, p) {
                let first = seq![(note as usize, u)];
                lemma_todos_joined(first, rest, i, t);
                assert(first[0].1 == u && u.span.start == p);
                assert(has_todo(first, i, t) == (i == note && t == u));
            }
        }
    }
}

proof fn lemma_tags_upto(b: Seq<u8>, n: int, i: int, t: TagSpan)
    requires
        b.len() <= usize::MAX,
        0 <= n <= parser::notes_of(b).len(),
    ensures
        has_tag(parser::tags_upto(b, n), i, t) == (0 <= i < n && tag_in_body(
            b,
            parser::notes_of(b)[i].body.start as int,
            parser::notes_of(b)[i].body.end as int,
            false,
            t.span.start as int,
        ) == Some(t)),
    decreases n,
{
    if n > 0 {
        lemma_tags_upto(b, n - 1, i, t);
        let body = parser::notes_of(b)[n - 1].body;
        note_laws::lemma_note_count(b, n - 1);
        parser::lemma_note_ranges(b, n - 1);
        let here = parser::body_tags(b, body.start as int, body.end as int, false, n - 1);
        lemma_tags_joined(parser::tags_upto(b, n - 1), here, i, t);
        lemma_body_tags(b, body.start as int, body.end as int, false, n - 1, i, t);
    }
}

proof fn lemma_todos_upto(b: Seq<u8>, n: int, i: int, t: TodoSpan)
    requires
        b.len() <= usize::MAX,
        0 <= n <= parser::notes_of(b).len(),
    ensures
        has_todo(parser::todos_upto(b, n), i, t) == (0 <= i < n && todo_in_body(
            b,
            parser::notes_of(b)[i].body.start as int,
            parser::notes_of(b)[i].body.end as int,
            false,
            t.span.start as int,
        ) == Some(t)),
    decreases n,
{
    if n > 0 {
        lemma_todos_upto(b, n - 1, i, t);
        let body = parser::notes_of(b)[n - 1].body;
        note_laws::lemma_note_count(b, n - 1);
        parser::lemma_note_ranges(b, n - 1);
        let here = parser::body_todos(b, body.start as int, body.end as int, false, n - 1);
        lemma_todos_joined(parser::todos_upto(b, n - 1), here, i, t);
        lemma_body_todos(b, body.start as int, body.end as int, false, n - 1, i, t);
    }
}

/// A tag of a note stands wherever one can: it starts at a `#` in the body, at the
/// start of a line or after white space, with tag characters after it that are not
/// all digits; and nothing in fenced code or inline code is a tag.
pub proof fn law_tags_are_found(b: Seq<u8>, i: int, t: TagSpan)
    requires
        b.len() <= usize::MAX,
        0 <= i < parser::notes_of(b).len(),
    ensures
        has_tag(parser::tags_of(b), i, t) <==> tag_in_body(
            b,
            parser::notes_of(b)[i].body.start as int,
            parser::notes_of(b)[i].body.end as int,
            false,
            t.span.start as int,
        ) == Some(t),
{
    lemma_tags_upto(b, parser::notes_of(b).len() as int, i, t);
}

/// A todo of a note stands on every line of the body that has a marker after its
/// indentation; and nothing in fenced code is a todo.
pub proof fn law_todos_are_found(b: Seq<u8>, i: int, t: TodoSpan)
    requires
        b.len() <= usize::MAX,
        0 <= i < parser::notes_of(b).len(),
    ensures
        has_todo(parser::todos_of(b), i, t) <==> todo_in_body(
            b,
            parser::notes_of(b)[i].body.start as int,
            parser::notes_of(b)[i].body.end as int,
            false,
            t.span.start as int,
        ) == Some(t),
{
    lemma_todos_upto(b, parser::notes_of(b).len() as int, i, t);
}

} // verus!
