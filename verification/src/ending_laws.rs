//! Line endings behind a text change none of its todos.

use vstd::prelude::*;
use vstd::utf8::*;

use crate::append_laws;
use crate::parser;
use crate::scan_laws;
use crate::spans;
use crate::spans::TodoSpan;
use crate::text;

verus! {

/// `u` is the todo `t`; its line may have got a line ending.
pub open spec fn same_todo(t: TodoSpan, u: TodoSpan) -> bool {
    &&& u.span.start == t.span.start
    &&& t.span.end <= u.span.end
    &&& u.kind == t.kind
    &&& u.state == t.state
    &&& u.text == t.text
    &&& u.due == t.due
}

/// The same todos of the same notes, in the same order.
pub open spec fn same_todos(ts: Seq<(usize, TodoSpan)>, us: Seq<(usize, TodoSpan)>) -> bool {
    &&& us.len() == ts.len()
    &&& forall|k: int|
        0 <= k < ts.len() ==> (#[trigger] us[k]).0 == ts[k].0 && same_todo(ts[k].1, us[k].1)
}

// ---------------------------------------------------------------------------
// One line
// ---------------------------------------------------------------------------

proof fn lemma_blanks(line: Seq<u8>, x: u8, p: int)
    requires
        text::is_newline(x),
        0 <= p <= line.len(),
    ensures
        parser::skip_blanks(line.push(x), p) == parser::skip_blanks(line, p),
    decreases line.len() - p,
{
    if p < line.len() && parser::is_blank(line[p]) {
        lemma_blanks(line, x, p + 1);
    }
}

proof fn lemma_occurs(line: Seq<u8>, x: u8, p: int, pat: Seq<u8>)
    requires
        text::is_newline(x),
        pat.len() > 0,
        !text::is_newline(pat.last()),
    ensures
        text::occurs_at(line.push(x), p, pat) == text::occurs_at(line, p, pat),
{
    let long = line.push(x);
    let n = pat.len() as int;
    if 0 <= p && p + n <= line.len() {
        assert(long.subrange(p, p + n) =~= line.subrange(p, p + n));
    } else if 0 <= p && p + n == long.len() {
        assert(long.subrange(p, p + n)[n - 1] == x);
    }
}

proof fn lemma_due(line: Seq<u8>, x: u8, p: int)
    requires
        text::is_newline(x),
        0 <= p,
    ensures
        parser::due_from(line.push(x), p) == parser::due_from(line, p),
    decreases line.len() + 1 - p,
{
    parser::lemma_markers();
    let long = line.push(x);
    if p <= line.len() {
        lemma_due(line, x, p + 1);
        lemma_occurs(line, x, p, encode_utf8("due:"@));
        assert(parser::date_at(long, p + 4) == parser::date_at(line, p + 4)) by {
            if p + 14 == long.len() {
                assert(long[p + 4 + 9] == x);
            }
        }
        assert(parser::due_at(long, p) == parser::due_at(line, p));
    }
}

proof fn lemma_fence(line: Seq<u8>, x: u8)
    requires
        text::is_newline(x),
    ensures
        parser::fence(line.push(x)) == parser::fence(line),
{
    reveal_strlit("```");
    reveal_strlit("~~~");
    is_ascii_chars_encode_utf8("```"@);
    is_ascii_chars_encode_utf8("~~~"@);
    lemma_blanks(line, x, 0);
    let p = parser::skip_blanks(line, 0);
    lemma_occurs(line, x, p, encode_utf8("```"@));
    lemma_occurs(line, x, p, encode_utf8("~~~"@));
}

proof fn lemma_todo(line: Seq<u8>, x: u8, base: int)
    requires
        text::is_newline(x),
        0 <= base,
        base + line.len() + 1 <= usize::MAX,
    ensures
        match (parser::todo_of(line, base), parser::todo_of(line.push(x), base)) {
            (Some(t), Some(u)) => same_todo(t, u),
            (None, None) => true,
            _ => false,
        },
{
    let long = line.push(x);
    parser::lemma_markers();
    lemma_blanks(line, x, 0);
    parser::lemma_skip_blanks(line, 0);
    let p = parser::skip_blanks(line, 0);
    lemma_occurs(line, x, p, encode_utf8("- [ ]"@));
    lemma_occurs(line, x, p, encode_utf8("- [x]"@));
    lemma_occurs(line, x, p, encode_utf8("TODO:"@));
    lemma_occurs(line, x, p, encode_utf8("DONE:"@));
    lemma_due(line, x, 0);
    assert(long.drop_last() =~= line);
    assert(text::content_len(long) == text::content_len(line));
    assert(parser::task_start(long) == parser::task_start(line));
}

// ---------------------------------------------------------------------------
// A body
// ---------------------------------------------------------------------------

/// The todos of a body do not depend on what stands behind it.
proof fn lemma_front_body(a: Seq<u8>, c: Seq<u8>, p: int, end: int, fenced: bool, note: int)
    requires
        0 <= p <= end <= a.len(),
    ensures
        parser::body_todos(a + c, p, end, fenced, note) == parser::body_todos(
            a,
            p,
            end,
            fenced,
            note,
        ),
    decreases end - p,
{
    if p < end {
        append_laws::lemma_line_front(a, c, p, end);
        text::lemma_find_first(a, p, end, 10);
        let q = parser::line_after(a, p, end);
        let line = scan_laws::line_from(a, p, end);
        assert((a + c).subrange(p, q) == line);
        lemma_front_body(a, c, q, end, fenced, note);
        lemma_front_body(a, c, q, end, !fenced, note);
    }
}

/// A line ending at the end of a text keeps the todos of the body before it.
#[verifier::spinoff_prover]
#[verifier::rlimit(40)]
proof fn lemma_last_body(b: Seq<u8>, x: u8, p: int, fenced: bool, note: int)
    requires
        text::is_newline(x),
        0 <= p <= b.len(),
        b.len() + 1 <= usize::MAX,
    ensures
        same_todos(
            parser::body_todos(b, p, b.len() as int, fenced, note),
            parser::body_todos(b.push(x), p, (b.len() + 1) as int, fenced, note),
        ),
    decreases b.len() - p,
{
    let n = b.len() as int;
    let c = b.push(x);
    text::lemma_find_first(c, p, n + 1, 10);
    let q = parser::line_after(c, p, n + 1);
    assert(parser::body_todos(c, n + 1, n + 1, fenced, note).len() == 0);
    assert(parser::body_todos(c, n + 1, n + 1, !fenced, note).len() == 0);
    if p == n {
        assert(q == n + 1);
        let e = Seq::<u8>::empty();
        assert(c.subrange(p, q) =~= e.push(x));
        lemma_todo(e, x, p);
        lemma_fence(e, x);
        parser::lemma_markers();
        assert(parser::todo_of(e, p) is None);
    } else {
        text::lemma_find_first(b, p, n, 10);
        match text::find_first(b, p, n, 10) {
            Some(i) => {
                assert(c[i] == b[i]);
                assert(text::find_first(c, p, n + 1, 10) == Some(i)) by {
                    let j = text::find_first(c, p, n + 1, 10)->Some_0;
                    if j < i {
                        assert(b[j] == c[j]);
                    }
                }
                assert(c.subrange(p, q) =~= b.subrange(p, q));
                lemma_last_body(b, x, q, fenced, note);
                lemma_last_body(b, x, q, !fenced, note);
            },
            None => {
                assert(q == n + 1) by {
                    if text::find_first(c, p, n + 1, 10) is Some {
                        let j = text::find_first(c, p, n + 1, 10)->Some_0;
                        if j < n {
                            assert(b[j] == c[j]);
                        }
                    }
                }
                let line = b.subrange(p, n);
                assert(c.subrange(p, q) =~= line.push(x));
                lemma_todo(line, x, p);
                lemma_fence(line, x);
                assert(parser::body_todos(b, n, n, fenced, note).len() == 0);
                assert(parser::body_todos(b, n, n, !fenced, note).len() == 0);
            },
        }
    }
}

// ---------------------------------------------------------------------------
// The notes
// ---------------------------------------------------------------------------

/// The lines of a text with a line ending behind it: its last one has got longer, and
/// an empty one may follow.
proof fn lemma_lines(b: Seq<u8>, x: u8)
    requires
        text::is_newline(x),
    ensures
        ({
            let st = spans::line_starts(b);
            let su = spans::line_starts(b.push(x));
            &&& su.len() == st.len() || su.len() == st.len() + 1
            &&& forall|l: int| 0 <= l < st.len() ==> #[trigger] su[l] == st[l]
            &&& forall|l: int|
                0 <= l < st.len() - 1 ==> #[trigger] parser::line_of(b.push(x), l)
                    == parser::line_of(b, l)
            &&& parser::line_of(b.push(x), st.len() - 1) == parser::line_of(b, st.len() - 1).push(x)
            &&& su.len() > st.len() ==> parser::line_of(b.push(x), st.len() as int).len() == 0
            &&& spans::line_stop(su, (b.len() + 1) as int, st.len() - 1) == b.len() + 1
        }),
{
    let c = b.push(x);
    let st = spans::line_starts(b);
    let su = spans::line_starts(c);
    assert(c.drop_last() =~= b);
    assert(su == if x == 10 {
        st.push((b.len() + 1) as int)
    } else {
        st
    });
    spans::lemma_line_starts(b);
    assert forall|l: int| 0 <= l < st.len() - 1 implies #[trigger] parser::line_of(c, l)
        == parser::line_of(b, l) by {
        assert(parser::line_of(c, l) =~= parser::line_of(b, l));
    }
    let l = st.len() - 1;
    assert(parser::line_of(c, l) =~= parser::line_of(b, l).push(x));
}

proof fn lemma_delimiters(b: Seq<u8>, x: u8, n: int)
    requires
        text::is_newline(x),
        0 <= n <= spans::line_starts(b).len(),
    ensures
        parser::delimiter_lines(b.push(x), n) == parser::delimiter_lines(b, n),
    decreases n,
{
    if n > 0 {
        lemma_delimiters(b, x, n - 1);
        lemma_lines(b, x);
        if n == spans::line_starts(b).len() {
            let line = parser::line_of(b, n - 1);
            parser::lemma_delimiter(line);
            parser::lemma_delimiter(line.push(x));
        }
    }
}

proof fn lemma_heads(b: Seq<u8>, x: u8)
    requires
        text::is_newline(x),
    ensures
        parser::note_heads(b.push(x)) == parser::note_heads(b),
{
    let n = spans::line_starts(b).len() as int;
    lemma_delimiters(b, x, n);
    lemma_lines(b, x);
    parser::lemma_delimiter(parser::line_of(b.push(x), n));
    assert(parser::delimiter_lines(b.push(x), spans::line_starts(b.push(x)).len() as int)
        == parser::delimiter_lines(b, n));
}

/// The bodies stay where they are, but for the last one.
proof fn lemma_bodies(b: Seq<u8>, x: u8, i: int)
    requires
        text::is_newline(x),
        b.len() + 1 <= usize::MAX,
        0 <= i < parser::notes_of(b).len(),
    ensures
        ({
            let t = parser::notes_of(b)[i].body;
            let u = parser::notes_of(b.push(x))[i].body;
            &&& parser::notes_of(b.push(x)).len() == parser::notes_of(b).len()
            &&& t.start <= t.end <= b.len()
            &&& i + 1 < parser::notes_of(b).len() ==> u == t
            &&& i + 1 == parser::notes_of(b).len() ==> t.end == b.len() && u.end == b.len() + 1 && (
            u.start == t.start || (t.start == b.len() && u.start == b.len() + 1))
        }),
{
    let heads = parser::note_heads(b);
    let st = spans::line_starts(b);
    lemma_heads(b, x);
    lemma_lines(b, x);
    parser::lemma_note_heads(b);
    parser::lemma_note_ranges(b, i);
    parser::lemma_note_ranges(b.push(x), i);
    spans::lemma_line_starts(b);
    if i + 1 < heads.len() {
        assert(heads[i].0 < heads[i + 1].0);
    }
}

proof fn lemma_front_todos(b: Seq<u8>, x: u8, k: int)
    requires
        text::is_newline(x),
        b.len() + 1 <= usize::MAX,
        0 <= k < parser::notes_of(b).len(),
    ensures
        parser::todos_upto(b.push(x), k) == parser::todos_upto(b, k),
    decreases k,
{
    if k > 0 {
        lemma_front_todos(b, x, k - 1);
        lemma_bodies(b, x, k - 1);
        let body = parser::notes_of(b)[k - 1].body;
        assert(b.push(x) =~= b + seq![x]);
        lemma_front_body(b, seq![x], body.start as int, body.end as int, false, k - 1);
    }
}

proof fn lemma_one_ending(b: Seq<u8>, x: u8)
    requires
        text::is_newline(x),
        b.len() + 1 <= usize::MAX,
    ensures
        same_todos(parser::todos_of(b), parser::todos_of(b.push(x))),
{
    let c = b.push(x);
    let k = parser::notes_of(b).len() - 1;
    parser::lemma_note_heads(b);
    lemma_front_todos(b, x, k);
    lemma_bodies(b, x, k);
    let t = parser::notes_of(b)[k].body;
    let u = parser::notes_of(c)[k].body;
    let n = b.len() as int;
    lemma_last_body(b, x, t.start as int, false, k);
    let front = parser::todos_upto(b, k);
    let ts = parser::body_todos(b, t.start as int, n, false, k);
    let us = parser::body_todos(c, u.start as int, n + 1, false, k);
    assert(same_todos(ts, us));
    assert(parser::todos_of(b) == front + ts);
    assert(parser::todos_of(c) == front + us);
    assert forall|j: int| 0 <= j < (front + ts).len() implies (#[trigger] (front + us)[j]).0 == (
    front + ts)[j].0 && same_todo((front + ts)[j].1, (front + us)[j].1) by {
        if j >= front.len() {
            assert(us[j - front.len()].0 == ts[j - front.len()].0);
        }
    }
}

/// Line endings behind a text change none of its todos.
pub proof fn law_endings_keep_todos(b: Seq<u8>, s: Seq<u8>)
    requires
        forall|k: int| 0 <= k < s.len() ==> text::is_newline(#[trigger] s[k]),
        b.len() + s.len() <= usize::MAX,
    ensures
        same_todos(parser::todos_of(b), parser::todos_of(b + s)),
    decreases s.len(),
{
    if s.len() == 0 {
        assert(b + s =~= b);
    } else {
        let r = s.drop_last();
        assert forall|k: int| 0 <= k < r.len() implies text::is_newline(#[trigger] r[k]) by {
            assert(r[k] == s[k]);
        }
        law_endings_keep_todos(b, r);
        lemma_one_ending(b + r, s.last());
        assert(b + s =~= (b + r).push(s.last()));
        let ts = parser::todos_of(b);
        let us = parser::todos_of(b + r);
        let vs = parser::todos_of(b + s);
        assert forall|k: int| 0 <= k < ts.len() implies (#[trigger] vs[k]).0 == ts[k].0
            && same_todo(ts[k].1, vs[k].1) by {
            assert(us[k].0 == ts[k].0);
        }
    }
}

/// Adding notes behind a text keeps its todos, in their order, at the front.
pub proof fn law_todos_stay_in_front(a: Seq<u8>, c: Seq<u8>)
    requires
        append_laws::is_front(a),
        a.len() + c.len() <= usize::MAX,
        parser::delimiter(parser::line_of(c, 0)),
    ensures
        parser::todos_upto(a + c, append_laws::notes_before(a)) == parser::todos_of(a),
{
    append_laws::law_notes_join(a, c);
    if a.len() == 0 {
        spans::lemma_line_starts(a);
        assert(parser::line_of(a, 0).len() == 0);
        parser::lemma_delimiter(parser::line_of(a, 0));
        assert(parser::delimiter_lines(a, 0).len() == 0);
        assert(parser::delimiter_lines(a, 1).len() == 0);
        assert(parser::todos_upto(a, 0).len() == 0);
        assert(parser::todos_of(a) =~= Seq::empty());
    } else {
        lemma_todos_before(a, c, parser::notes_of(a).len() as int);
    }
}

proof fn lemma_todos_before(a: Seq<u8>, c: Seq<u8>, k: int)
    requires
        append_laws::is_front(a),
        a.len() > 0,
        a.len() + c.len() <= usize::MAX,
        parser::notes_of(a + c) == append_laws::joined_notes(a, c),
        0 <= k <= parser::notes_of(a).len(),
    ensures
        parser::todos_upto(a + c, k) == parser::todos_upto(a, k),
    decreases k,
{
    if k > 0 {
        lemma_todos_before(a, c, k - 1);
        parser::lemma_note_ranges(a, k - 1);
        let body = parser::notes_of(a)[k - 1].body;
        assert(parser::notes_of(a + c)[k - 1] == parser::notes_of(a)[k - 1]);
        lemma_front_body(a, c, body.start as int, body.end as int, false, k - 1);
    }
}

} // verus!
