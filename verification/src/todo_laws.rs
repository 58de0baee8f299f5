//! What a todo list shows and does: the todos of the file in order, the lines that a
//! phrase finds, and the five bytes that toggling changes.

use vstd::prelude::*;
use vstd::utf8::*;

use crate::commands;
use crate::commands::TodoEntry;
use crate::filter_laws::{holds, lemma_occurs, stands};
use crate::filter_panel;
use crate::index;
use crate::parser;
use crate::spans::{TagSpan, TodoKind, TodoSpan, TodoState};
use crate::text;
use crate::todo_overlay;
use crate::words;
use crate::writing_laws;

verus! {

// ---------------------------------------------------------------------------
// Toggling
// ---------------------------------------------------------------------------

/// Spaces and tabs only.
pub open spec fn indent(b: Seq<u8>) -> bool {
    forall|k: int| 0 <= k < b.len() ==> #[trigger] b[k] == 32 || b[k] == 9
}

/// What a marker becomes when a todo of the given state is toggled.
pub open spec fn other_marker(m: Seq<u8>, state: TodoState) -> Option<Seq<u8>> {
    match state {
        TodoState::Open => if m == seq![84u8, 79u8, 68u8, 79u8, 58u8] {
            Some(seq![68u8, 79u8, 78u8, 69u8, 58u8])
        } else if m == seq![45u8, 32u8, 91u8, 32u8, 93u8] {
            Some(seq![45u8, 32u8, 91u8, 120u8, 93u8])
        } else {
            None
        },
        TodoState::Done => if m == seq![68u8, 79u8, 78u8, 69u8, 58u8] {
            Some(seq![84u8, 79u8, 68u8, 79u8, 58u8])
        } else if m == seq![45u8, 32u8, 91u8, 120u8, 93u8] || m == seq![
            45u8,
            32u8,
            91u8,
            88u8,
            93u8,
        ] {
            Some(seq![45u8, 32u8, 91u8, 32u8, 93u8])
        } else {
            None
        },
    }
}

proof fn lemma_indent(gap: Seq<u8>, line: Seq<u8>, i: int)
    requires
        0 <= i <= gap.len() <= line.len(),
        indent(gap),
        line.subrange(0, gap.len() as int) == gap,
        gap.len() < line.len() ==> line[gap.len() as int] != 32 && line[gap.len() as int] != 9,
    ensures
        parser::skip_blanks(line, i) == gap.len(),
    decreases gap.len() - i,
{
    if i < gap.len() {
        assert(line.subrange(0, gap.len() as int)[i] == line[i]);
        assert(gap[i] == 32 || gap[i] == 9);
        lemma_indent(gap, line, i + 1);
    }
}

/// Toggling a line turns the marker behind its indentation into the other one and leaves
/// the rest. A line with no marker of the state there stays as it is.
pub proof fn law_line_is_toggled(gap: Seq<u8>, m: Seq<u8>, rest: Seq<u8>, state: TodoState)
    requires
        indent(gap),
        m.len() == 5 || (m.len() < 5 && rest.len() == 0),
        m.len() > 0 ==> m[0] != 32 && m[0] != 9,
    ensures
        commands::toggled_line(gap + m + rest, state) == match other_marker(m, state) {
            Some(t) => gap + t + rest,
            None => gap + m + rest,
        },
{
    parser::lemma_markers();
    let line = gap + m + rest;
    let p = gap.len() as int;
    assert(line.subrange(0, p) =~= gap);
    lemma_indent(gap, line, 0);
    if m.len() == 5 {
        assert(line.subrange(p, p + 5) =~= m);
        assert(line.subrange(p + 5, line.len() as int) =~= rest);
    }
    assert(commands::toggled_line(line, state) =~= match other_marker(m, state) {
        Some(t) => gap + t + rest,
        None => gap + m + rest,
    });
}

/// Toggling the todo on the line behind `front` changes its marker and nothing else in the
/// file, whatever stands before and behind.
pub proof fn law_todo_is_toggled(
    front: Seq<u8>,
    gap: Seq<u8>,
    m: Seq<u8>,
    rest: Seq<u8>,
    state: TodoState,
)
    requires
        indent(gap),
        m.len() == 5,
        other_marker(m, state) is Some,
    ensures
        commands::toggled_at(front + gap + m + rest, front.len() as int, state) == front + gap
            + other_marker(m, state)->Some_0 + rest,
{
    let b = front + gap + m + rest;
    let p = front.len() as int;
    let n = b.len() as int;
    let q = parser::line_after(b, p, n);
    text::lemma_find_first(b, p, n, 10);
    let x = p + gap.len();
    assert(m[0] == 84 || m[0] == 68 || m[0] == 45);
    assert forall|k: int| p <= k < x + 5 implies #[trigger] b[k] != 10 by {
        if k < x {
            assert(b[k] == gap[k - p]);
        } else {
            assert(b[k] == m[k - x]);
        }
    }
    assert(q >= x + 5);
    let line = b.subrange(p, q);
    let behind = b.subrange(x + 5, q);
    assert(line =~= gap + m + behind);
    law_line_is_toggled(gap, m, behind, state);
    assert(b.subrange(0, p) =~= front);
    assert(behind + b.subrange(q, n) =~= rest);
    assert(commands::toggled_at(b, p, state) =~= front + gap + other_marker(m, state)->Some_0
        + rest);
}

/// The overlay takes a line for a todo by the marker behind its indentation: a box, which is
/// done if it is checked with either letter, or a keyword.
pub proof fn law_overlay_markers(gap: Seq<u8>, m: Seq<u8>, rest: Seq<u8>)
    requires
        indent(gap),
        m.len() == 5,
        m[0] != 32 && m[0] != 9,
    ensures
        todo_overlay::marker_on(gap + m + rest) == if m == seq![45u8, 32u8, 91u8, 32u8, 93u8] {
            Some((TodoKind::Checkbox, TodoState::Open))
        } else if m == seq![45u8, 32u8, 91u8, 120u8, 93u8] || m == seq![
            45u8,
            32u8,
            91u8,
            88u8,
            93u8,
        ] {
            Some((TodoKind::Checkbox, TodoState::Done))
        } else if m == seq![84u8, 79u8, 68u8, 79u8, 58u8] {
            Some((TodoKind::Prefix, TodoState::Open))
        } else if m == seq![68u8, 79u8, 78u8, 69u8, 58u8] {
            Some((TodoKind::Prefix, TodoState::Done))
        } else {
            None
        },
{
    parser::lemma_markers();
    let line = gap + m + rest;
    let p = gap.len() as int;
    assert(line.subrange(0, p) =~= gap);
    assert(line[p] == m[0]);
    lemma_indent(gap, line, 0);
    assert(line.subrange(p, p + 5) =~= m);
}

// ---------------------------------------------------------------------------
// Listing
// ---------------------------------------------------------------------------

/// How many of the first `n` todos a list shows.
pub open spec fn shown(ts: Seq<(usize, TodoSpan)>, all: bool, n: int) -> int
    decreases n,
{
    if n <= 0 {
        0
    } else {
        shown(ts, all, n - 1) + if all || ts[n - 1].1.state == TodoState::Open {
            1int
        } else {
            0
        }
    }
}

proof fn lemma_shown(ts: Seq<(usize, TodoSpan)>, n: int)
    requires
        0 <= n <= ts.len(),
    ensures
        ({
            let f = ts.subrange(0, n).filter(|t: (usize, TodoSpan)| t.1.state is Open);
            &&& f.len() == shown(ts, false, n)
            &&& forall|j: int|
                0 <= j < n && (#[trigger] ts[j]).1.state is Open ==> 0 <= shown(ts, false, j)
                    < f.len() && f[shown(ts, false, j)] == ts[j]
        }),
    decreases n,
{
    let open = |t: (usize, TodoSpan)| t.1.state is Open;
    reveal(Seq::filter);
    if n > 0 {
        lemma_shown(ts, n - 1);
        assert(ts.subrange(0, n).drop_last() =~= ts.subrange(0, n - 1));
        assert(ts.subrange(0, n).last() == ts[n - 1]);
    } else {
        assert(ts.subrange(0, n) =~= Seq::<(usize, TodoSpan)>::empty());
    }
}

proof fn lemma_shown_all(ts: Seq<(usize, TodoSpan)>, n: int)
    requires
        0 <= n,
    ensures
        shown(ts, true, n) == n,
    decreases n,
{
    if n > 0 {
        lemma_shown_all(ts, n - 1);
    }
}

/// The tags of a note in a row, each with its `#`, single spaces between.
pub open spec fn hash_row(names: Seq<Seq<char>>) -> Seq<char>
    decreases names.len(),
{
    if names.len() == 0 {
        Seq::empty()
    } else if names.len() == 1 {
        seq!['#'] + names[0]
    } else {
        seq!['#'] + names[0] + seq![' '] + hash_row(names.drop_first())
    }
}

/// The names of the tags of note `i`, in file order.
pub open spec fn tag_names(b: Seq<u8>, ts: Seq<(usize, TagSpan)>, i: int) -> Seq<Seq<char>>
    decreases ts.len(),
{
    if ts.len() == 0 {
        Seq::empty()
    } else {
        let rest = tag_names(b, ts.drop_first(), i);
        if ts[0].0 == i {
            seq![decode_utf8(b.subrange(ts[0].1.name.start as int, ts[0].1.name.end as int))]
                + rest
        } else {
            rest
        }
    }
}

pub open spec fn names_of(b: Seq<u8>, tags: Seq<TagSpan>) -> Seq<Seq<char>> {
    tags.map_values(
        |t: TagSpan| decode_utf8(b.subrange(t.name.start as int, t.name.end as int)),
    )
}

proof fn lemma_tags_front(ts: Seq<(usize, TagSpan)>, i: int)
    requires
        ts.len() > 0,
    ensures
        index::tags_of_note(ts, i) == (if ts[0].0 == i {
            seq![ts[0].1]
        } else {
            Seq::empty()
        }) + index::tags_of_note(ts.drop_first(), i),
    decreases ts.len(),
{
    reveal_with_fuel(index::tags_of_note, 2);
    if ts.len() > 1 {
        lemma_tags_front(ts.drop_last(), i);
        assert(ts.drop_last()[0] == ts[0]);
        assert(ts.drop_last().drop_first() =~= ts.drop_first().drop_last());
        assert(ts.drop_first().last() == ts.last());
    } else {
        assert(ts.drop_last() =~= Seq::<(usize, TagSpan)>::empty());
        assert(ts.drop_first() =~= Seq::<(usize, TagSpan)>::empty());
    }
    assert(index::tags_of_note(ts, i) =~= (if ts[0].0 == i {
        seq![ts[0].1]
    } else {
        Seq::empty()
    }) + index::tags_of_note(ts.drop_first(), i));
}

proof fn lemma_names(b: Seq<u8>, ts: Seq<(usize, TagSpan)>, i: int)
    ensures
        names_of(b, index::tags_of_note(ts, i)) == tag_names(b, ts, i),
    decreases ts.len(),
{
    if ts.len() > 0 {
        lemma_tags_front(ts, i);
        lemma_names(b, ts.drop_first(), i);
    }
    assert(names_of(b, index::tags_of_note(ts, i)) =~= tag_names(b, ts, i));
}

proof fn lemma_row_back(names: Seq<Seq<char>>, last: Seq<char>)
    requires
        names.len() > 0,
    ensures
        hash_row(names.push(last)) == hash_row(names) + seq![' ', '#'] + last,
    decreases names.len(),
{
    let all = names.push(last);
    assert(all[0] == names[0]);
    assert(all.drop_first() =~= names.drop_first().push(last));
    if names.len() == 1 {
        assert(all.drop_first() =~= seq![last]);
        assert(hash_row(seq![last]) == seq!['#'] + last);
    } else {
        lemma_row_back(names.drop_first(), last);
    }
    assert(hash_row(all) =~= hash_row(names) + seq![' ', '#'] + last);
}

proof fn lemma_row(b: Seq<u8>, tags: Seq<TagSpan>, n: int)
    requires
        0 <= n <= tags.len(),
    ensures
        filter_panel::tag_list(b, tags, n) == hash_row(names_of(b, tags.subrange(0, n))),
        n > 0 ==> filter_panel::tag_list(b, tags, n).len() > 0,
    decreases n,
{
    reveal_strlit(" ");
    reveal_strlit("#");
    assert(" "@ =~= seq![' ']);
    assert("#"@ =~= seq!['#']);
    let names = names_of(b, tags.subrange(0, n));
    if n > 0 {
        lemma_row(b, tags, n - 1);
        let before = names_of(b, tags.subrange(0, n - 1));
        let name = decode_utf8(
            b.subrange(tags[n - 1].name.start as int, tags[n - 1].name.end as int),
        );
        assert(names =~= before.push(name));
        if n > 1 {
            lemma_row_back(before, name);
        } else {
            assert(before =~= Seq::<Seq<char>>::empty());
            assert(names[0] == name);
        }
        assert(filter_panel::tag_list(b, tags, n) =~= hash_row(names));
    } else {
        assert(names =~= Seq::<Seq<char>>::empty());
    }
}

/// A todo list has a row for every todo of the file, or for every open one, in file order.
/// The row of a todo says its state and task, where its line starts, and the date and tags
/// of its note.
pub proof fn law_list_rows(es: Seq<TodoEntry>, s: Seq<char>, all: bool, j: int)
    requires
        commands::entries_of(es, s, all),
        0 <= j < parser::todos_of(encode_utf8(s)).len(),
    ensures
        ({
            let b = encode_utf8(s);
            let ts = parser::todos_of(b);
            let t = ts[j];
            let k = shown(ts, all, j);
            &&& es.len() == shown(ts, all, ts.len() as int)
            &&& all || t.1.state == TodoState::Open ==> {
                &&& 0 <= k < es.len()
                &&& es[k].state == t.1.state
                &&& encode_utf8(es[k].text@) == b.subrange(
                    t.1.text.start as int,
                    t.1.text.end as int,
                )
                &&& es[k].line_byte_start == t.1.span.start
                &&& es[k].date@ == match parser::notes_of(b)[t.0 as int].date {
                    Some(d) => decode_utf8(b.subrange(d.start as int, d.end as int)),
                    None => Seq::<char>::empty(),
                }
                &&& es[k].tags@ == hash_row(tag_names(b, parser::tags_of(b), t.0 as int))
            }
        }),
{
    let b = encode_utf8(s);
    let ts = parser::todos_of(b);
    let t = ts[j];
    lemma_shown(ts, ts.len() as int);
    lemma_shown_all(ts, ts.len() as int);
    lemma_shown_all(ts, j);
    assert(ts.subrange(0, ts.len() as int) =~= ts);
    let k = shown(ts, all, j);
    if all || t.1.state == TodoState::Open {
        assert(commands::entry_of(es[k], b, t));
        let tags = index::tags_of_note(parser::tags_of(b), t.0 as int);
        lemma_names(b, parser::tags_of(b), t.0 as int);
        lemma_row(b, tags, tags.len() as int);
        assert(tags.subrange(0, tags.len() as int) =~= tags);
    }
}

// ---------------------------------------------------------------------------
// Finding
// ---------------------------------------------------------------------------

/// The task of a row holds the phrase, ASCII case aside.
pub open spec fn found_in(e: TodoEntry, phrase: Seq<char>) -> bool {
    holds(encode_utf8(e.text@), encode_utf8(phrase))
}

/// How many of the first `n` rows hold the phrase.
pub open spec fn found_before(es: Seq<TodoEntry>, phrase: Seq<char>, n: int) -> int
    decreases n,
{
    if n <= 0 {
        0
    } else {
        found_before(es, phrase, n - 1) + if found_in(es[n - 1], phrase) {
            1int
        } else {
            0
        }
    }
}

/// `s` with spaces in front, so that it fills three columns.
pub open spec fn in_three(s: Seq<char>) -> Seq<char> {
    if s.len() == 1 {
        seq![' ', ' '] + s
    } else if s.len() == 2 {
        seq![' '] + s
    } else {
        s
    }
}

proof fn lemma_grep(es: Seq<TodoEntry>, phrase: Seq<char>, n: int)
    requires
        0 <= n <= es.len(),
    ensures
        commands::grep_lines(es, phrase, n).len() == found_before(es, phrase, n),
        forall|i: int|
            0 <= i < n && found_in(#[trigger] es[i], phrase) ==> 0 <= found_before(es, phrase, i)
                < found_before(es, phrase, n) && commands::grep_lines(
                es,
                phrase,
                n,
            )[found_before(es, phrase, i)] == commands::grep_line(i, es[i]),
    decreases n,
{
    if n > 0 {
        lemma_grep(es, phrase, n - 1);
        lemma_found(es[n - 1], phrase);
    }
}

proof fn lemma_found(e: TodoEntry, phrase: Seq<char>)
    ensures
        text::contains_seq(
            words::lower_bytes(encode_utf8(e.text@)),
            words::lower_bytes(encode_utf8(phrase)),
        ) == found_in(e, phrase),
{
    let hay = encode_utf8(e.text@);
    let w = encode_utf8(phrase);
    let h = words::lower_bytes(hay);
    let l = words::lower_bytes(w);
    if holds(hay, w) {
        let i = choose|i: int| #[trigger] stands(hay, i, w);
        lemma_occurs(hay, i, w);
        assert(text::occurs_at(h, i, l));
    }
    if text::contains_seq(h, l) {
        let i = choose|i: int| #[trigger] text::occurs_at(h, i, l);
        lemma_occurs(hay, i, w);
        assert(stands(hay, i, w));
    }
}

/// `--todo --grep` prints one line for each row whose task holds the phrase, in the order
/// of the list: the place of the row in the list, counted from one, in three columns, its
/// box, and the task.
pub proof fn law_grep_lines(es: Seq<TodoEntry>, phrase: Seq<char>, i: int)
    requires
        0 <= i < es.len(),
    ensures
        ({
            let ls = commands::grep_lines(es, phrase, es.len() as int);
            &&& ls.len() == found_before(es, phrase, es.len() as int)
            &&& found_in(es[i], phrase) ==> {
                let l = ls[found_before(es, phrase, i)];
                &&& 0 <= found_before(es, phrase, i) < ls.len()
                &&& l == in_three(words::decimal((i + 1) as nat)) + seq!['.', ' ', '['] + (
                if es[i].state == TodoState::Done {
                    seq!['x']
                } else {
                    seq![' ']
                }) + seq![']', ' '] + es[i].text@
            }
        }),
{
    lemma_grep(es, phrase, es.len() as int);
    reveal_strlit(". [");
    reveal_strlit("x");
    reveal_strlit(" ");
    reveal_strlit("] ");
    assert(". ["@ =~= seq!['.', ' ', '[']);
    assert("x"@ =~= seq!['x']);
    assert(" "@ =~= seq![' ']);
    assert("] "@ =~= seq![']', ' ']);
    let d = words::decimal((i + 1) as nat);
    writing_laws::law_decimal((i + 1) as nat);
    assert(words::pad_left(d, 3) =~= in_three(d));
}

} // verus!
