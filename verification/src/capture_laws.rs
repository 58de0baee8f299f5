//! What is captured from the command line is found again: a note or a todo that was
//! added to a file is read back from it.

use vstd::prelude::*;
use vstd::utf8::*;

use crate::append_laws;
use crate::commands;
use crate::date;
use crate::date::DateTime;
use crate::ending_laws;
use crate::header_laws;
use crate::highlight;
use crate::parser;
use crate::persistence;
use crate::scan_laws;
use crate::spans;
use crate::spans::{TodoKind, TodoSpan, TodoState};
use crate::text;
use crate::words;

verus! {

// ---------------------------------------------------------------------------
// Entries
// ---------------------------------------------------------------------------

/// The file before a new note: with the line ending that it lacks and a blank line.
pub open spec fn note_front(current: Seq<char>) -> Seq<char> {
    if current.len() == 0 {
        current
    } else {
        current + commands::separator(
            current,
            words::trim_end(current).len() > 0 && commands::trailing_endings(current) < 2,
        )
    }
}

/// The file before a new todo.
pub open spec fn todo_front(current: Seq<char>) -> Seq<char> {
    if current.len() == 0 {
        current
    } else {
        current + commands::separator(current, commands::trailing_endings(current) < 2)
    }
}

/// A stamped header line.
pub open spec fn stamp_line(stamp: DateTime, le: Seq<char>) -> Seq<char> {
    "=== "@ + date::datetime_text(stamp) + le
}

/// What stands under the header of a new note.
pub open spec fn note_text(note: Seq<char>, tags: Option<&str>, le: Seq<char>) -> Seq<char> {
    match commands::tag_line(tags) {
        Some(t) => note + le + t + le,
        None => note + le,
    }
}

/// What stands under the header of a new todo.
pub open spec fn todo_text(task: Seq<char>, le: Seq<char>) -> Seq<char> {
    "TODO: "@ + task + le
}

/// A line ending.
pub open spec fn is_ending(le: Seq<char>) -> bool {
    le == "\n"@ || le == "\r\n"@
}

#[verifier::spinoff_prover]
proof fn lemma_parts(current: Seq<char>, note: Seq<char>, tags: Option<&str>, stamp: DateTime)
    ensures
        ({
            let le = persistence::line_ending(current);
            &&& commands::with_note(current, note, tags, stamp) == note_front(current) + (
            stamp_line(stamp, le) + note_text(note, tags, le))
            &&& commands::with_todo(current, note, stamp) == todo_front(current) + (stamp_line(
                stamp,
                le,
            ) + todo_text(note, le))
            &&& is_ending(le)
        }),
{
    let le = persistence::line_ending(current);
    assert(commands::with_note(current, note, tags, stamp) =~= note_front(current) + (stamp_line(
        stamp,
        le,
    ) + note_text(note, tags, le)));
    assert(commands::with_todo(current, note, stamp) =~= todo_front(current) + (stamp_line(
        stamp,
        le,
    ) + todo_text(note, le)));
}

/// A text that ends with a newline ends with that byte.
proof fn lemma_ends(s: Seq<char>)
    requires
        s.len() > 0,
        s.last() == '\n',
    ensures
        append_laws::is_front(encode_utf8(s)),
        encode_utf8(s).len() > 0,
{
    let t = s.drop_last();
    assert(s =~= t + seq!['\n']);
    text::lemma_encode_concat(t, seq!['\n']);
    assert(is_ascii_chars(seq!['\n']));
    is_ascii_chars_encode_utf8(seq!['\n']);
    assert(encode_utf8(s).last() == 10);
}

/// A note can follow what stands before it.
proof fn lemma_fronts(current: Seq<char>)
    ensures
        append_laws::is_front(encode_utf8(note_front(current))),
        append_laws::is_front(encode_utf8(todo_front(current))),
{
    reveal_strlit("\n");
    reveal_strlit("\r\n");
    if current.len() == 0 {
        assert(encode_utf8(current).len() == 0);
    } else {
        assert(note_front(current).last() == '\n');
        assert(todo_front(current).last() == '\n');
        lemma_ends(note_front(current));
        lemma_ends(todo_front(current));
    }
}

// ---------------------------------------------------------------------------
// The header
// ---------------------------------------------------------------------------

proof fn lemma_no_newline(b: Seq<u8>)
    requires
        forall|k: int| 0 <= k < b.len() ==> #[trigger] b[k] != 10,
    ensures
        spans::line_starts(b) == seq![0int],
    decreases b.len(),
{
    if b.len() > 0 {
        lemma_no_newline(b.drop_last());
    }
}

/// A text whose only newline is its last byte is one line.
proof fn lemma_one_line(b: Seq<u8>)
    requires
        b.len() > 0,
        b.last() == 10,
        forall|k: int| 0 <= k < b.len() - 1 ==> #[trigger] b[k] != 10,
    ensures
        append_laws::whole_lines(b) == 1,
        spans::line_starts(b) == seq![0int, b.len() as int],
        parser::line_of(b, 0) == b,
{
    lemma_no_newline(b.drop_last());
    assert(spans::line_starts(b) =~= seq![0int, b.len() as int]);
    assert(parser::line_of(b, 0) =~= b);
}

/// The bytes of a stamped header line.
proof fn lemma_stamp_bytes(stamp: DateTime, le: Seq<char>)
    requires
        stamp.wf(),
        stamp.date.has_iso_year(),
        is_ending(le),
    ensures
        ({
            let h = encode_utf8(stamp_line(stamp, le));
            let d = encode_utf8(date::iso_date(stamp.date));
            let t = encode_utf8(date::iso_time(stamp.time));
            &&& h.len() == 20 + le.len()
            &&& 1 <= le.len() <= 2
            &&& h.subrange(0, 4) == seq![61u8, 61u8, 61u8, 32u8]
            &&& h.subrange(4, 14) == d
            &&& h[14] == 32
            &&& h.subrange(15, 20) == t
            &&& h.last() == 10
            &&& forall|k: int| 20 <= k < h.len() ==> text::is_newline(#[trigger] h[k])
            &&& parser::date_at(h, 4)
            &&& parser::time_at(h, 15)
            &&& forall|k: int|
                4 <= k < 20 ==> #[trigger] h[k] != 124 && !text::is_newline(h[k])
            &&& h[4] != 32 && h[15] != 32 && h[19] != 32
        }),
{
    reveal_strlit("=== ");
    reveal_strlit("\n");
    reveal_strlit("\r\n");
    reveal(date::date_text);
    let s = stamp_line(stamp, le);
    let d = date::iso_date(stamp.date);
    let t = date::iso_time(stamp.time);
    assert(d.len() == 10 && t.len() == 5);
    assert(is_ascii_chars(d) && is_ascii_chars(t) && is_ascii_chars(s));
    is_ascii_chars_encode_utf8(d);
    is_ascii_chars_encode_utf8(t);
    is_ascii_chars_encode_utf8(s);
    let h = encode_utf8(s);
    date::law_date_round_trip(stamp.date);
    assert forall|k: int| 0 <= k < 10 implies h[4 + k] == #[trigger] encode_utf8(d)[k] by {
        assert(s[4 + k] == d[k]);
    }
    assert forall|k: int| 0 <= k < 5 implies h[15 + k] == #[trigger] encode_utf8(t)[k] by {
        assert(s[15 + k] == t[k]);
    }
    assert(s[14] == ' ');
    assert(h.subrange(0, 4) =~= seq![61u8, 61u8, 61u8, 32u8]);
    assert(h.subrange(4, 14) =~= encode_utf8(d));
    assert(h.subrange(15, 20) =~= encode_utf8(t));
    assert(encode_utf8(t)[0] == 48 + stamp.time.hour as int / 10 % 10);
    assert(encode_utf8(t)[1] == 48 + stamp.time.hour as int % 10);
    assert(encode_utf8(t)[2] == 58);
    assert(encode_utf8(t)[3] == 48 + stamp.time.minute as int / 10 % 10);
    assert(encode_utf8(t)[4] == 48 + stamp.time.minute as int % 10);
    assert(parser::time_at(h, 15));
    assert(parser::date_at(h, 4));
    assert forall|k: int| 20 <= k < h.len() implies text::is_newline(#[trigger] h[k]) by {
        assert(s[k] == le[k - 20]);
    }
    assert forall|k: int| 4 <= k < 20 implies #[trigger] h[k] != 124 && !text::is_newline(
        h[k],
    ) by {
        if k < 14 {
            assert(h[k] == encode_utf8(d)[k - 4]);
        } else if k > 14 {
            assert(h[k] == encode_utf8(t)[k - 15]);
        }
    }
}

/// What a stamped header line says: its date and time, and no title.
proof fn lemma_stamp_header(stamp: DateTime, le: Seq<char>)
    requires
        stamp.wf(),
        stamp.date.has_iso_year(),
        is_ending(le),
    ensures
        ({
            let h = encode_utf8(stamp_line(stamp, le));
            &&& parser::delimiter(h)
            &&& parser::header_of(h).date == Some(4int)
            &&& parser::header_of(h).time == Some(15int)
            &&& parser::header_of(h).title is None
        }),
{
    let h = encode_utf8(stamp_line(stamp, le));
    lemma_stamp_bytes(stamp, le);
    assert(h[0] == h.subrange(0, 4)[0] && h[1] == h.subrange(0, 4)[1]);
    assert(h[2] == h.subrange(0, 4)[2] && h[3] == h.subrange(0, 4)[3]);
    parser::lemma_delimiter(h);
    header_laws::lemma_line_end(h, 20);
    reveal_with_fuel(text::skip_spaces, 3);
    assert(text::skip_spaces(h, 3) == 4);
    text::lemma_find_first(h, 4, 20, 124);
    assert(text::trim_spaces(h, 4, 20) == 20);
    assert(text::skip_spaces(h, 14) == 15);
}

/// No line of the text opens a note.
pub open spec fn opens_no_note(b: Seq<u8>) -> bool {
    parser::delimiter_lines(b, spans::line_starts(b).len() as int).len() == 0
}

/// A stamped header and the text under it, by themselves: the first note has the
/// stamp and no title, its body is the text up to the next delimiter.
proof fn lemma_entry(stamp: DateTime, le: Seq<char>, rest: Seq<u8>)
    requires
        stamp.wf(),
        is_ending(le),
        encode_utf8(stamp_line(stamp, le)).len() + rest.len() <= usize::MAX,
    ensures
        ({
            let h = encode_utf8(stamp_line(stamp, le));
            let c = h + rest;
            let x = parser::notes_of(c)[0];
            &&& parser::delimiter(parser::line_of(c, 0))
            &&& parser::notes_of(c).len() >= 1
            &&& x.span.start == 0
            &&& stamp.date.has_iso_year() ==> x.date == Some(parser::span_of(4, 14)) && x.time
                == Some(parser::span_of(15, 20)) && x.title is None
            &&& x.body.start == h.len()
            &&& opens_no_note(rest) ==> parser::notes_of(c).len() == 1 && x.body.end == c.len()
        }),
{
    let h = encode_utf8(stamp_line(stamp, le));
    let c = h + rest;
    lemma_stamp_line(stamp, le);
    if stamp.date.has_iso_year() {
        lemma_stamp_header(stamp, le);
    }
    lemma_one_line(h);
    append_laws::lemma_lines_join(h, rest);
    append_laws::lemma_starts_at(h, rest);
    let n = spans::line_starts(rest).len() as int;
    append_laws::lemma_delimiters_join(h, rest, n);
    assert(parser::line_of(c, 0) == h);
    assert(parser::delimiter_lines(h, 1) =~= seq![0int]) by {
        assert(parser::delimiter_lines(h, 0).len() == 0);
    }
    let d = parser::delimiter_lines(c, 1 + n);
    assert(d[0] == 0);
    spans::lemma_line_starts(c);
    spans::lemma_line_starts(rest);
    parser::lemma_note_ranges(c, 0);
    parser::lemma_note_heads(c);
    assert(parser::note_heads(c)[0] == (0int, true));
    assert(spans::line_starts(c)[1] == spans::line_starts(h)[1]);
    if opens_no_note(rest) {
        assert(d =~= seq![0int]);
    }
}

/// A stamped header is one delimiter line.
proof fn lemma_stamp_line(stamp: DateTime, le: Seq<char>)
    requires
        is_ending(le),
    ensures
        ({
            let h = encode_utf8(stamp_line(stamp, le));
            &&& parser::delimiter(h)
            &&& h.len() > 0
            &&& h.last() == 10
            &&& forall|k: int| 0 <= k < h.len() - 1 ==> #[trigger] h[k] != 10
        }),
{
    reveal_strlit("=== ");
    reveal_strlit("\n");
    reveal_strlit("\r\n");
    let s = stamp_line(stamp, le);
    let t = date::datetime_text(stamp);
    date::lemma_plain_text(stamp);
    assert forall|k: int| 0 <= k < s.len() implies #[trigger] s[k] as u32 <= 0x7f && (k < s.len() - 1
        ==> s[k] != '\n') by {
        if 4 <= k < 4 + t.len() {
            assert(s[k] == t[k - 4]);
        } else if k >= 4 + t.len() {
            assert(s[k] == le[k - 4 - t.len()]);
        }
    }
    assert(is_ascii_chars(s));
    is_ascii_chars_encode_utf8(s);
    let h = encode_utf8(s);
    assert(s[0] == '=' && s[1] == '=' && s[2] == '=');
    assert(s[s.len() - 1] == le[le.len() - 1]);
    assert forall|k: int| 0 <= k < h.len() - 1 implies #[trigger] h[k] != 10 by {
        assert(s[k] != '\n');
    }
    parser::lemma_delimiter(h);
}

// ---------------------------------------------------------------------------
// Laws
// ---------------------------------------------------------------------------

/// Note `i` of `b` exists and starts at `at`.
pub open spec fn starts_at(b: Seq<u8>, i: int, at: int) -> bool {
    0 <= i < parser::notes_of(b).len() && parser::notes_of(b)[i].span.start == at
}

/// Note `i` of `b` has the date and the time of the stamp, and no title.
pub open spec fn is_stamped_note(b: Seq<u8>, i: int, stamp: DateTime) -> bool {
    let x = parser::notes_of(b)[i];
    &&& x.date matches Some(d) && d.of(b) == encode_utf8(date::iso_date(stamp.date))
    &&& x.time matches Some(t) && t.of(b) == encode_utf8(date::iso_time(stamp.time))
    &&& x.title is None
}

proof fn lemma_entry_behind(a: Seq<u8>, stamp: DateTime, le: Seq<char>, rest: Seq<u8>)
    requires
        append_laws::is_front(a),
        stamp.wf(),
        is_ending(le),
        a.len() + encode_utf8(stamp_line(stamp, le)).len() + rest.len() <= usize::MAX,
    ensures
        ({
            let h = encode_utf8(stamp_line(stamp, le));
            let b = a + (h + rest);
            let i = append_laws::notes_before(a);
            &&& starts_at(b, i, a.len() as int)
            &&& stamp.date.has_iso_year() ==> is_stamped_note(b, i, stamp)
            &&& parser::delimiter(parser::line_of(h + rest, 0))
            &&& forall|j: int|
                0 <= j < i ==> #[trigger] parser::notes_of(b)[j] == parser::notes_of(a)[j]
            &&& opens_no_note(rest) ==> i + 1 == parser::notes_of(b).len() && parser::notes_of(
                b,
            )[i].body.of(b) == rest
        }),
{
    let h = encode_utf8(stamp_line(stamp, le));
    let c = h + rest;
    let b = a + c;
    let n = a.len() as int;
    lemma_entry(stamp, le, rest);
    append_laws::lemma_note_behind(a, c, 0);
    append_laws::law_notes_join(a, c);
    let x = parser::notes_of(b)[append_laws::notes_before(a)];
    if stamp.date.has_iso_year() {
        lemma_stamp_bytes(stamp, le);
        assert(x.date->Some_0 == parser::span_of(4 + n, 14 + n));
        assert(b.subrange(4 + n, 14 + n) =~= h.subrange(4, 14));
        assert(x.time->Some_0 == parser::span_of(15 + n, 20 + n));
        assert(b.subrange(15 + n, 20 + n) =~= h.subrange(15, 20));
    }
    if opens_no_note(rest) {
        assert(x.body == parser::span_of(h.len() + n, c.len() + n));
        assert(b.subrange(h.len() + n, c.len() + n) =~= rest);
    }
}

/// A note that was added is read back: the file has one more note, at the place where
/// it was added, with the date and time of its stamp if the year has four digits; the
/// notes before it are those of the file; and unless the text itself opens notes, the new note is the last one
/// and has the text as its body.
pub proof fn law_added_note_is_read(
    current: Seq<char>,
    note: Seq<char>,
    tags: Option<&str>,
    stamp: DateTime,
)
    requires
        stamp.wf(),
        encode_utf8(commands::with_note(current, note, tags, stamp)).len() <= usize::MAX,
    ensures
        ({
            let le = persistence::line_ending(current);
            let b = encode_utf8(commands::with_note(current, note, tags, stamp));
            let a = encode_utf8(note_front(current));
            let rest = encode_utf8(note_text(note, tags, le));
            let i = append_laws::notes_before(a);
            &&& starts_at(b, i, a.len() as int)
            &&& stamp.date.has_iso_year() ==> is_stamped_note(b, i, stamp)
            &&& forall|j: int|
                0 <= j < i ==> #[trigger] parser::notes_of(b)[j] == parser::notes_of(a)[j]
            &&& opens_no_note(rest) ==> i + 1 == parser::notes_of(b).len() && parser::notes_of(
                b,
            )[i].body.of(b) == rest
        }),
{
    let le = persistence::line_ending(current);
    let head = stamp_line(stamp, le);
    let body = note_text(note, tags, le);
    lemma_parts(current, note, tags, stamp);
    lemma_fronts(current);
    text::lemma_encode_concat(note_front(current), head + body);
    text::lemma_encode_concat(head, body);
    lemma_entry_behind(encode_utf8(note_front(current)), stamp, le, encode_utf8(body));
}

/// The bytes of one character: itself, if it is ASCII, else none that is.
pub proof fn lemma_scalar_bytes(c: char)
    ensures
        encode_scalar(c as u32).len() > 0,
        (c as u32) < 0x80 ==> encode_scalar(c as u32).len() == 1 && c == encode_scalar(
            c as u32,
        )[0] as char,
        (c as u32) >= 0x80 ==> forall|k: int|
            0 <= k < encode_scalar(c as u32).len() ==> #[trigger] encode_scalar(c as u32)[k] >= 0x80,
{
    let x = c as u32;
    char_is_scalar(c);
    if x < 0x80 {
        assert(leading_byte_width_1(x) == (x as u8)) by (bit_vector)
            requires
                x < 0x80,
        ;
        assert(encode_scalar(x)[0] == c as u8);
    } else {
        assert(leading_byte_width_2(x) >= 0x80 && leading_byte_width_3(x) >= 0x80
            && leading_byte_width_4(x) >= 0x80 && last_continuation_byte(x) >= 0x80
            && second_last_continuation_byte(x) >= 0x80 && third_last_continuation_byte(x) >= 0x80)
            by (bit_vector);
    }
}

/// An ASCII byte of a text is one of its characters.
proof fn lemma_ascii_byte(s: Seq<char>, k: int)
    requires
        0 <= k < encode_utf8(s).len(),
        encode_utf8(s)[k] < 0x80,
    ensures
        exists|j: int| 0 <= j < s.len() && #[trigger] s[j] == encode_utf8(s)[k] as char,
    decreases s.len(),
{
    assert(s.len() > 0);
    let c: char = s[0];
    let e = encode_scalar(c as u32);
    let n = e.len() as int;
    lemma_scalar_bytes(c);
    if k < n {
        assert(encode_utf8(s)[k] == e[k]);
        assert(s[0] == e[k] as char);
    } else {
        let rest = s.drop_first();
        assert(encode_utf8(s)[k] == encode_utf8(rest)[k - n]);
        lemma_ascii_byte(rest, k - n);
        let j = choose|j: int|
            0 <= j < rest.len() && #[trigger] rest[j] == encode_utf8(rest)[k - n] as char;
        assert(s[j + 1] == rest[j]);
    }
}

/// A text without newlines has none among its bytes.
proof fn lemma_no_newline_byte(s: Seq<char>, k: int)
    requires
        0 <= k < encode_utf8(s).len(),
        !s.contains('\n'),
        !s.contains('\r'),
    ensures
        encode_utf8(s)[k] != 10,
        encode_utf8(s)[k] != 13,
{
    if encode_utf8(s)[k] < 0x80 {
        lemma_ascii_byte(s, k);
        let j = choose|j: int|
            0 <= j < s.len() && #[trigger] s[j] == encode_utf8(s)[k] as char;
        assert(s.contains(s[j]));
    }
}

/// The bytes of a todo line.
proof fn lemma_todo_line(task: Seq<char>, le: Seq<char>)
    requires
        is_ending(le),
        !task.contains('\n'),
        !task.contains('\r'),
    ensures
        ({
            let rest = encode_utf8(todo_text(task, le));
            &&& rest.len() == 6 + encode_utf8(task).len() + le.len()
            &&& rest.subrange(0, 6) == encode_utf8("TODO: "@)
            &&& rest.subrange(6, 6 + encode_utf8(task).len() as int) == encode_utf8(task)
            &&& rest.last() == 10
            &&& forall|k: int| 0 <= k < rest.len() - 1 ==> #[trigger] rest[k] != 10
            &&& text::content_len(rest) == 6 + encode_utf8(task).len()
        }),
{
    reveal_strlit("TODO: ");
    reveal_strlit("\n");
    reveal_strlit("\r\n");
    let t = encode_utf8(task);
    let rest = encode_utf8(todo_text(task, le));
    assert(todo_text(task, le) =~= "TODO: "@ + (task + le));
    text::lemma_encode_concat("TODO: "@, task + le);
    text::lemma_encode_concat(task, le);
    assert(is_ascii_chars("TODO: "@) && is_ascii_chars(le));
    is_ascii_chars_encode_utf8("TODO: "@);
    is_ascii_chars_encode_utf8(le);
    let e = encode_utf8(le);
    let f = encode_utf8("TODO: "@);
    assert(rest.subrange(0, 6) =~= f);
    assert(rest.subrange(6, 6 + t.len() as int) =~= t);
    assert forall|k: int| 0 <= k < t.len() implies #[trigger] t[k] != 10 && t[k] != 13 by {
        lemma_no_newline_byte(task, k);
    }
    assert forall|k: int| 0 <= k < rest.len() - 1 implies #[trigger] rest[k] != 10 by {
        if k < 6 {
            assert(rest[k] == f[k]);
        } else if k < 6 + t.len() {
            assert(rest[k] == t[k - 6]);
        } else {
            assert(rest[k] == e[k - 6 - t.len()]);
        }
    }
    assert forall|k: int| 6 + t.len() <= k < rest.len() implies text::is_newline(
        #[trigger] rest[k],
    ) by {
        assert(rest[k] == e[k - 6 - t.len()]);
    }
    assert(!text::is_newline(rest[6 + t.len() - 1])) by {
        if t.len() > 0 {
            assert(rest[6 + t.len() - 1] == t[t.len() - 1]);
        } else {
            assert(rest[5] == f[5]);
        }
    }
    header_laws::lemma_line_end(rest, 6 + t.len() as int);
}

/// A todo line opens no note and is no fence; it is an open todo with the task as its
/// text.
proof fn lemma_todo_read(task: Seq<char>, le: Seq<char>, n: int)
    requires
        is_ending(le),
        !task.contains('\n'),
        !task.contains('\r'),
    ensures
        ({
            let rest = encode_utf8(todo_text(task, le));
            &&& opens_no_note(rest)
            &&& !parser::fence(rest)
            &&& parser::todo_of(rest, n) == Some(
                TodoSpan {
                    span: parser::span_of(n, n + rest.len()),
                    kind: TodoKind::Prefix,
                    state: TodoState::Open,
                    text: parser::span_of(n + 6, n + 6 + encode_utf8(task).len()),
                    due: parser::due_span(rest, n),
                },
            )
        }),
{
    let rest = encode_utf8(todo_text(task, le));
    lemma_todo_line(task, le);
    reveal_strlit("TODO: ");
    is_ascii_chars_encode_utf8("TODO: "@);
    let f = encode_utf8("TODO: "@);
    assert(f =~= seq![84u8, 79u8, 68u8, 79u8, 58u8, 32u8]);
    assert forall|k: int| 0 <= k < 6 implies #[trigger] rest[k] == f[k] by {
        assert(rest.subrange(0, 6)[k] == rest[k]);
    }
    assert(rest[0] == 84 && rest[4] == 58 && rest[5] == 32);
    lemma_one_line(rest);
    lemma_single_line(rest);
    parser::lemma_markers();
    assert(parser::skip_blanks(rest, 0) == 0);
    assert(rest.subrange(0, 5) =~= encode_utf8("TODO:"@));
    assert(rest.subrange(0, 5)[0] == 84);
    assert(parser::todo_marker(rest) == Some((TodoKind::Prefix, TodoState::Open)));
    assert(parser::task_start(rest) == 6);
    lemma_no_fence(rest);
}

/// One line that is no delimiter opens no note.
proof fn lemma_single_line(rest: Seq<u8>)
    requires
        rest.len() > 0,
        rest[0] == 84,
        spans::line_starts(rest) == seq![0int, rest.len() as int],
        parser::line_of(rest, 0) == rest,
    ensures
        opens_no_note(rest),
{
    parser::lemma_delimiter(rest);
    assert(parser::line_of(rest, 1).len() == 0);
    parser::lemma_delimiter(parser::line_of(rest, 1));
    assert(parser::delimiter_lines(rest, 0).len() == 0);
    assert(parser::delimiter_lines(rest, 1).len() == 0);
}

/// The todo of a stamped entry, by itself.
proof fn lemma_todo_entry(stamp: DateTime, task: Seq<char>, le: Seq<char>)
    requires
        stamp.wf(),
        is_ending(le),
        !task.contains('\n'),
        !task.contains('\r'),
        encode_utf8(stamp_line(stamp, le)).len() + encode_utf8(todo_text(task, le)).len()
            <= usize::MAX,
    ensures
        ({
            let h = encode_utf8(stamp_line(stamp, le));
            let rest = encode_utf8(todo_text(task, le));
            scan_laws::has_todo(
                parser::todos_of(h + rest),
                0,
                parser::todo_of(rest, h.len() as int)->Some_0,
            )
        }),
{
    let h = encode_utf8(stamp_line(stamp, le));
    let rest = encode_utf8(todo_text(task, le));
    let c = h + rest;
    let n = h.len() as int;
    lemma_todo_line(task, le);
    lemma_todo_read(task, le, n);
    lemma_entry(stamp, le, rest);
    text::lemma_find_first(c, n, c.len() as int, 10);
    assert(c[c.len() - 1] == 10);
    assert forall|k: int| n <= k < c.len() - 1 implies #[trigger] c[k] != 10 by {
        assert(c[k] == rest[k - n]);
    }
    assert(parser::line_after(c, n, c.len() as int) == c.len());
    assert(scan_laws::line_from(c, n, c.len() as int) =~= rest);
    let t = parser::todo_of(rest, n)->Some_0;
    scan_laws::law_todos_are_found(c, 0, t);
}

/// A line that starts with a letter is no fence.
proof fn lemma_no_fence(line: Seq<u8>)
    requires
        line.len() > 0,
        line[0] == 84,
    ensures
        !parser::fence(line),
{
    reveal_strlit("```");
    reveal_strlit("~~~");
    is_ascii_chars_encode_utf8("```"@);
    is_ascii_chars_encode_utf8("~~~"@);
    assert(parser::skip_blanks(line, 0) == 0);
    if parser::fence(line) {
        assert(line.subrange(0, 3)[0] == line[0]);
    }
}

/// An open todo of note `i` has the text `task`.
pub open spec fn lists_open(b: Seq<u8>, i: int, task: Seq<u8>) -> bool {
    exists|t: TodoSpan|
        #[trigger] scan_laws::has_todo(parser::todos_of(b), i, t) && t.state is Open && t.text.of(b)
            == task
}

proof fn lemma_todo_behind(a: Seq<u8>, stamp: DateTime, task: Seq<char>, le: Seq<char>)
    requires
        append_laws::is_front(a),
        stamp.wf(),
        is_ending(le),
        !task.contains('\n'),
        !task.contains('\r'),
        a.len() + encode_utf8(stamp_line(stamp, le)).len() + encode_utf8(
            todo_text(task, le),
        ).len() <= usize::MAX,
    ensures
        lists_open(
            a + (encode_utf8(stamp_line(stamp, le)) + encode_utf8(todo_text(task, le))),
            append_laws::notes_before(a),
            encode_utf8(task),
        ),
{
    let h = encode_utf8(stamp_line(stamp, le));
    let rest = encode_utf8(todo_text(task, le));
    let n = h.len() as int;
    let k = encode_utf8(task).len() as int;
    let b = a + (h + rest);
    let m = a.len() + n;
    lemma_todo_entry(stamp, task, le);
    lemma_todo_line(task, le);
    lemma_todo_read(task, le, n);
    let u = parser::todo_of(rest, n)->Some_0;
    lemma_entry(stamp, le, rest);
    append_laws::law_added_tags_and_todos(a, h + rest, 0, scan_laws::tag_on(rest, 0, 0), u);
    let t = append_laws::moved_todo(u, a.len() as int);
    assert(t.text == parser::span_of(m + 6, m + 6 + k));
    assert(b.subrange(m + 6, m + 6 + k) =~= rest.subrange(6, 6 + k));
    assert(scan_laws::has_todo(parser::todos_of(b), append_laws::notes_before(a), t));
}

/// The todos of a file that a todo was added behind: those that it had, and the new
/// one.
proof fn lemma_todos_then_one(a: Seq<u8>, stamp: DateTime, task: Seq<char>, le: Seq<char>)
    requires
        append_laws::is_front(a),
        stamp.wf(),
        is_ending(le),
        !task.contains('\n'),
        !task.contains('\r'),
        a.len() + encode_utf8(stamp_line(stamp, le)).len() + encode_utf8(
            todo_text(task, le),
        ).len() <= usize::MAX,
    ensures
        ({
            let h = encode_utf8(stamp_line(stamp, le));
            let rest = encode_utf8(todo_text(task, le));
            let t = parser::todo_of(rest, (a.len() + h.len()) as int)->Some_0;
            parser::todos_of(a + (h + rest)) == parser::todos_of(a).push(
                (append_laws::notes_before(a) as usize, t),
            )
        }),
{
    let h = encode_utf8(stamp_line(stamp, le));
    let rest = encode_utf8(todo_text(task, le));
    let c = h + rest;
    let b = a + c;
    let end = b.len() as int;
    let m = (a.len() + h.len()) as int;
    let i = append_laws::notes_before(a);
    lemma_todo_line(task, le);
    lemma_todo_read(task, le, m);
    lemma_entry_behind(a, stamp, le, rest);
    ending_laws::law_todos_stay_in_front(a, c);
    parser::lemma_note_ranges(b, i);
    let body = parser::notes_of(b)[i].body;
    assert(body.of(b).len() == rest.len());
    assert(body.start == m && body.end == end);
    text::lemma_find_first(b, m, end, 10);
    assert(b[end - 1] == rest[rest.len() - 1]);
    assert forall|k: int| m <= k < end - 1 implies #[trigger] b[k] != 10 by {
        assert(b[k] == rest[k - m]);
    }
    assert(parser::line_after(b, m, end) == end);
    assert(b.subrange(m, end) =~= rest);
    let t = parser::todo_of(rest, m)->Some_0;
    assert(parser::body_todos(b, end, end, false, i).len() == 0);
    assert(parser::body_todos(b, m, end, false, i) =~= seq![(i as usize, t)]);
    assert(parser::todos_of(b) =~= parser::todos_of(a).push((i as usize, t)));
}

/// What stands between a file and a new todo is line endings.
proof fn lemma_todo_front(current: Seq<char>)
    ensures
        ({
            let a = encode_utf8(todo_front(current));
            let b = encode_utf8(current);
            &&& b.len() <= a.len()
            &&& a == b + a.subrange(b.len() as int, a.len() as int)
            &&& forall|k: int| b.len() <= k < a.len() ==> text::is_newline(#[trigger] a[k])
        }),
{
    reveal_strlit("\n");
    reveal_strlit("\r\n");
    let b = encode_utf8(current);
    let s = if current.len() == 0 {
        Seq::empty()
    } else {
        commands::separator(current, commands::trailing_endings(current) < 2)
    };
    assert(todo_front(current) =~= current + s);
    text::lemma_encode_concat(current, s);
    assert forall|k: int| 0 <= k < s.len() implies #[trigger] s[k] == '\n' || s[k] == '\r' by {}
    assert(is_ascii_chars(s));
    is_ascii_chars_encode_utf8(s);
    let a = b + encode_utf8(s);
    assert forall|k: int| b.len() <= k < a.len() implies text::is_newline(#[trigger] a[k]) by {
        assert(a[k] == s[k - b.len()] as u8);
    }
    assert(a =~= b + a.subrange(b.len() as int, a.len() as int));
}

/// A todo that was added is listed: its note is the last one of the file and has the
/// stamp, if its year has four digits, and among the todos of that note there is an
/// open one with the task as its text. The file lists exactly that one more: the others stay, in their order, and the
/// new one is the last.
pub proof fn law_added_todo_is_listed(current: Seq<char>, task: Seq<char>, stamp: DateTime)
    requires
        stamp.wf(),
        !task.contains('\n'),
        !task.contains('\r'),
        encode_utf8(commands::with_todo(current, task, stamp)).len() <= usize::MAX,
    ensures
        ({
            let b = encode_utf8(commands::with_todo(current, task, stamp));
            let a = encode_utf8(todo_front(current));
            let i = append_laws::notes_before(a);
            &&& starts_at(b, i, a.len() as int)
            &&& stamp.date.has_iso_year() ==> is_stamped_note(b, i, stamp)
            &&& i + 1 == parser::notes_of(b).len()
            &&& lists_open(b, i, encode_utf8(task))
            &&& parser::todos_of(b).len() == parser::todos_of(encode_utf8(current)).len() + 1
            &&& ending_laws::same_todos(
                parser::todos_of(encode_utf8(current)),
                parser::todos_of(b).drop_last(),
            )
            &&& parser::todos_of(b).last().0 == i
            &&& parser::todos_of(b).last().1.kind is Prefix
            &&& parser::todos_of(b).last().1.state is Open
            &&& parser::todos_of(b).last().1.text.of(b) == encode_utf8(task)
        }),
{
    let le = persistence::line_ending(current);
    let head = stamp_line(stamp, le);
    let body = todo_text(task, le);
    let a = encode_utf8(todo_front(current));
    lemma_parts(current, task, None, stamp);
    lemma_fronts(current);
    text::lemma_encode_concat(todo_front(current), head + body);
    text::lemma_encode_concat(head, body);
    lemma_todo_read(task, le, 0);
    lemma_entry_behind(a, stamp, le, encode_utf8(body));
    lemma_todo_behind(a, stamp, task, le);
    lemma_todos_then_one(a, stamp, task, le);
    lemma_todo_front(current);
    let was = encode_utf8(current);
    ending_laws::law_endings_keep_todos(was, a.subrange(was.len() as int, a.len() as int));
    let h = encode_utf8(head);
    let rest = encode_utf8(body);
    let b = a + (h + rest);
    let m = (a.len() + h.len()) as int;
    let k = encode_utf8(task).len() as int;
    lemma_todo_read(task, le, m);
    lemma_todo_line(task, le);
    assert(parser::todos_of(b).drop_last() =~= parser::todos_of(a));
    assert(b.subrange(m + 6, m + 6 + k) =~= rest.subrange(6, 6 + k));
}

// ---------------------------------------------------------------------------
// Tags of a new note
// ---------------------------------------------------------------------------

/// A tag as it is written: `#` and tag characters that are not all digits.
pub open spec fn is_tag_word(w: Seq<char>) -> bool {
    &&& w.len() >= 2
    &&& w[0] == '#'
    &&& forall|k: int| 1 <= k < w.len() ==> highlight::is_tag_char(#[trigger] w[k])
    &&& exists|k: int| 1 <= k < w.len() && !('0' <= #[trigger] w[k] <= '9')
}

/// Where word `j` starts among words with single spaces between.
pub open spec fn word_start(ws: Seq<Seq<char>>, j: int) -> int {
    if j <= 0 {
        0
    } else {
        commands::spaced(ws.subrange(0, j)).len() as int + 1
    }
}

proof fn lemma_spaced(ws: Seq<Seq<char>>, j: int)
    requires
        0 <= j < ws.len(),
        forall|i: int| 0 <= i < ws.len() ==> is_tag_word(#[trigger] ws[i]),
    ensures
        ({
            let s = commands::spaced(ws);
            let x = word_start(ws, j);
            let y = x + ws[j].len();
            &&& 0 <= x <= y <= s.len()
            &&& s.subrange(x, y) == ws[j]
            &&& x > 0 ==> s[x - 1] == ' '
            &&& y < s.len() ==> s[y] == ' '
            &&& forall|k: int|
                0 <= k < s.len() ==> #[trigger] s[k] == ' ' || s[k] == '#'
                    || highlight::is_tag_char(s[k])
        }),
    decreases ws.len(),
{
    reveal_strlit(" ");
    let s = commands::spaced(ws);
    let x = word_start(ws, j);
    if ws.len() == 1 {
        assert(s.subrange(0, s.len() as int) =~= ws[0]);
        assert forall|k: int| 0 <= k < s.len() implies #[trigger] s[k] == ' ' || s[k] == '#'
            || highlight::is_tag_char(s[k]) by {
            assert(s[k] == ws[0][k]);
        }
    } else {
        let front = ws.drop_last();
        let f = commands::spaced(front);
        assert forall|i: int| 0 <= i < front.len() implies is_tag_word(#[trigger] front[i]) by {
            assert(front[i] == ws[i]);
        }
        lemma_spaced(front, if j < front.len() {
            j
        } else {
            0
        });
        assert forall|k: int| 0 <= k < s.len() implies #[trigger] s[k] == ' ' || s[k] == '#'
            || highlight::is_tag_char(s[k]) by {
            if k < f.len() {
                assert(s[k] == f[k]);
            } else if k > f.len() {
                assert(s[k] == ws.last()[k - f.len() - 1]);
            }
        }
        if j < front.len() {
            let y = x + ws[j].len();
            assert(front.subrange(0, j) =~= ws.subrange(0, j));
            assert(word_start(front, j) == x);
            assert(s.subrange(x, y) =~= f.subrange(x, y));
            if x > 0 {
                assert(s[x - 1] == f[x - 1]);
            }
            if y < f.len() {
                assert(s[y] == f[y]);
            }
        } else {
            assert(ws.subrange(0, j) =~= front);
            assert(s.subrange(x, s.len() as int) =~= ws[j]);
        }
    }
}

/// A line without backticks has no inline code.
proof fn lemma_no_code(line: Seq<u8>, p: int)
    requires
        forall|k: int| 0 <= k < line.len() ==> #[trigger] line[k] != 96,
    ensures
        parser::code_spans(line, p).len() == 0,
    decreases line.len() - p,
{
    if 0 <= p < line.len() {
        lemma_no_code(line, p + 1);
    }
}

/// The line of tags under a new note: each of its words is a tag.
proof fn lemma_tag_line(ws: Seq<Seq<char>>, le: Seq<char>, j: int)
    requires
        is_ending(le),
        0 <= j < ws.len(),
        forall|i: int| 0 <= i < ws.len() ==> is_tag_word(#[trigger] ws[i]),
    ensures
        ({
            let line = encode_utf8(commands::spaced(ws) + le);
            let x = word_start(ws, j);
            &&& 0 <= x < line.len()
            &&& parser::tag_at(line, x)
            &&& parser::tag_run(line, x + 1) == x + ws[j].len()
            &&& x + ws[j].len() <= line.len()
            &&& line.subrange(x + 1, x + ws[j].len()) == encode_utf8(ws[j].drop_first())
            &&& line.last() == 10
            &&& forall|k: int| 0 <= k < line.len() - 1 ==> #[trigger] line[k] != 10
            &&& line[0] == 35
        }),
{
    reveal_strlit("\n");
    reveal_strlit("\r\n");
    let t = commands::spaced(ws);
    let s = t + le;
    let x = word_start(ws, j);
    let w = ws[j];
    let y = x + w.len();
    lemma_spaced(ws, j);
    lemma_spaced(ws, 0);
    assert(is_tag_word(w) && is_tag_word(ws[0]));
    assert forall|k: int| 0 <= k < s.len() implies (#[trigger] s[k] as u32) < 0x80 && s[k] != '`'
        && (k < s.len() - 1 ==> s[k] != '\n') by {
        if k < t.len() {
            assert(s[k] == t[k]);
        } else {
            assert(s[k] == le[k - t.len()]);
        }
    }
    assert(is_ascii_chars(s));
    is_ascii_chars_encode_utf8(s);
    let line = encode_utf8(s);
    assert forall|k: int| 0 <= k < line.len() implies #[trigger] line[k] == s[k] as u8 by {}
    assert forall|k: int| 0 <= k < w.len() implies #[trigger] s[x + k] == w[k] by {
        assert(t.subrange(x, y)[k] == t[x + k]);
    }
    assert(s[x + 0] == '#');
    assert(t.subrange(0, ws[0].len() as int)[0] == t[0]);
    lemma_no_code(line, 0);
    let e = parser::tag_run(line, x + 1);
    parser::lemma_tag_run(line, x + 1);
    assert forall|k: int| x + 1 <= k < y implies parser::is_tag_byte(#[trigger] line[k]) by {
        assert(s[x + (k - x)] == w[k - x]);
    }
    assert(!parser::is_tag_byte(line[y])) by {
        if y < t.len() {
            assert(s[y] == t[y]);
        } else {
            assert(s[y] == le[y - t.len()]);
        }
    }
    assert(e == y) by {
        if e < y {
            assert(parser::is_tag_byte(line[e]));
        }
    }
    assert(parser::has_non_digit(line, x + 1, y)) by {
        let k = choose|k: int| 1 <= k < w.len() && !('0' <= #[trigger] w[k] <= '9');
        assert(s[x + k] == w[k]);
        assert(!parser::is_digit(line[x + k]));
    }
    if x > 0 {
        assert(s[x - 1] == t[x - 1]);
    }
    assert(parser::tag_at(line, x));
    let name = w.drop_first();
    assert(is_ascii_chars(name)) by {
        assert forall|k: int| 0 <= k < name.len() implies (#[trigger] name[k] as u32) < 0x80 by {
            assert(name[k] == w[k + 1]);
        }
    }
    is_ascii_chars_encode_utf8(name);
    assert(line.subrange(x + 1, y) =~= encode_utf8(name)) by {
        assert forall|k: int| 0 <= k < name.len() implies line[x + 1 + k] == #[trigger] encode_utf8(
            name,
        )[k] by {
            assert(s[x + (k + 1)] == w[k + 1]);
        }
    }
}

/// No line of `b[p..]` is a fence.
pub open spec fn fence_free(b: Seq<u8>, p: int) -> bool
    decreases b.len() - p,
{
    if p < 0 || p >= b.len() {
        true
    } else {
        let q = parser::line_after(b, p, b.len() as int);
        proof {
            text::lemma_find_first(b, p, b.len() as int, 10);
        }
        !parser::fence(b.subrange(p, q)) && fence_free(b, q)
    }
}

/// Where no fence stands, the lines behind are read: `mid` is a text of whole lines
/// between `a` and `rest`.
proof fn lemma_read_on(a: Seq<u8>, mid: Seq<u8>, rest: Seq<u8>, p: int, o: int)
    requires
        append_laws::is_front(mid),
        fence_free(mid, p),
        0 <= p <= mid.len(),
        a.len() + mid.len() <= o,
    ensures
        scan_laws::read_line(
            a + mid + rest,
            a.len() + p,
            (a + mid + rest).len() as int,
            false,
            o,
        ) == scan_laws::read_line(
            a + mid + rest,
            (a.len() + mid.len()) as int,
            (a + mid + rest).len() as int,
            false,
            o,
        ),
    decreases mid.len() - p,
{
    let b = a + mid + rest;
    let n = a.len() as int;
    if p < mid.len() {
        text::lemma_find_first(mid, p, mid.len() as int, 10);
        text::lemma_find_first(b, n + p, b.len() as int, 10);
        assert(mid[mid.len() - 1] == 10);
        let q = parser::line_after(mid, p, mid.len() as int);
        let r = parser::line_after(b, n + p, b.len() as int);
        assert(b[n + (q - 1)] == mid[q - 1]);
        assert(r == n + q) by {
            if r < n + q {
                assert(b[r - 1] == mid[r - 1 - n]);
            }
        }
        assert(b.subrange(n + p, r) =~= mid.subrange(p, q));
        lemma_read_on(a, mid, rest, q, o);
    }
}

/// The tags under a stamped header, by themselves.
#[verifier::spinoff_prover]
proof fn lemma_tags_entry(
    stamp: DateTime,
    le: Seq<char>,
    mid: Seq<u8>,
    ws: Seq<Seq<char>>,
    j: int,
)
    requires
        stamp.wf(),
        is_ending(le),
        append_laws::is_front(mid),
        fence_free(mid, 0),
        0 <= j < ws.len(),
        forall|i: int| 0 <= i < ws.len() ==> is_tag_word(#[trigger] ws[i]),
        opens_no_note(mid + encode_utf8(commands::spaced(ws) + le)),
        encode_utf8(stamp_line(stamp, le)).len() + mid.len() + encode_utf8(
            commands::spaced(ws) + le,
        ).len() <= usize::MAX,
    ensures
        ({
            let h = encode_utf8(stamp_line(stamp, le));
            let line = encode_utf8(commands::spaced(ws) + le);
            let c = h + (mid + line);
            let n = (h.len() + mid.len()) as int;
            let x = word_start(ws, j);
            &&& scan_laws::has_tag(parser::tags_of(c), 0, scan_laws::tag_on(line, n, x))
            &&& scan_laws::tag_on(line, n, x).name.of(c) == encode_utf8(ws[j].drop_first())
            &&& scan_laws::tag_on(line, n, x).name.end <= c.len()
        }),
{
    let h = encode_utf8(stamp_line(stamp, le));
    let line = encode_utf8(commands::spaced(ws) + le);
    let c = h + (mid + line);
    let n = (h.len() + mid.len()) as int;
    let x = word_start(ws, j);
    let o = n + x;
    let end = c.len() as int;
    lemma_tag_line(ws, le, j);
    lemma_entry(stamp, le, mid + line);
    assert(c =~= h + mid + line);
    lemma_read_on(h, mid, line, 0, o);
    text::lemma_find_first(c, n, end, 10);
    assert(c[end - 1] == line[line.len() - 1]);
    assert forall|k: int| n <= k < end - 1 implies #[trigger] c[k] != 10 by {
        assert(c[k] == line[k - n]);
    }
    assert(parser::line_after(c, n, end) == end);
    assert(scan_laws::line_from(c, n, end) =~= line);
    lemma_hash_is_no_fence(line);
    assert(scan_laws::read_line(c, n, end, false, o) == Some(n));
    let t = scan_laws::tag_on(line, n, x);
    assert(t.span.start == o);
    scan_laws::law_tags_are_found(c, 0, t);
    assert(t.name == parser::span_of(n + x + 1, n + x + ws[j].len()));
    assert(c.subrange(n + x + 1, n + x + ws[j].len()) =~= line.subrange(x + 1, x + ws[j].len()));
}

/// A line that starts with `#` is no fence.
proof fn lemma_hash_is_no_fence(line: Seq<u8>)
    requires
        line.len() > 0,
        line[0] == 35,
    ensures
        !parser::fence(line),
{
    reveal_strlit("```");
    reveal_strlit("~~~");
    is_ascii_chars_encode_utf8("```"@);
    is_ascii_chars_encode_utf8("~~~"@);
    assert(parser::skip_blanks(line, 0) == 0);
    if parser::fence(line) {
        assert(line.subrange(0, 3)[0] == line[0]);
    }
}

proof fn lemma_tags_behind(
    a: Seq<u8>,
    stamp: DateTime,
    le: Seq<char>,
    mid: Seq<u8>,
    ws: Seq<Seq<char>>,
    j: int,
)
    requires
        append_laws::is_front(a),
        stamp.wf(),
        is_ending(le),
        append_laws::is_front(mid),
        fence_free(mid, 0),
        0 <= j < ws.len(),
        forall|i: int| 0 <= i < ws.len() ==> is_tag_word(#[trigger] ws[i]),
        opens_no_note(mid + encode_utf8(commands::spaced(ws) + le)),
        a.len() + encode_utf8(stamp_line(stamp, le)).len() + mid.len() + encode_utf8(
            commands::spaced(ws) + le,
        ).len() <= usize::MAX,
    ensures
        ({
            let h = encode_utf8(stamp_line(stamp, le));
            let line = encode_utf8(commands::spaced(ws) + le);
            let b = a + (h + (mid + line));
            commands::has_tag(
                b,
                parser::tags_of(b),
                append_laws::notes_before(a),
                words::lower(ws[j].drop_first()),
            )
        }),
{
    let h = encode_utf8(stamp_line(stamp, le));
    let line = encode_utf8(commands::spaced(ws) + le);
    let c = h + (mid + line);
    let b = a + c;
    let n = (h.len() + mid.len()) as int;
    let i = append_laws::notes_before(a);
    lemma_tags_entry(stamp, le, mid, ws, j);
    lemma_entry(stamp, le, mid + line);
    let t = scan_laws::tag_on(line, n, word_start(ws, j));
    lemma_tag_line(ws, le, j);
    let any = TodoSpan {
        span: t.span,
        kind: TodoKind::Prefix,
        state: TodoState::Open,
        text: t.span,
        due: None,
    };
    append_laws::law_added_tags_and_todos(a, c, 0, t, any);
    let u = append_laws::moved_tag(t, a.len() as int);
    assert(u.name == parser::span_of(t.name.start + a.len(), t.name.end + a.len()));
    assert(u.name.of(b) =~= t.name.of(c));
    words::lemma_lower_bytes(ws[j].drop_first());
    let ts = parser::tags_of(b);
    let k = choose|k: int| 0 <= k < ts.len() && (#[trigger] ts[k]).0 == i && ts[k].1 == u;
    assert(words::lower_bytes(ts[k].1.name.of(b)) == encode_utf8(words::lower(ws[j].drop_first())));
}

/// A note that was added with tags carries each of them: it is found by `tag:` and the
/// name. The text of the note must not open notes or code of its own, and what was
/// given as tags must be tags.
pub proof fn law_added_tags_are_found(
    current: Seq<char>,
    note: Seq<char>,
    tags: &str,
    stamp: DateTime,
    j: int,
)
    requires
        stamp.wf(),
        ({
            let le = persistence::line_ending(current);
            let ws = commands::tag_list(words::pieces(tags@, ','));
            &&& words::trim(tags@).len() > 0
            &&& 0 <= j < ws.len()
            &&& forall|i: int| 0 <= i < ws.len() ==> is_tag_word(#[trigger] ws[i])
            &&& opens_no_note(encode_utf8(note_text(note, Some(tags), le)))
            &&& fence_free(encode_utf8(note + le), 0)
        }),
        encode_utf8(commands::with_note(current, note, Some(tags), stamp)).len() <= usize::MAX,
    ensures
        ({
            let b = encode_utf8(commands::with_note(current, note, Some(tags), stamp));
            let ws = commands::tag_list(words::pieces(tags@, ','));
            commands::has_tag(
                b,
                parser::tags_of(b),
                append_laws::notes_before(encode_utf8(note_front(current))),
                words::lower(ws[j].drop_first()),
            )
        }),
{
    let le = persistence::line_ending(current);
    let ws = commands::tag_list(words::pieces(tags@, ','));
    let head = stamp_line(stamp, le);
    let body = note_text(note, Some(tags), le);
    let a = encode_utf8(note_front(current));
    lemma_parts(current, note, Some(tags), stamp);
    lemma_fronts(current);
    text::lemma_encode_concat(note_front(current), head + body);
    text::lemma_encode_concat(head, body);
    let tail = commands::spaced(ws) + le;
    assert(body =~= (note + le) + tail);
    text::lemma_encode_concat(note + le, tail);
    reveal_strlit("\n");
    reveal_strlit("\r\n");
    assert((note + le).last() == '\n');
    lemma_ends(note + le);
    lemma_tags_behind(a, stamp, le, encode_utf8(note + le), ws, j);
}

} // verus!
