//! What holds of the editor's operations together.

use vstd::prelude::*;
use vstd::utf8::*;

use crate::date;
use crate::date::DateTime;
use crate::delimiter;
use crate::editing;
use crate::editing::EditorView;
use crate::persistence;
use crate::positions;
use crate::spans;
use crate::text;
use crate::words;

verus! {

/// The cursor lies in the text of its line.
pub open spec fn on_text(v: EditorView) -> bool {
    v.byte <= positions::line_len(v.bytes, v.line)
}

/// Moving the cursor, selecting and scrolling change neither the text nor what
/// can be undone.
pub proof fn law_navigation_keeps_text(v: EditorView, n: int, down: bool, off: int)
    ensures
        editing::moved_down(v, n).bytes == v.bytes,
        editing::moved_up(v, n).bytes == v.bytes,
        editing::moved_left(v).bytes == v.bytes,
        editing::moved_right(v).bytes == v.bytes,
        editing::jumped(v, off).bytes == v.bytes,
        editing::wheeled(v, down).bytes == v.bytes,
        editing::moved_down(v, n).stacks == v.stacks,
        editing::moved_up(v, n).stacks == v.stacks,
        editing::moved_left(v).stacks == v.stacks,
        editing::moved_right(v).stacks == v.stacks,
        editing::jumped(v, off).stacks == v.stacks,
        editing::wheeled(v, down).stacks == v.stacks,
        editing::moved_down(v, n).dirty == v.dirty,
        editing::moved_up(v, n).dirty == v.dirty,
{
    lemma_steps_keep(v, true, n);
    lemma_steps_keep(v, false, n);
}

proof fn lemma_steps_keep(v: EditorView, down: bool, n: int)
    ensures
        editing::steps(v, down, n).bytes == v.bytes,
        editing::steps(v, down, n).stacks == v.stacks,
        editing::steps(v, down, n).dirty == v.dirty,
    decreases n,
{
    if n > 0 {
        if let Some(w) = editing::stepped(v, down) {
            lemma_steps_keep(w, down, n - 1);
        }
    }
}

/// Scrolling brings the cursor into view: its line is not above the first line
/// shown, and, where the text area has room for the margin, its row lies above
/// the margin or its line is the first one shown.
pub proof fn law_cursor_in_view(v: EditorView)
    requires
        v.line >= 0,
        v.scroll >= 0,
    ensures
        editing::in_view(v).scroll <= v.line,
        !v.wrap && v.height > editing::MARGIN ==> v.line + editing::MARGIN < editing::in_view(
            v,
        ).scroll + v.height,
        v.wrap && v.height > editing::MARGIN ==> editing::in_view(v).scroll == v.line
            || editing::cursor_row(v, editing::in_view(v).scroll) + editing::MARGIN < v.height,
{
    let top = if v.line < v.scroll {
        v.line
    } else {
        v.scroll
    };
    if v.wrap {
        lemma_first_shown(v, top);
    }
}

proof fn lemma_first_shown(v: EditorView, s: int)
    requires
        s <= v.line,
    ensures
        s <= editing::first_shown(v, s) <= v.line,
        v.height > editing::MARGIN ==> editing::first_shown(v, s) == v.line || editing::cursor_row(
            v,
            editing::first_shown(v, s),
        ) + editing::MARGIN < v.height,
    decreases v.line - s,
{
    if s < v.line && v.height > editing::MARGIN && editing::cursor_row(v, s) + editing::MARGIN
        >= v.height {
        lemma_first_shown(v, s + 1);
    }
}

/// One undo of `w` brings back the text of `v`, and its cursor where that lay in the
/// text of its line; nothing is unsaved then exactly if the text is the one on disk.
pub open spec fn brings_back(w: EditorView, v: EditorView) -> bool {
    let u = editing::undone(w);
    &&& u.bytes == v.bytes
    &&& on_text(v) ==> u.line == v.line && u.byte == v.byte
    &&& u.dirty == (v.saved != Some(persistence::content_hash(v.bytes)))
}

/// An undo right after an edit with an entry of its own brings back the text and
/// the cursor from before the edit.
pub proof fn law_one_undo(v: EditorView, w: EditorView)
    requires
        editing::state_ok(v),
        w.stacks == v.stacks.pushed(editing::snap_of(v)),
        w.saved == v.saved,
    ensures
        brings_back(w, v),
{
    positions::lemma_nearest_place(v.bytes, v.line, v.byte);
}

/// An undo right after an edit with an entry of its own brings back the text and
/// the cursor from before the edit, whatever was saved since.
pub proof fn law_undo_restores(v: EditorView, w: EditorView)
    requires
        editing::state_ok(v),
        on_text(v),
        w.stacks == v.stacks.pushed(editing::snap_of(v)),
    ensures
        editing::undone(w).bytes == v.bytes,
        editing::undone(w).line == v.line,
        editing::undone(w).byte == v.byte,
        editing::undone(w).dirty == (w.saved != Some(persistence::content_hash(v.bytes))),
{
    positions::lemma_nearest_place(v.bytes, v.line, v.byte);
}

/// What is typed outside a batch is taken back by one undo.
pub proof fn law_undo_takes_typing_back(v: EditorView, s: Seq<char>)
    requires
        editing::state_ok(v),
        on_text(v),
        editing::selection(v) is None,
        v.stacks.batch is None,
    ensures
        editing::undone(editing::typed(v, s)).bytes == v.bytes,
        editing::undone(editing::typed(v, s)).line == v.line,
        editing::undone(editing::typed(v, s)).byte == v.byte,
        editing::undone(editing::inserted(v, s)).bytes == v.bytes,
        editing::undone(editing::newline_typed(v)).bytes == v.bytes,
        editing::undone(editing::newline_typed(v)).line == v.line,
        editing::undone(editing::newline_typed(v)).byte == v.byte,
{
    positions::lemma_nearest_place(v.bytes, v.line, v.byte);
}

/// Letters typed one after the other are taken back together: a second insertion
/// of the same kind leaves the undo entry of the first on top.
pub proof fn law_typing_batches(v: EditorView, s: Seq<char>, t: Seq<char>)
    requires
        editing::selection(v) is None,
        !v.burst,
        editing::batch_kind(s) is Some,
        editing::batch_kind(t) == editing::batch_kind(s),
    ensures
        editing::typed(editing::typed(v, s), t).stacks == editing::typed(v, s).stacks,
{
}

/// A redo right after an undo brings the text and the cursor back.
pub proof fn law_redo_restores(v: EditorView)
    requires
        editing::state_ok(v),
        on_text(v),
        v.stacks.undo.len() > 0,
    ensures
        editing::redone(editing::undone(v)).bytes == v.bytes,
        editing::redone(editing::undone(v)).line == v.line,
        editing::redone(editing::undone(v)).byte == v.byte,
        editing::redone(editing::undone(v)).stacks.undo.drop_last() == v.stacks.undo.drop_last(),
        editing::redone(editing::undone(v)).stacks.undo.last().bytes == v.stacks.undo.last().bytes,
        editing::redone(editing::undone(v)).stacks.redo == v.stacks.redo,
{
    positions::lemma_nearest_place(v.bytes, v.line, v.byte);
    assert(editing::snap_ok(v.stacks.undo[v.stacks.undo.len() - 1]));
    let w = editing::undone(v);
    assert(w.stacks.redo.last() == editing::snap_of(v));
    assert(editing::redone(w).bytes == v.bytes);
    let cur = editing::snap_of(w);
    assert(w.stacks.redone(cur).redo =~= v.stacks.redo);
    assert(w.stacks.redone(cur).undo.drop_last() =~= v.stacks.undo.drop_last());
}

/// Undoing back to the text on disk clears the dirty mark.
pub proof fn law_undo_to_saved_is_clean(v: EditorView)
    requires
        v.stacks.undo.len() > 0,
        v.saved == Some(persistence::content_hash(v.stacks.undo.last().bytes)),
    ensures
        !editing::undone(v).dirty,
{
}

/// An edit leaves the text before and after the edited bytes as it was.
pub proof fn law_edit_is_local(v: EditorView, from: int, to: int, s: Seq<char>)
    requires
        0 <= from <= to <= v.bytes.len(),
    ensures
        editing::edited(v, from, to, s).bytes.len() == v.bytes.len() - (to - from) + encode_utf8(
            s,
        ).len(),
        editing::edited(v, from, to, s).bytes.subrange(0, from) == v.bytes.subrange(0, from),
        editing::edited(v, from, to, s).bytes.subrange(from, from + encode_utf8(s).len())
            == encode_utf8(s),
        editing::edited(v, from, to, s).bytes.subrange(
            from + encode_utf8(s).len(),
            editing::edited(v, from, to, s).bytes.len() as int,
        ) == v.bytes.subrange(to, v.bytes.len() as int),
{
    let b = editing::edited(v, from, to, s).bytes;
    assert(b.subrange(0, from) =~= v.bytes.subrange(0, from));
    assert(b.subrange(from, from + encode_utf8(s).len()) =~= encode_utf8(s));
    assert(b.subrange(from + encode_utf8(s).len(), b.len() as int) =~= v.bytes.subrange(
        to,
        v.bytes.len() as int,
    ));
}

/// Pressing Enter on a stamped delimiter stamps nothing: a delimiter line, with a
/// title or without, is stamped at most once.
pub proof fn law_stamped_once(title: Seq<char>, dt: DateTime)
    requires
        dt.wf(),
        title.len() > 0 || dt.date.has_iso_year(),
    ensures
        !editing::unstamped(editing::stamped(title, date::datetime_text(dt))),
{
    let stamp = date::datetime_text(dt);
    let s = editing::stamped(title, stamp);
    if title.len() > 0 {
        reveal_strlit(" | ");
        let i = "=== "@.len() + title.len() + 1;
        assert(s[i as int] == '|');
        assert(s.contains('|'));
    } else {
        reveal_strlit("===");
        reveal_strlit("=== ");
        lemma_stamp_is_dated(dt);
        let rest = s.subrange(3, s.len() as int);
        assert(rest =~= seq![' '] + stamp);
        assert(rest.drop_first() =~= stamp);
        reveal_with_fuel(words::trim_start, 2);
        assert(words::trim(rest) == stamp);
        assert(s.subrange(0, 3) =~= "==="@);
        assert(text::begins_with(s, "==="@));
        assert(editing::bare_title(s) == stamp);
    }
}

/// A printed date and time starts with the date and has no white space at its ends.
proof fn lemma_stamp_is_dated(dt: DateTime)
    requires
        dt.wf(),
        dt.date.has_iso_year(),
    ensures
        ({
            let s = date::datetime_text(dt);
            &&& delimiter::starts_with_date(s)
            &&& s.len() == 16
            &&& !words::is_white(s[0])
            &&& !words::is_white(s.last())
        }),
{
    reveal(date::date_text);
    let s = date::datetime_text(dt);
    let d = date::iso_date(dt.date);
    let t = date::iso_time(dt.time);
    assert(d.len() == 10 && t.len() == 5);
    assert(is_ascii_chars(s));
    is_ascii_chars_encode_utf8(s);
    date::law_date_round_trip(dt.date);
    assert(is_ascii_chars(d));
    is_ascii_chars_encode_utf8(d);
    let b = encode_utf8(s);
    assert forall|i: int| 0 <= i < 10 implies #[trigger] b[i] == encode_utf8(d)[i] by {
        assert(s[i] == d[i]);
    }
    assert(s[0] == words::digit_char(dt.date.year / 1000 % 10));
    assert(s[15] == t[4]);
    assert(t[4] == words::digit_char(dt.time.minute as int % 10));
}

/// The selection is a range of the text between characters, one of its ends at
/// the cursor.
pub proof fn law_selection_in_text(v: EditorView)
    requires
        editing::state_ok(v),
        editing::selection(v) is Some,
    ensures
        ({
            let (a, b) = editing::selection(v)->Some_0;
            &&& 0 <= a < b <= v.bytes.len()
            &&& text::on_boundary(v.bytes, a)
            &&& text::on_boundary(v.bytes, b)
            &&& a == editing::cursor(v) || b == editing::cursor(v)
        }),
{
    spans::lemma_line_starts(v.bytes);
}

/// Typing always edits: where nothing is selected the text goes in at the cursor, also
/// where a selection was begun and is empty.
pub proof fn law_typing_edits(v: EditorView, s: Seq<char>)
    requires
        editing::selection(v) is None,
    ensures
        editing::typed(v, s).bytes == editing::spliced(
            v.bytes,
            editing::cursor(v),
            editing::cursor(v),
            s,
        ),
        editing::typed(v, s).line == v.line,
        editing::typed(v, s).byte == v.byte + encode_utf8(s).len(),
        editing::typed(v, s).anchor is None,
        editing::typed(v, s).dirty,
{
}

/// Typing over a selection removes it and leaves none.
pub proof fn law_typing_replaces_selection(v: EditorView, s: Seq<char>)
    requires
        editing::selection(v) is Some,
    ensures
        editing::typed(v, s).bytes == editing::spliced(
            v.bytes,
            editing::selection(v)->Some_0.0,
            editing::selection(v)->Some_0.1,
            s,
        ),
        editing::typed(v, s).anchor is None,
        editing::typed(v, s).dirty,
{
}

/// Typing, breaking the line or pasting over a selection is one undo entry: an undo
/// brings text and cursor back.
pub proof fn law_replacing_is_one_undo(v: EditorView, s: Seq<char>)
    requires
        editing::state_ok(v),
        editing::selection(v) is Some,
    ensures
        brings_back(editing::typed(v, s), v),
        brings_back(editing::newline_typed(v), v),
        brings_back(editing::pasted(v, s), v),
        brings_back(editing::replaced(v, s), v),
{
    law_one_undo(v, editing::typed(v, s));
    law_one_undo(v, editing::newline_typed(v));
    law_one_undo(v, editing::pasted(v, s));
}

/// What is pasted is taken back by one undo, however long it is.
pub proof fn law_paste_is_one_undo(v: EditorView, s: Seq<char>)
    requires
        editing::state_ok(v),
        editing::selection(v) is None,
    ensures
        brings_back(editing::pasted(v, s), v),
{
    law_one_undo(v, editing::pasted(v, s));
}

/// The mouse wheel scrolls the text and leaves the cursor where it is.
pub proof fn law_wheel_keeps_cursor(v: EditorView, down: bool)
    ensures
        editing::wheeled(v, down).line == v.line,
        editing::wheeled(v, down).byte == v.byte,
        editing::wheeled(v, down).anchor == v.anchor,
{
}

/// Enter keeps the line endings of a file: it inserts the ending that the file uses.
pub proof fn law_enter_keeps_line_ending(v: EditorView)
    requires
        editing::selection(v) is None,
    ensures
        persistence::has_crlf(decode_utf8(v.bytes)) ==> editing::newline_typed(v).bytes
            == editing::spliced(v.bytes, editing::cursor(v), editing::cursor(v), "\r\n"@),
        !persistence::has_crlf(decode_utf8(v.bytes)) ==> editing::newline_typed(v).bytes
            == editing::spliced(v.bytes, editing::cursor(v), editing::cursor(v), "\n"@),
{
}

/// A file that is opened again where it was left has its text and its cursor back, and
/// nothing unsaved.
pub proof fn law_reopening_restores(v: EditorView, e: EditorView)
    requires
        editing::state_ok(e),
        on_text(e),
    ensures
        ({
            let w = editing::opened(v, decode_utf8(e.bytes), Some((e.line, e.byte)));
            &&& w.bytes == e.bytes
            &&& w.line == e.line
            &&& w.byte == e.byte
            &&& !w.dirty
        }),
{
    decode_utf8_encode_utf8(e.bytes);
    positions::lemma_nearest_place(e.bytes, e.line, e.byte);
}

} // verus!
