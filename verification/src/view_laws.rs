//! Scrolling, input lines, what typing takes back together, pasted lines, places in a
//! changed text, file names and the rows of a filter, said in numbers and characters.

use vstd::prelude::*;
use vstd::utf8::*;

use crate::ai;
use crate::ai_panel;
use crate::app_rules;
use crate::editing;
use crate::editing::EditorView;
use crate::filter_panel;
use crate::filter_panel::RowText;
use crate::input::InputView;
use crate::key_laws::replaced;
use crate::persistence;
use crate::persistence::{ConflictStatus, FileSnapshot, Mtime};
use crate::positions;
use crate::spans;
use crate::spans::Span;
use crate::style;
use crate::style::SpanView;
use crate::text;
use crate::words;
use crate::wrap;

verus! {

// ---------------------------------------------------------------------------
// Scrolling
// ---------------------------------------------------------------------------

/// Without wrapping, the view stays where it is while the cursor keeps three rows from its
/// lower edge; otherwise it moves just as far as is needed.
pub proof fn law_least_scroll(v: EditorView)
    requires
        !v.wrap,
        v.height > 3,
        v.line >= 0,
        v.scroll >= 0,
    ensures
        v.scroll <= v.line < v.scroll + v.height - 3 ==> editing::in_view(v).scroll == v.scroll,
        v.line < v.scroll ==> editing::in_view(v).scroll == v.line,
        v.line >= v.scroll + v.height - 3 ==> editing::in_view(v).scroll == v.line - v.height + 4,
        editing::in_view(v).line == v.line,
        editing::in_view(v).byte == v.byte,
        editing::in_view(v).bytes == v.bytes,
{
}

proof fn lemma_first_shown(v: EditorView, s: int)
    requires
        s <= v.line,
    ensures
        s <= editing::first_shown(v, s) <= v.line,
        forall|k: int|
            s <= k < editing::first_shown(v, s) ==> #[trigger] editing::cursor_row(v, k) + 3
                >= v.height,
    decreases v.line - s,
{
    if s < v.line && v.height > 3 && editing::cursor_row(v, s) + 3 >= v.height {
        lemma_first_shown(v, s + 1);
    }
}

/// With wrapping, no line that could stay in view is scrolled out: with any line before the
/// first one shown the cursor's row would be too low.
pub proof fn law_least_scroll_by_rows(v: EditorView, k: int)
    requires
        v.wrap,
        v.scroll <= k < editing::in_view(v).scroll,
        v.scroll <= v.line,
    ensures
        editing::cursor_row(v, k) + 3 >= v.height,
{
    lemma_first_shown(v, v.scroll);
}

/// The wheel moves the view by three lines, as far as there are lines.
pub proof fn law_wheel(v: EditorView)
    requires
        0 <= v.scroll < spans::line_starts(v.bytes).len(),
    ensures
        ({
            let n = spans::line_starts(v.bytes).len();
            let d = editing::wheeled(v, true);
            let u = editing::wheeled(v, false);
            &&& v.scroll + 3 < n ==> d.scroll == v.scroll + 3
            &&& v.scroll + 3 >= n ==> d.scroll == n - 1
            &&& v.scroll >= 3 ==> u.scroll == v.scroll - 3
            &&& v.scroll < 3 ==> u.scroll == 0
            &&& d == (EditorView { scroll: d.scroll, ..v })
            &&& u == (EditorView { scroll: u.scroll, ..v })
        }),
{
}

// ---------------------------------------------------------------------------
// Input lines
// ---------------------------------------------------------------------------

/// A character goes in where the cursor is and moves what follows; Backspace takes the one
/// before the cursor out; the other keys only move the cursor.
pub proof fn law_input_line(v: InputView, c: char)
    requires
        0 <= v.at <= v.chars.len(),
    ensures
        ({
            let t = v.inserted(seq![c]);
            &&& t.at == v.at + 1
            &&& t.chars.len() == v.chars.len() + 1
            &&& t.chars[v.at] == c
            &&& forall|k: int| 0 <= k < v.at ==> #[trigger] t.chars[k] == v.chars[k]
            &&& forall|k: int| v.at < k < t.chars.len() ==> #[trigger] t.chars[k] == v.chars[k - 1]
        }),
        v.at > 0 ==> ({
            let t = v.backspaced();
            &&& t.at == v.at - 1
            &&& t.chars.len() == v.chars.len() - 1
            &&& forall|k: int| 0 <= k < v.at - 1 ==> #[trigger] t.chars[k] == v.chars[k]
            &&& forall|k: int|
                v.at - 1 <= k < t.chars.len() ==> #[trigger] t.chars[k] == v.chars[k + 1]
        }),
        v.at == 0 ==> v.backspaced() == v,
        v.moved_left().chars == v.chars && v.moved_right().chars == v.chars
            && v.moved_home().chars == v.chars && v.moved_end().chars == v.chars,
        v.at > 0 ==> v.moved_left().at == v.at - 1,
        v.at == 0 ==> v.moved_left().at == 0,
        v.at < v.chars.len() ==> v.moved_right().at == v.at + 1,
        v.at == v.chars.len() ==> v.moved_right().at == v.at,
        v.moved_home().at == 0,
        v.moved_end().at == v.chars.len(),
{
}

// ---------------------------------------------------------------------------
// Typing
// ---------------------------------------------------------------------------

/// An ASCII letter or digit, or `_`.
pub open spec fn word_char(c: char) -> bool {
    ('a' <= c <= 'z') || ('A' <= c <= 'Z') || ('0' <= c <= '9') || c == '_'
}

/// A word typed letter by letter is one step of undo, blanks typed one after the other
/// are another, and a blank behind a word, a letter behind a blank and every punctuation
/// mark start a step of their own.
pub proof fn law_undo_by_words(v: EditorView, a: char, b: char)
    requires
        editing::selection(v) is None,
        !v.burst,
        v.anchor is None,
        v.stacks.undo.len() + 2 <= crate::history::MAX_ENTRIES,
    ensures
        ({
            let one = editing::typed(v, seq![a]);
            let two = editing::typed(one, seq![b]);
            let blank = |c: char| c == ' ' || c == '\t';
            let mark = |c: char|
                c == '.' || c == ',' || c == '!' || c == '?' || c == '#' || c == '*' || c == '-';
            &&& word_char(a) && word_char(b) ==> two.stacks.undo == one.stacks.undo
            &&& blank(a) && blank(b) ==> two.stacks.undo == one.stacks.undo
            &&& (word_char(a) && blank(b)) || (blank(a) && word_char(b)) || (word_char(a) && mark(
                b,
            )) || mark(a) ==> two.stacks.undo.len() == one.stacks.undo.len() + 1
                && two.stacks.undo.last().bytes == one.bytes
        }),
{
    assert(seq![a][0] == a);
    assert(seq![b][0] == b);
}

/// Pasted into an input, every line break becomes a space, and the white space around the
/// text goes.
pub proof fn law_pasted_line(s: Seq<char>, k: int)
    requires
        0 <= k < s.len(),
    ensures
        app_rules::unbroken(s).len() == s.len(),
        app_rules::unbroken(s)[k] == if s[k] == '\n' || s[k] == '\r' {
            ' '
        } else {
            s[k]
        },
        app_rules::one_line(s) == words::trim(app_rules::unbroken(s)),
{
}

/// An accepted reply takes the place of the range it was asked for, and the cursor goes to
/// its start.
pub proof fn law_accepted_reply(e: EditorView, range: Span, reply: Seq<char>)
    requires
        range.lies_in(e.bytes),
    ensures
        ai_panel::accepted(e, range, reply).bytes == replaced(
            e.bytes,
            range.start as int,
            range.end as int,
            encode_utf8(reply),
        ),
        editing::cursor(ai_panel::accepted(e, range, reply)) == range.start,
{
    let w = ai_panel::accepted(e, range, reply);
    positions::lemma_line_at(w.bytes, range.start as int);
}

// ---------------------------------------------------------------------------
// Places
// ---------------------------------------------------------------------------

proof fn lemma_prev(b: Seq<u8>, i: int)
    requires
        i > 0,
        text::on_boundary(b, 0),
    ensures
        0 <= positions::prev_bound(b, i) < i,
        text::on_boundary(b, positions::prev_bound(b, i)),
        forall|k: int|
            positions::prev_bound(b, i) < k < i ==> !#[trigger] text::on_boundary(b, k),
    decreases i,
{
    if i > 1 && !text::on_boundary(b, i - 1) {
        lemma_prev(b, i - 1);
    }
}

/// A place that a changed text does not have becomes the nearest one before it: on the last
/// line at most, within the text of the line, and not inside a character.
pub proof fn law_nearest_place(b: Seq<u8>, line: int, byte: int)
    requires
        valid_utf8(b),
        spans::line_starts(b).len() > 0,
        line >= 0,
        byte >= 0,
    ensures
        ({
            let (l, p) = positions::nearest_place(b, line, byte);
            let t = wrap::line_of(b, l);
            let n = text::content_len(t);
            &&& l == if line < spans::line_starts(b).len() {
                line
            } else {
                spans::line_starts(b).len() - 1
            }
            &&& 0 <= p <= n && p <= byte
            &&& text::on_boundary(t, p)
            &&& forall|k: int| p < k <= n && k <= byte ==> !#[trigger] text::on_boundary(t, k)
        }),
{
    let (l, p) = positions::nearest_place(b, line, byte);
    let t = wrap::line_of(b, l);
    wrap::lemma_line_valid(b, l);
    text::lemma_content_len(t);
    text::lemma_boundary_ends(decode_utf8(t));
    let n = text::content_len(t);
    let at = if byte < n {
        byte
    } else {
        n
    };
    if !text::on_boundary(t, at) {
        lemma_prev(t, at);
    }
}

// ---------------------------------------------------------------------------
// Files
// ---------------------------------------------------------------------------

proof fn lemma_last_dot(name: Seq<char>, n: int, i: int)
    requires
        1 <= i < n <= name.len(),
        name[i] == '.',
        forall|k: int| i < k < n ==> #[trigger] name[k] != '.',
    ensures
        persistence::last_dot(name, n) == Some(i),
    decreases n,
{
    if n - 1 > i {
        assert(name[n - 1] != '.');
        lemma_last_dot(name, n - 1, i);
    }
}

proof fn lemma_no_dot(name: Seq<char>, n: int)
    requires
        n <= name.len(),
        forall|k: int| 1 <= k < n ==> #[trigger] name[k] != '.',
    ensures
        persistence::last_dot(name, n) is None,
    decreases n,
{
    if n > 1 {
        assert(name[n - 1] != '.');
        lemma_no_dot(name, n - 1);
    }
}

/// A file name without its extension ends before its last dot; a dot in front begins no
/// extension.
pub proof fn law_stem(base: Seq<char>, ext: Seq<char>)
    requires
        base.len() > 0,
        !ext.contains('.'),
    ensures
        persistence::stem(base + seq!['.'] + ext) == base,
        persistence::stem(ext) == ext,
        persistence::stem(seq!['.'] + ext) == seq!['.'] + ext,
{
    let name = base + seq!['.'] + ext;
    let i = base.len() as int;
    assert forall|k: int| i < k < name.len() implies #[trigger] name[k] != '.' by {
        assert(name[k] == ext[k - i - 1]);
        assert(ext.contains(ext[k - i - 1]));
    }
    lemma_last_dot(name, name.len() as int, i);
    assert(name.subrange(0, i) =~= base);
    assert forall|k: int| 1 <= k < ext.len() implies #[trigger] ext[k] != '.' by {
        assert(ext.contains(ext[k]));
    }
    lemma_no_dot(ext, ext.len() as int);
    let hidden = seq!['.'] + ext;
    assert forall|k: int| 1 <= k < hidden.len() implies #[trigger] hidden[k] != '.' by {
        assert(hidden[k] == ext[k - 1]);
        assert(ext.contains(ext[k - 1]));
    }
    lemma_no_dot(hidden, hidden.len() as int);
}

/// A file that was touched and reads differently has changed; one that is gone is missing;
/// one that was not touched is taken as it was.
pub proof fn law_change_is_seen(snap: FileSnapshot, later: Mtime, content: Seq<u8>)
    ensures
        snap.status(None, content) == ConflictStatus::Missing,
        later == snap.mtime ==> snap.status(Some(later), content) == ConflictStatus::Clean,
        later != snap.mtime && persistence::content_hash(content) != snap.hash ==> snap.status(
            Some(later),
            content,
        ) == ConflictStatus::Changed,
        later != snap.mtime && persistence::content_hash(content) == snap.hash ==> snap.status(
            Some(later),
            content,
        ) == ConflictStatus::Clean,
{
}

/// Slashes at the end of an address do not count.
pub proof fn law_without_slashes(base: Seq<char>, slashes: Seq<char>)
    requires
        base.len() == 0 || base.last() != '/',
        forall|k: int| 0 <= k < slashes.len() ==> #[trigger] slashes[k] == '/',
    ensures
        ai::without_slashes(base + slashes) == base,
    decreases slashes.len(),
{
    let s = base + slashes;
    if slashes.len() > 0 {
        assert(s.last() == slashes.last());
        assert(s.drop_last() =~= base + slashes.drop_last());
        assert forall|k: int| 0 <= k < slashes.drop_last().len() implies #[trigger] slashes.drop_last()[k]
            == '/' by {
            assert(slashes.drop_last()[k] == slashes[k]);
        }
        law_without_slashes(base, slashes.drop_last());
    } else {
        assert(s =~= base);
    }
}

// ---------------------------------------------------------------------------
// Rows
// ---------------------------------------------------------------------------

/// `s` with two spaces behind it, if there is any.
pub open spec fn column_text(s: Seq<char>) -> Seq<char> {
    if s.len() == 0 {
        s
    } else {
        s + seq![' ', ' ']
    }
}

proof fn lemma_two(a: SpanView, b: SpanView)
    ensures
        style::text_of(seq![a, b]) == a.text + b.text,
{
    style::lemma_text_of_one(a);
    style::lemma_text_of_one(b);
    style::lemma_text_of_concat(seq![a], seq![b]);
    assert(seq![a] + seq![b] =~= seq![a, b]);
}

/// The row of a match reads: a mark if it is selected, the date, and the title, the tags and
/// the snippet, those there are, two spaces between.
pub proof fn law_match_row(t: RowText, selected: bool)
    ensures
        style::text_of(filter_panel::match_row(t, selected)) == (if selected {
            seq!['\u{25b8}', ' ']
        } else {
            seq![' ', ' ']
        }) + t.date + seq![' ', ' '] + column_text(t.title) + column_text(t.tags) + t.snippet,
{
    reveal_strlit("\u{25b8} ");
    reveal_strlit("  ");
    assert("\u{25b8} "@ =~= seq!['\u{25b8}', ' ']);
    assert("  "@ =~= seq![' ', ' ']);
    let row = filter_panel::match_row(t, selected);
    let base = filter_panel::row_base(selected);
    let mark = if selected {
        "\u{25b8} "@
    } else {
        "  "@
    };
    let a = style::run(mark, base);
    let b = style::run(t.date, base.spec_fg(crate::style::Color::Cyan));
    let gap = style::run("  "@, base);
    let none = Seq::<SpanView>::empty();
    assert(style::text_of(none) =~= Seq::<char>::empty());
    let title = if t.title.len() > 0 {
        seq![style::run(t.title, base.spec_bold()), gap]
    } else {
        none
    };
    let tags = if t.tags.len() > 0 {
        seq![style::run(t.tags, base.spec_fg(crate::style::Color::LightCyan)), gap]
    } else {
        none
    };
    let dim = style::run(t.snippet, base.spec_fg(crate::style::Color::Gray).spec_dim());
    let last = if t.snippet.len() > 0 {
        seq![dim]
    } else {
        none
    };
    lemma_two(a, b);
    style::lemma_text_of_one(gap);
    style::lemma_text_of_one(dim);
    style::lemma_text_of_concat(seq![a, b], seq![gap]);
    assert(seq![a, b] + seq![gap] =~= seq![a, b, gap]);
    lemma_two(style::run(t.title, base.spec_bold()), gap);
    lemma_two(style::run(t.tags, base.spec_fg(crate::style::Color::LightCyan)), gap);
    style::lemma_text_of_concat(seq![a, b, gap], title);
    style::lemma_text_of_concat(seq![a, b, gap] + title, tags);
    style::lemma_text_of_concat(seq![a, b, gap] + title + tags, last);
    assert(row =~= seq![a, b, gap] + title + tags + last);
    assert(style::text_of(title) =~= column_text(t.title));
    assert(style::text_of(tags) =~= column_text(t.tags));
    assert(style::text_of(last) =~= t.snippet);
}

/// Padding adds spaces on one side, up to the width.
pub proof fn law_padding(s: Seq<char>, w: int)
    ensures
        ({
            let l = words::pad_left(s, w);
            let r = words::pad_right(s, w);
            let n = if s.len() < w {
                w
            } else {
                s.len() as int
            };
            &&& l.len() == n && r.len() == n
            &&& l.subrange(n - s.len(), n) == s
            &&& r.subrange(0, s.len() as int) == s
            &&& forall|k: int| 0 <= k < n - s.len() ==> #[trigger] l[k] == ' '
            &&& forall|k: int| s.len() <= k < n ==> #[trigger] r[k] == ' '
        }),
{
    let l = words::pad_left(s, w);
    let r = words::pad_right(s, w);
    assert(l.subrange(l.len() - s.len(), l.len() as int) =~= s);
    assert(r.subrange(0, s.len() as int) =~= s);
}

} // verus!
