//! The todo overlay: the todos of the file, picked and toggled over the editor.

use vstd::prelude::*;
use vstd::slice::slice_subrange;
use vstd::utf8::*;

use crate::buffer::TextBuffer;
use crate::commands;
use crate::editing;
use crate::editing::EditorView;
use crate::editor::Editor;
use crate::editor_laws;
use crate::index::FileIndex;
use crate::keys::{Key, KeyCode};
use crate::note_laws;
use crate::parser;
use crate::positions;
use crate::spans;
use crate::spans::{Span, TodoKind, TodoSpan, TodoState};
use crate::style;
use crate::style::{Color, SpanView, Style, StyledLine};
use crate::text;
use crate::toggle_laws;
use crate::words;
use crate::wrap;

verus! {

#[derive(Debug, Clone, Copy, PartialEq, Eq, Structural)]
pub enum TodoItemKind {
    /// `TODO:` / `DONE:`
    Prefix,
    /// `- [ ]` / `- [x]`
    Checkbox,
}

/// A todo of the file.
#[derive(Debug)]
pub struct TodoItem {
    pub line: usize,
    pub text: String,
    pub is_done: bool,
    pub kind: TodoItemKind,
}

#[verifier::ext_equal]
pub struct ItemView {
    pub line: int,
    pub text: Seq<char>,
    pub done: bool,
    pub kind: TodoItemKind,
}

impl View for TodoItem {
    type V = ItemView;

    open spec fn view(&self) -> ItemView {
        ItemView { line: self.line as int, text: self.text@, done: self.is_done, kind: self.kind }
    }
}

pub open spec fn items_view(v: Seq<TodoItem>) -> Seq<ItemView> {
    v.map_values(|t: TodoItem| t@)
}

// ---------------------------------------------------------------------------
// Collecting
// ---------------------------------------------------------------------------

pub open spec fn kind_of(kind: TodoKind) -> TodoItemKind {
    match kind {
        TodoKind::Prefix => TodoItemKind::Prefix,
        TodoKind::Checkbox => TodoItemKind::Checkbox,
    }
}

/// The marker of a todo line of the overlay: one that the parser knows, or a box
/// checked with a capital.
pub open spec fn marker_on(line: Seq<u8>) -> Option<(TodoKind, TodoState)> {
    match parser::todo_marker(line) {
        Some(m) => Some(m),
        None => if text::occurs_at(line, parser::skip_blanks(line, 0), encode_utf8("- [X]"@)) {
            Some((TodoKind::Checkbox, TodoState::Done))
        } else {
            None
        },
    }
}

/// The todo on the line `line`, which starts at offset `p` of `b`.
pub open spec fn item_on(b: Seq<u8>, p: int, line: Seq<u8>) -> Option<ItemView> {
    match marker_on(line) {
        Some((kind, state)) => Some(
            ItemView {
                line: positions::line_at(b, p),
                text: words::trim_start(
                    decode_utf8(line.subrange(parser::task_start(line), text::content_len(line))),
                ),
                done: state is Done,
                kind: kind_of(kind),
            },
        ),
        None => None,
    }
}

/// The todos of the lines of `b[p..end]` in turn, lines in fenced code skipped.
pub open spec fn body_items(b: Seq<u8>, p: int, end: int, fenced: bool) -> Seq<ItemView>
    decreases end - p,
{
    if p < 0 || p >= end || end > b.len() {
        Seq::empty()
    } else {
        let q = parser::line_after(b, p, end);
        let line = b.subrange(p, q);
        proof {
            text::lemma_find_first(b, p, end, 10);
        }
        if parser::fence(line) {
            body_items(b, q, end, !fenced)
        } else if fenced {
            body_items(b, q, end, fenced)
        } else {
            match item_on(b, p, line) {
                Some(t) => seq![t] + body_items(b, q, end, fenced),
                None => body_items(b, q, end, fenced),
            }
        }
    }
}

/// The todos of the first `n` notes.
pub open spec fn items_upto(b: Seq<u8>, n: int) -> Seq<ItemView>
    decreases n,
{
    if n <= 0 {
        Seq::empty()
    } else {
        let body = parser::notes_of(b)[n - 1].body;
        items_upto(b, n - 1) + body_items(b, body.start as int, body.end as int, false)
    }
}

/// The todos of a file: those that the parser finds, and boxes checked with a
/// capital.
#[verifier::opaque]
pub open spec fn items_in(b: Seq<u8>) -> Seq<ItemView> {
    items_upto(b, parser::notes_of(b).len() as int)
}

/// A todo of state and kind of `t` stands on the line of `t`.
pub open spec fn stands(b: Seq<u8>, t: ItemView) -> bool {
    &&& 0 <= t.line < spans::line_starts(b).len()
    &&& marker_on(wrap::line_of(b, t.line)) matches Some((kind, state))
    &&& kind_of(kind) == t.kind
    &&& (state is Done) == t.done
}

/// A marker is followed by the task, which ends before the line ending.
proof fn lemma_marker_shape(line: Seq<u8>)
    requires
        marker_on(line) is Some,
    ensures
        ({
            let p = parser::skip_blanks(line, 0);
            let m = line.subrange(p, p + 5);
            &&& 0 <= p && p + 5 <= line.len()
            &&& m == encode_utf8("- [ ]"@) || m == encode_utf8("- [x]"@) || m == encode_utf8(
                "- [X]"@,
            ) || m == encode_utf8("TODO:"@) || m == encode_utf8("DONE:"@)
            &&& 0 < parser::task_start(line) <= text::content_len(line) <= line.len()
            &&& line[parser::task_start(line) - 1] < 0x80
        }),
{
    parser::lemma_markers();
    parser::lemma_skip_blanks(line, 0);
    text::lemma_content_len(line);
    let p = parser::skip_blanks(line, 0);
    assert(line.subrange(p, p + 5)[4] == line[p + 4]);
    assert(line[p + 4] == 93 || line[p + 4] == 58);
    if text::content_len(line) < parser::task_start(line) {
        assert(text::is_newline(line[parser::task_start(line) - 1]));
    }
}

fn read_item(buffer: &TextBuffer, from: usize, to: usize) -> (r: Option<TodoItem>)
    requires
        buffer.wf(),
        (Span { start: from, end: to }).lies_in(buffer.bytes()),
    ensures
        match (
            r,
            item_on(
                buffer.bytes(),
                from as int,
                buffer.bytes().subrange(from as int, to as int),
            ),
        ) {
            (Some(a), Some(b)) => a@ == b,
            (None, None) => true,
            _ => false,
        },
{
    let line = buffer.span_text(Span::new(from, to));
    let b = line.as_bytes();
    let p = parser::leading_whitespace(b);
    let (kind, is_done) = if text::bytes_at(b, p, "- [ ]".as_bytes()) {
        (TodoItemKind::Checkbox, false)
    } else if text::bytes_at(b, p, "- [x]".as_bytes()) {
        (TodoItemKind::Checkbox, true)
    } else if text::bytes_at(b, p, "TODO:".as_bytes()) {
        (TodoItemKind::Prefix, false)
    } else if text::bytes_at(b, p, "DONE:".as_bytes()) {
        (TodoItemKind::Prefix, true)
    } else if text::bytes_at(b, p, "- [X]".as_bytes()) {
        (TodoItemKind::Checkbox, true)
    } else {
        return None;
    };
    proof {
        lemma_marker_shape(b@);
    }
    let start = if p + 5 < b.len() && b[p + 5] == 32u8 {
        p + 6
    } else {
        p + 5
    };
    let end = text::content_length(b);
    proof {
        encode_utf8_valid_utf8(line@);
        text::lemma_after_ascii(b@, start - 1);
        text::lemma_boundary_ends(line@);
        text::lemma_content_len(b@);
        if end < b@.len() {
            assert(text::is_newline(b@[end as int]));
            text::lemma_after_ascii(b@, end as int);
        }
    }
    let task = text::slice(line, start, end);
    proof {
        encode_utf8_decode_utf8(task@);
    }
    let (l, _byte) = positions::locate(buffer, from);
    Some(
        TodoItem { line: l, text: words::trimmed_start(task).to_owned(), is_done, kind },
    )
}

/// Add the todos of the body of a note.
fn collect_body(buffer: &TextBuffer, body: Span, items: &mut Vec<TodoItem>)
    requires
        buffer.wf(),
        body.lies_in(buffer.bytes()),
    ensures
        items_view(final(items)@) == items_view(old(items)@) + body_items(
            buffer.bytes(),
            body.start as int,
            body.end as int,
            false,
        ),
{
    let b = buffer.as_str().as_bytes();
    let end = body.end;
    let ghost all = items_view(items@) + body_items(b@, body.start as int, end as int, false);
    let mut fenced = false;
    let mut pos: usize = body.start;
    while pos < end
        invariant
            pos <= end <= b.len(),
            buffer.wf(),
            b@ == buffer.bytes(),
            b@ == encode_utf8(buffer@),
            text::on_boundary(b@, pos as int),
            text::on_boundary(b@, end as int),
            items_view(items@) + body_items(b@, pos as int, end as int, fenced) == all,
        decreases end - pos,
    {
        let q = match text::find_byte(b, pos, end, 10u8) {
            Some(i) => i + 1,
            None => end,
        };
        proof {
            encode_utf8_valid_utf8(buffer@);
            text::lemma_find_first(b@, pos as int, end as int, 10);
            if text::find_first(b@, pos as int, end as int, 10) is Some {
                text::lemma_after_ascii(b@, q - 1);
            }
        }
        if parser::is_fence_line(slice_subrange(b, pos, q)) {
            fenced = !fenced;
        } else if !fenced {
            let ghost before = items_view(items@);
            let ghost rest = body_items(b@, q as int, end as int, fenced);
            if let Some(item) = read_item(buffer, pos, q) {
                items.push(item);
                proof {
                    assert(items_view(items@) =~= before.push(item@));
                    assert(items_view(items@) + rest =~= before + (seq![item@] + rest));
                }
            }
        }
        pos = q;
    }
    proof {
        assert(items_view(items@) =~= all);
    }
}

/// Return a `TodoItem` for each todo in `buffer`.
pub fn collect_todos(buffer: &TextBuffer) -> (r: Vec<TodoItem>)
    requires
        buffer.wf(),
    ensures
        items_view(r@) == items_in(buffer.bytes()),
{
    let index = FileIndex::build(buffer);
    let ghost b = buffer.bytes();
    let _n = buffer.len();
    let mut items: Vec<TodoItem> = Vec::new();
    let mut i: usize = 0;
    proof {
        assert(items_view(items@) =~= items_upto(b, 0));
    }
    while i < index.result.notes.len()
        invariant
            i <= index.result.notes.len(),
            buffer.wf(),
            b == buffer.bytes(),
            b.len() <= usize::MAX,
            index.result.notes@ == parser::notes_of(b),
            items_view(items@) == items_upto(b, i as int),
        decreases index.result.notes.len() - i,
    {
        proof {
            note_laws::law_note_spans_lie_in_file(buffer@, i as int);
        }
        collect_body(buffer, index.result.notes[i].body, &mut items);
        i += 1;
    }
    proof {
        reveal(items_in);
    }
    items
}

/// The line that starts at `o` reaches to the next newline.
proof fn lemma_line_from(b: Seq<u8>, o: int)
    requires
        0 <= o < b.len(),
        o == 0 || b[o - 1] == 10,
    ensures
        ({
            let l = positions::line_at(b, o);
            &&& 0 <= l < spans::line_starts(b).len()
            &&& spans::line_starts(b)[l] == o
            &&& wrap::line_of(b, l) == b.subrange(o, parser::line_after(b, o, b.len() as int))
        }),
{
    let st = spans::line_starts(b);
    let n = b.len() as int;
    let l = positions::line_at(b, o);
    positions::lemma_line_at(b, o);
    spans::lemma_line_starts(b);
    text::lemma_find_first(b, o, n, 10);
    if o > 0 {
        assert(st.contains(o - 1 + 1));
        let k = choose|k: int| 0 <= k < st.len() && st[k] == o;
        if k < l {
            assert(st[k] < st[l]);
        } else if l < k {
            assert(st[l + 1] <= st[k]);
        }
    }
    match text::find_first(b, o, n, 10) {
        Some(i) => {
            assert(st.contains(i + 1));
            let k = choose|k: int| 0 <= k < st.len() && st[k] == i + 1;
            if k <= l {
                assert(st[k] <= st[l]);
            }
            assert(st[l + 1] <= st[k]);
            assert(b[st[l + 1] - 1] == 10);
        },
        None => {
            if l + 1 < st.len() {
                assert(b[st[l + 1] - 1] == 10);
            }
        },
    }
}

/// A line of a body is a line of the file.
proof fn lemma_body_line(b: Seq<u8>, p: int, end: int)
    requires
        0 <= p < end <= b.len(),
        p == 0 || b[p - 1] == 10,
        end == b.len() || b[end - 1] == 10,
    ensures
        ({
            let l = positions::line_at(b, p);
            &&& 0 <= l < spans::line_starts(b).len()
            &&& wrap::line_of(b, l) == b.subrange(p, parser::line_after(b, p, end))
        }),
{
    let n = b.len() as int;
    text::lemma_find_first(b, p, end, 10);
    text::lemma_find_first(b, p, n, 10);
    assert(parser::line_after(b, p, end) == parser::line_after(b, p, n)) by {
        if end < n {
            assert(b[end - 1] == 10);
        }
    }
    lemma_line_from(b, p);
}

/// The todos of a body stand on their lines.
proof fn lemma_body_items(b: Seq<u8>, p: int, end: int, fenced: bool)
    requires
        0 <= p <= end <= b.len(),
        p == 0 || p == b.len() || b[p - 1] == 10,
        end == b.len() || b[end - 1] == 10,
    ensures
        forall|k: int|
            0 <= k < body_items(b, p, end, fenced).len() ==> stands(
                b,
                #[trigger] body_items(b, p, end, fenced)[k],
            ),
    decreases end - p,
{
    if p < end {
        text::lemma_find_first(b, p, end, 10);
        let q = parser::line_after(b, p, end);
        lemma_body_line(b, p, end);
        lemma_body_items(b, q, end, fenced);
        lemma_body_items(b, q, end, !fenced);
        let line = b.subrange(p, q);
        let all = body_items(b, p, end, fenced);
        let rest = body_items(b, q, end, fenced);
        if parser::fence(line) {
            assert(all == body_items(b, q, end, !fenced));
        } else if fenced || item_on(b, p, line) is None {
            assert(all == rest);
        } else {
            assert(all == seq![item_on(b, p, line)->Some_0] + rest);
            assert forall|k: int| 0 <= k < all.len() implies stands(b, #[trigger] all[k]) by {
                if k > 0 {
                    assert(all[k] == rest[k - 1]);
                }
            }
        }
    }
}

proof fn lemma_items_upto(b: Seq<u8>, n: int)
    requires
        b.len() <= usize::MAX,
        0 <= n <= parser::notes_of(b).len(),
    ensures
        forall|k: int|
            0 <= k < items_upto(b, n).len() ==> stands(b, #[trigger] items_upto(b, n)[k]),
    decreases n,
{
    if n > 0 {
        lemma_items_upto(b, n - 1);
        toggle_laws::lemma_body_lines(b, n - 1);
        let body = parser::notes_of(b)[n - 1].body;
        lemma_body_items(b, body.start as int, body.end as int, false);
        let front = items_upto(b, n - 1);
        let here = body_items(b, body.start as int, body.end as int, false);
        let all = items_upto(b, n);
        assert forall|k: int| 0 <= k < all.len() implies stands(b, #[trigger] all[k]) by {
            if k < front.len() {
                assert(all[k] == front[k]);
            } else {
                assert(all[k] == here[k - front.len()]);
            }
        }
    }
}

/// Every todo that the overlay lists stands on its line, with its marker and state.
pub proof fn law_items_stand(b: Seq<u8>, k: int)
    requires
        b.len() <= usize::MAX,
        0 <= k < items_in(b).len(),
    ensures
        stands(b, items_in(b)[k]),
{
    reveal(items_in);
    lemma_items_upto(b, parser::notes_of(b).len() as int);
}

// ---------------------------------------------------------------------------
// State
// ---------------------------------------------------------------------------

pub struct TodoOverlayState {
    pub items: Vec<TodoItem>,
    pub selected: usize,
    /// When false only open todos are shown; true shows all.
    pub show_done: bool,
    /// Saved view state — restored if the user cancels with `Esc`.
    pub saved_cursor_line: usize,
    pub saved_cursor_byte: usize,
    pub saved_scroll: usize,
}

#[verifier::ext_equal]
pub struct OverlayView {
    pub items: Seq<ItemView>,
    pub selected: int,
    pub show_done: bool,
    pub saved: (int, int, int),
}

impl View for TodoOverlayState {
    type V = OverlayView;

    open spec fn view(&self) -> OverlayView {
        OverlayView {
            items: items_view(self.items@),
            selected: self.selected as int,
            show_done: self.show_done,
            saved: (
                self.saved_cursor_line as int,
                self.saved_cursor_byte as int,
                self.saved_scroll as int,
            ),
        }
    }
}

/// Those of the first `n` items that are shown.
pub open spec fn shown_upto(items: Seq<ItemView>, show_done: bool, n: int) -> Seq<ItemView>
    decreases n,
{
    if n <= 0 {
        Seq::empty()
    } else if show_done || !items[n - 1].done {
        shown_upto(items, show_done, n - 1).push(items[n - 1])
    } else {
        shown_upto(items, show_done, n - 1)
    }
}

/// How many of the first `n` items are done.
pub open spec fn done_upto(items: Seq<ItemView>, n: int) -> int
    decreases n,
{
    if n <= 0 {
        0
    } else {
        done_upto(items, n - 1) + if items[n - 1].done {
            1int
        } else {
            0
        }
    }
}

/// The marker of a toggled todo.
pub open spec fn other_marker(t: ItemView) -> Seq<char> {
    match t.kind {
        TodoItemKind::Prefix => if t.done {
            "TODO:"@
        } else {
            "DONE:"@
        },
        TodoItemKind::Checkbox => if t.done {
            "- [ ]"@
        } else {
            "- [x]"@
        },
    }
}

/// Where the marker of a todo starts: after the indentation of its line. A line that is
/// gone counts as the start of the text.
pub open spec fn marker_at(b: Seq<u8>, t: ItemView) -> int {
    if 0 <= t.line < spans::line_starts(b).len() {
        spans::line_starts(b)[t.line] + parser::skip_blanks(wrap::line_of(b, t.line), 0)
    } else {
        0
    }
}

/// There is room for a marker where that of `t` stands, or stood in the text that the
/// list was made from.
pub open spec fn can_toggle(b: Seq<u8>, t: ItemView) -> bool {
    let from = marker_at(b, t);
    &&& 0 <= from
    &&& from + 5 <= b.len()
    &&& text::on_boundary(b, from)
    &&& text::on_boundary(b, from + 5)
}

/// A todo toggled in the text, as one undo entry.
pub open spec fn toggled(e: EditorView, t: ItemView) -> EditorView {
    let from = marker_at(e.bytes, t);
    if can_toggle(e.bytes, t) {
        editing::settled(
            editing::edited(editing::entered(e), from, from + 5, other_marker(t)),
        )
    } else {
        e
    }
}

/// Line `l`, or the last one if there is no such line.
pub open spec fn existing_line(e: EditorView, l: int) -> int {
    if l < editing::line_count(e) {
        l
    } else {
        editing::line_count(e) - 1
    }
}

/// `selected`, but at most the last of `count`.
pub open spec fn capped(selected: int, count: int) -> int {
    if count > 0 && selected >= count {
        count - 1
    } else {
        selected
    }
}

impl OverlayView {
    pub open spec fn shown(self) -> Seq<ItemView> {
        shown_upto(self.items, self.show_done, self.items.len() as int)
    }

    /// The overlay just opened.
    pub open spec fn opened(e: EditorView) -> OverlayView {
        OverlayView {
            items: items_in(e.bytes),
            selected: 0,
            show_done: false,
            saved: (e.line, e.byte, e.scroll),
        }
    }

    /// The editor with the selected todo's line on top.
    pub open spec fn followed(self, e: EditorView) -> EditorView {
        let s = self.shown();
        if self.selected < s.len() {
            let line = existing_line(e, s[self.selected].line);
            EditorView { scroll: line, ..editing::with_column(editing::at(e, line, 0)) }
        } else {
            e
        }
    }

    /// The overlay after a key that keeps it open, in a text `b`.
    pub open spec fn after(self, e: EditorView, key: Key) -> (OverlayView, EditorView) {
        let down = OverlayView {
            selected: if self.shown().len() > 0 {
                capped(self.selected + 1, self.shown().len() as int)
            } else {
                self.selected
            },
            ..self
        };
        let up = OverlayView {
            selected: if self.selected > 0 {
                self.selected - 1
            } else {
                0
            },
            ..self
        };
        match key.code {
            KeyCode::Down => (down, down.followed(e)),
            KeyCode::Up => (up, up.followed(e)),
            KeyCode::Char(c) => if c == 'j' {
                (down, down.followed(e))
            } else if c == 'k' {
                (up, up.followed(e))
            } else if c == 'a' {
                let o = OverlayView { show_done: !self.show_done, ..self };
                let p = OverlayView {
                    selected: capped(self.selected, o.shown().len() as int),
                    ..o
                };
                (p, p.followed(e))
            } else if c == ' ' && self.selected < self.shown().len() {
                let f = toggled(e, self.shown()[self.selected]);
                let o = OverlayView { items: items_in(f.bytes), ..self };
                let p = OverlayView {
                    selected: capped(self.selected, o.shown().len() as int),
                    ..o
                };
                (p, p.followed(f))
            } else {
                (self, e)
            },
            _ => (self, e),
        }
    }

    /// The editor as it was before the overlay.
    pub open spec fn cancelled(self, e: EditorView) -> EditorView {
        let (line, byte) = positions::kept_place(e.bytes, self.saved.0, self.saved.1);
        editing::with_column(
            EditorView { scroll: self.saved.2, ..editing::at(e, line, byte) },
        )
    }
}

/// The key closes the overlay and restores the view.
pub open spec fn cancels(key: Key) -> bool {
    key.code == KeyCode::Esc || key.code == KeyCode::Char('q')
}

/// The marker that a todo gets is plain text.
proof fn lemma_other_marker(t: ItemView)
    ensures
        other_marker(t).len() > 0,
        encode_utf8(other_marker(t)).len() == 5,
        editing::plain_bytes(encode_utf8(other_marker(t)), 0, 5),
{
    parser::lemma_markers();
    reveal_strlit("TODO:");
    reveal_strlit("DONE:");
    reveal_strlit("- [ ]");
    reveal_strlit("- [x]");
}

/// A todo's marker is plain text on its line.
proof fn lemma_marker_plain(b: Seq<u8>, t: ItemView)
    requires
        valid_utf8(b),
        stands(b, t),
    ensures
        0 <= spans::line_starts(b)[t.line] <= marker_at(b, t),
        marker_at(b, t) - spans::line_starts(b)[t.line] + 5 <= wrap::line_of(b, t.line).len(),
        marker_at(b, t) + 5 <= b.len(),
        editing::plain_bytes(b, marker_at(b, t), marker_at(b, t) + 5),
        can_toggle(b, t),
{
    parser::lemma_markers();
    spans::lemma_line_starts(b);
    let line = wrap::line_of(b, t.line);
    let p = parser::skip_blanks(line, 0);
    lemma_marker_shape(line);
    let from = spans::line_starts(b)[t.line];
    let head = line.subrange(p, p + 5);
    assert forall|i: int| from + p <= i < from + p + 5 implies (#[trigger] b[i]) < 0x80 && b[i]
        != 10u8 by {
        assert(b[i] == line[i - from]);
        assert(head[i - from - p] == line[i - from]);
    }
    lemma_other_marker(t);
    editing::lemma_overwritten(b, from + p, other_marker(t));
}

impl TodoOverlayState {
    /// Open the overlay: the editor follows the first todo.
    pub fn open(editor: &mut Editor) -> (r: Self)
        requires
            old(editor).wf(),
        ensures
            final(editor).wf(),
            r@ == OverlayView::opened(old(editor)@),
            final(editor)@ == r@.followed(old(editor)@),
    {
        let state = TodoOverlayState {
            items: collect_todos(&editor.buffer),
            selected: 0,
            show_done: false,
            saved_cursor_line: editor.cursor_line,
            saved_cursor_byte: editor.cursor_byte,
            saved_scroll: editor.scroll,
        };
        state.jump_to_selected(editor);
        state
    }

    /// Indices of the items shown.
    fn visible(&self) -> (r: Vec<usize>)
        ensures
            r.len() == self@.shown().len(),
            forall|k: int|
                0 <= k < r.len() ==> (#[trigger] r@[k]) < self.items.len()
                    && self.items@[r@[k] as int]@ == self@.shown()[k],
    {
        let mut out: Vec<usize> = Vec::new();
        let mut i: usize = 0;
        while i < self.items.len()
            invariant
                i <= self.items.len(),
                out.len() == shown_upto(self@.items, self.show_done, i as int).len(),
                forall|k: int|
                    0 <= k < out.len() ==> (#[trigger] out@[k]) < self.items.len()
                        && self.items@[out@[k] as int]@ == shown_upto(
                        self@.items,
                        self.show_done,
                        i as int,
                    )[k],
            decreases self.items.len() - i,
        {
            proof {
                assert(self@.items[i as int] == self.items@[i as int]@);
            }
            if self.show_done || !self.items[i].is_done {
                out.push(i);
            }
            i += 1;
        }
        out
    }

    /// Move the editor cursor to the line of the currently-selected todo,
    /// and set `scroll` so that line is at the top of the editor area
    /// (so it's visible above the panel that covers the bottom ~2/3).
    fn jump_to_selected(&self, editor: &mut Editor)
        requires
            old(editor).wf(),
        ensures
            final(editor).wf(),
            final(editor)@ == self@.followed(old(editor)@),
    {
        let shown = self.visible();
        if self.selected < shown.len() {
            let line = self.items[shown[self.selected]].line;
            let n = editor.buffer.line_count();
            editor.show_line_on_top(
                if line < n {
                    line
                } else {
                    n - 1
                },
            );
        }
    }

    fn cap_selected(&mut self)
        ensures
            final(self)@ == (OverlayView {
                selected: capped(old(self)@.selected, old(self)@.shown().len() as int),
                ..old(self)@
            }),
    {
        let count = self.visible().len();
        if count > 0 && self.selected >= count {
            self.selected = count - 1;
        }
    }

    /// Handle a key while the overlay is open. Returns `true` if it closes.
    pub fn handle_key(&mut self, editor: &mut Editor, key: Key) -> (r: bool)
        requires
            old(editor).wf(),
        ensures
            final(editor).wf(),
            r == (cancels(key) || key.code == KeyCode::Enter),
            cancels(key) ==> final(editor)@ == old(self)@.cancelled(old(editor)@),
            key.code == KeyCode::Enter ==> final(editor)@ == editing::with_column(old(editor)@),
            !r ==> (final(self)@, final(editor)@) == old(self)@.after(old(editor)@, key),
    {
        match key.code {
            KeyCode::Esc => {
                self.cancel(editor);
                return true;
            },
            KeyCode::Enter => {
                // Commit: cursor stays where it is (already at selection).
                editor.update_preferred_col();
                return true;
            },
            KeyCode::Down => {
                self.step_down(editor);
            },
            KeyCode::Up => {
                self.step_up(editor);
            },
            KeyCode::Char(c) => {
                if c == 'q' {
                    self.cancel(editor);
                    return true;
                } else if c == 'j' {
                    self.step_down(editor);
                } else if c == 'k' {
                    self.step_up(editor);
                } else if c == 'a' {
                    self.show_done = !self.show_done;
                    self.cap_selected();
                    self.jump_to_selected(editor);
                } else if c == ' ' {
                    self.toggle_selected(editor);
                }
            },
            _ => {},
        }
        false
    }

    fn cancel(&self, editor: &mut Editor)
        requires
            old(editor).wf(),
        ensures
            final(editor).wf(),
            final(editor)@ == self@.cancelled(old(editor)@),
            final(editor)@.bytes == old(editor)@.bytes,
    {
        editor.restore_view(self.saved_cursor_line, self.saved_cursor_byte, self.saved_scroll);
    }

    fn step_down(&mut self, editor: &mut Editor)
        requires
            old(editor).wf(),
        ensures
            final(editor).wf(),
            (final(self)@, final(editor)@) == old(self)@.after(
                old(editor)@,
                (Key {
                    code: KeyCode::Down,
                    mods: crate::keys::Modifiers { ctrl: false, alt: false, shift: false, meta: false },
                }),
            ),
    {
        let count = self.visible().len();
        if count > 0 {
            self.selected =
            if self.selected < count - 1 {
                self.selected + 1
            } else {
                count - 1
            };
        }
        self.jump_to_selected(editor);
    }

    fn step_up(&mut self, editor: &mut Editor)
        requires
            old(editor).wf(),
        ensures
            final(editor).wf(),
            (final(self)@, final(editor)@) == old(self)@.after(
                old(editor)@,
                (Key {
                    code: KeyCode::Up,
                    mods: crate::keys::Modifiers { ctrl: false, alt: false, shift: false, meta: false },
                }),
            ),
    {
        if self.selected > 0 {
            self.selected = self.selected - 1;
        }
        self.jump_to_selected(editor);
    }

    /// Toggle in place — do not advance, do not close.
    fn toggle_selected(&mut self, editor: &mut Editor)
        requires
            old(editor).wf(),
        ensures
            final(editor).wf(),
            (final(self)@, final(editor)@) == old(self)@.after(
                old(editor)@,
                (Key {
                    code: KeyCode::Char(' '),
                    mods: crate::keys::Modifiers { ctrl: false, alt: false, shift: false, meta: false },
                }),
            ),
    {
        let shown = self.visible();
        if self.selected >= shown.len() {
            return;
        }
        toggle_todo_item(editor, &self.items[shown[self.selected]]);
        // Rebuild the list so line numbers stay correct after the edit.
        self.items = collect_todos(&editor.buffer);
        self.cap_selected();
        self.jump_to_selected(editor);
    }
}

/// Toggle a todo of the file in place.
pub fn toggle_todo_item(editor: &mut Editor, item: &TodoItem)
    requires
        old(editor).wf(),
    ensures
        final(editor).wf(),
        final(editor)@ == toggled(old(editor)@, item@),
{
    let n = editor.buffer.len();
    let from = if item.line < editor.buffer.line_count() {
        let start = positions::start_of_line(&editor.buffer, item.line);
        let line = positions::text_of_line(&editor.buffer, item.line);
        proof {
            wrap::lemma_line_valid(editor@.bytes, item.line as int);
            spans::lemma_line_starts(editor@.bytes);
        }
        start + parser::leading_whitespace(line.as_bytes())
    } else {
        0
    };
    if n < 5 || from > n - 5 || !editor.has_span(Span::new(from, from + 5)) {
        return;
    }
    let marker: &str = match item.kind {
        TodoItemKind::Prefix => if item.is_done {
            "TODO:"
        } else {
            "DONE:"
        },
        TodoItemKind::Checkbox => if item.is_done {
            "- [ ]"
        } else {
            "- [x]"
        },
    };
    editor.replace_span(Span::new(from, from + 5), marker);
}

// ---------------------------------------------------------------------------
// Screen
// ---------------------------------------------------------------------------

/// What the overlay shows.
pub struct TodoPanel {
    pub title: String,
    /// Shown in place of the list where it is empty.
    pub message: Option<&'static str>,
    pub rows: Vec<StyledLine>,
    pub footer: String,
}

/// The marker shown for a todo.
pub open spec fn shown_marker(t: ItemView) -> Seq<char> {
    match t.kind {
        TodoItemKind::Checkbox => if t.done {
            "[x]"@
        } else {
            "[ ]"@
        },
        TodoItemKind::Prefix => if t.done {
            "DONE:"@
        } else {
            "TODO:"@
        },
    }
}

/// The line of a todo: highlighted if selected, gray if done.
pub open spec fn item_line(t: ItemView, selected: bool) -> Seq<SpanView> {
    seq![
        style::run(
            " "@ + shown_marker(t) + " "@ + t.text,
            if selected {
                Style::colored(Color::White).spec_on(Color::Rgb(60, 80, 110)).spec_bold()
            } else if t.done {
                Style::colored(Color::DarkGray)
            } else {
                style::bare()
            },
        ),
    ]
}

/// The first row shown, so that the selected one is in view.
pub open spec fn first_row(selected: int, height: int) -> int {
    if selected >= height {
        selected + 1 - height
    } else {
        0
    }
}

/// How many rows are shown.
pub open spec fn row_count(count: int, selected: int, height: int) -> int {
    let rest = count - first_row(selected, height);
    if rest < 0 {
        0
    } else if rest < height {
        rest
    } else {
        height
    }
}

impl OverlayView {
    pub open spec fn title(self) -> Seq<char> {
        let done = done_upto(self.items, self.items.len() as int);
        " todo \u{b7} "@ + words::decimal((self.items.len() - done) as nat) + " open \u{b7} "@
            + words::decimal(done as nat) + " done "@
    }

    pub open spec fn footer(self) -> Seq<char> {
        " \u{2191}\u{2193} pick \u{b7} Space toggle \u{b7} a "@ + (if self.show_done {
            "hide done"@
        } else {
            "show done"@
        }) + " \u{b7} Enter commit \u{b7} Esc cancel "@
    }
}

fn item_row(item: &TodoItem, selected: bool) -> (r: StyledLine)
    ensures
        r@ == item_line(item@, selected),
{
    let marker: &str = match item.kind {
        TodoItemKind::Checkbox => if item.is_done {
            "[x]"
        } else {
            "[ ]"
        },
        TodoItemKind::Prefix => if item.is_done {
            "DONE:"
        } else {
            "TODO:"
        },
    };
    let mut s = String::from_str(" ");
    s.append(marker);
    s.append(" ");
    s.append(item.text.as_str());
    let st = if selected {
        Style::fg(Color::White).with_bg(Color::Rgb(60, 80, 110)).with_bold()
    } else if item.is_done {
        Style::fg(Color::DarkGray)
    } else {
        Style::plain()
    };
    StyledLine::of(s.as_str(), st)
}

impl TodoOverlayState {
    fn done_count(&self) -> (r: usize)
        ensures
            r == done_upto(self@.items, self@.items.len() as int),
            r <= self.items.len(),
    {
        let mut done: usize = 0;
        let mut i: usize = 0;
        while i < self.items.len()
            invariant
                i <= self.items.len(),
                done <= i,
                done == done_upto(self@.items, i as int),
            decreases self.items.len() - i,
        {
            proof {
                assert(self@.items[i as int] == self.items@[i as int]@);
            }
            if self.items[i].is_done {
                done += 1;
            }
            i += 1;
        }
        done
    }

    /// What the overlay shows, with a list of `list_height` rows.
    pub fn panel(&self, list_height: usize) -> (r: TodoPanel)
        ensures
            r.title@ == self@.title(),
            r.footer@ == self@.footer(),
            r.message == if self@.shown().len() > 0 {
                None
            } else if self@.items.len() == 0 {
                Some("  No todos in this file.")
            } else {
                Some("  All todos are done. Press `a` to show them.")
            },
            r.rows.len() == row_count(
                self@.shown().len() as int,
                self@.selected,
                list_height as int,
            ),
            forall|k: int|
                0 <= k < r.rows.len() ==> (#[trigger] r.rows@[k])@ == ({
                    let i = first_row(self@.selected, list_height as int) + k;
                    item_line(self@.shown()[i], i == self@.selected)
                }),
    {
        let done = self.done_count();
        let mut title = String::from_str(" todo \u{b7} ");
        words::push_decimal(&mut title, self.items.len() - done);
        title.append(" open \u{b7} ");
        words::push_decimal(&mut title, done);
        title.append(" done ");
        let mut footer = String::from_str(" \u{2191}\u{2193} pick \u{b7} Space toggle \u{b7} a ");
        if self.show_done {
            footer.append("hide done");
        } else {
            footer.append("show done");
        }
        footer.append(" \u{b7} Enter commit \u{b7} Esc cancel ");
        let shown = self.visible();
        let message = if shown.len() > 0 {
            None
        } else if self.items.len() == 0 {
            Some("  No todos in this file.")
        } else {
            Some("  All todos are done. Press `a` to show them.")
        };
        let first: usize = if self.selected >= list_height && list_height > 0 {
            self.selected - list_height + 1
        } else {
            0
        };
        let mut rows: Vec<StyledLine> = Vec::new();
        let mut i: usize = first;
        while i < shown.len() && rows.len() < list_height
            invariant
                shown.len() == self@.shown().len(),
                forall|k: int|
                    0 <= k < shown.len() ==> (#[trigger] shown@[k]) < self.items.len()
                        && self.items@[shown@[k] as int]@ == self@.shown()[k],
                list_height > 0 ==> first == first_row(self@.selected, list_height as int),
                i == first + rows.len(),
                rows.len() <= list_height,
                i <= shown.len() || rows.len() == 0,
                forall|k: int|
                    0 <= k < rows.len() ==> (#[trigger] rows@[k])@ == item_line(
                        self@.shown()[first + k],
                        first + k == self@.selected,
                    ),
            decreases shown.len() - i,
        {
            rows.push(item_row(&self.items[shown[i]], i == self.selected));
            i += 1;
        }
        TodoPanel { title, message, rows, footer }
    }
}

// ---------------------------------------------------------------------------
// Laws
// ---------------------------------------------------------------------------

/// Cancelling an overlay that nothing was toggled in leaves the editor as it was
/// before the overlay opened, but for the wanted column, which is the cursor's.
pub proof fn law_cancel_restores(e: EditorView)
    requires
        editing::state_ok(e),
    ensures
        ({
            let o = OverlayView::opened(e);
            o.cancelled(o.followed(e)) == editing::with_column(e)
        }),
{
    let o = OverlayView::opened(e);
    assert(o.cancelled(o.followed(e)) =~= editing::with_column(e));
}

/// Toggling a todo changes no more than its marker: the lines stay where they
/// are, and the bytes outside the marker stay.
pub proof fn law_toggle_is_local(e: EditorView, t: ItemView)
    requires
        editing::state_ok(e),
        stands(e.bytes, t),
    ensures
        spans::line_starts(toggled(e, t).bytes) == spans::line_starts(e.bytes),
        toggled(e, t).bytes.len() == e.bytes.len(),
        forall|i: int|
            0 <= i < e.bytes.len() && !(marker_at(e.bytes, t) <= i < marker_at(e.bytes, t) + 5)
                ==> #[trigger] toggled(e, t).bytes[i] == e.bytes[i],
        positions::place_ok(toggled(e, t).bytes, e.line, e.byte),
{
    lemma_marker_plain(e.bytes, t);
    lemma_other_marker(t);
    spans::lemma_line_starts(e.bytes);
    editing::lemma_overwritten(e.bytes, marker_at(e.bytes, t), other_marker(t));
}

/// No box is checked with a capital.
pub open spec fn no_capitals(b: Seq<u8>) -> bool {
    forall|l: int|
        0 <= l < spans::line_starts(b).len() ==> marker_on(#[trigger] wrap::line_of(b, l))
            == parser::todo_marker(wrap::line_of(b, l))
}

/// A todo that the parser finds, as the overlay shows it.
pub open spec fn item_of(b: Seq<u8>, t: TodoSpan) -> ItemView {
    ItemView {
        line: positions::line_at(b, t.span.start as int),
        text: words::trim_start(decode_utf8(t.text.of(b))),
        done: t.state is Done,
        kind: kind_of(t.kind),
    }
}

pub open spec fn items_of(b: Seq<u8>, ts: Seq<(usize, TodoSpan)>) -> Seq<ItemView> {
    ts.map_values(|t: (usize, TodoSpan)| item_of(b, t.1))
}

proof fn lemma_body_todos(b: Seq<u8>, p: int, end: int, fenced: bool, note: int)
    requires
        0 <= p <= end <= b.len(),
        p == 0 || p == b.len() || b[p - 1] == 10,
        end == b.len() || b[end - 1] == 10,
        b.len() <= usize::MAX,
        no_capitals(b),
    ensures
        body_items(b, p, end, fenced) == items_of(
            b,
            parser::body_todos(b, p, end, fenced, note),
        ),
    decreases end - p,
{
    let ts = parser::body_todos(b, p, end, fenced, note);
    if p < end {
        text::lemma_find_first(b, p, end, 10);
        let q = parser::line_after(b, p, end);
        let line = b.subrange(p, q);
        lemma_body_line(b, p, end);
        lemma_body_todos(b, q, end, fenced, note);
        lemma_body_todos(b, q, end, !fenced, note);
        assert(wrap::line_of(b, positions::line_at(b, p)) == line);
        if !parser::fence(line) && !fenced {
            if let Some(t) = parser::todo_of(line, p) {
                parser::lemma_todo_shape(line);
                assert(t.text.of(b) =~= line.subrange(
                    parser::task_start(line),
                    text::content_len(line),
                ));
                assert(item_on(b, p, line) == Some(item_of(b, t)));
                let rest = parser::body_todos(b, q, end, fenced, note);
                assert(items_of(b, ts) =~= seq![item_of(b, t)] + items_of(b, rest));
            }
        }
    } else {
        assert(body_items(b, p, end, fenced) =~= items_of(b, ts));
    }
}

proof fn lemma_todos_upto(b: Seq<u8>, n: int)
    requires
        b.len() <= usize::MAX,
        no_capitals(b),
        0 <= n <= parser::notes_of(b).len(),
    ensures
        items_upto(b, n) == items_of(b, parser::todos_upto(b, n)),
    decreases n,
{
    if n > 0 {
        lemma_todos_upto(b, n - 1);
        toggle_laws::lemma_body_lines(b, n - 1);
        let body = parser::notes_of(b)[n - 1].body;
        lemma_body_todos(b, body.start as int, body.end as int, false, n - 1);
    }
    assert(items_upto(b, n) =~= items_of(b, parser::todos_upto(b, n)));
}

/// Where no box is checked with a capital, the overlay lists what the parser finds.
pub proof fn law_overlay_lists_todos(b: Seq<u8>)
    requires
        b.len() <= usize::MAX,
        no_capitals(b),
    ensures
        items_in(b) == items_of(b, parser::todos_of(b)),
{
    reveal(items_in);
    lemma_todos_upto(b, parser::notes_of(b).len() as int);
}

/// The state that an item shows.
pub open spec fn state_shown(t: ItemView) -> TodoState {
    if t.done {
        TodoState::Done
    } else {
        TodoState::Open
    }
}

/// A line that a todo stands on is toggled by writing the other marker over its own.
#[verifier::spinoff_prover]
proof fn lemma_line_toggled(line: Seq<u8>, t: ItemView)
    requires
        marker_on(line) matches Some((kind, state)) && kind_of(kind) == t.kind && (state is Done)
            == t.done,
    ensures
        ({
            let p = parser::skip_blanks(line, 0);
            commands::toggled_line(line, state_shown(t)) == line.subrange(0, p) + encode_utf8(
                other_marker(t),
            ) + line.subrange(p + 5, line.len() as int)
        }),
{
    let p = parser::skip_blanks(line, 0);
    lemma_marker_shape(line);
    parser::lemma_markers();
    let old = line.subrange(p, p + 5);
    assert(old[0] == line[p + 0] && old[3] == line[p + 3]);
    assert(commands::toggled_marker(line, p, state_shown(t)) == Some(other_marker(t)));
}

/// A todo is toggled in the editor as it is in the file: the text is the same.
#[verifier::spinoff_prover]
pub proof fn law_toggles_agree(e: EditorView, t: ItemView)
    requires
        editing::state_ok(e),
        stands(e.bytes, t),
    ensures
        toggled(e, t).bytes == commands::toggled_at(
            e.bytes,
            spans::line_starts(e.bytes)[t.line],
            state_shown(t),
        ),
{
    let b = e.bytes;
    let o = spans::line_starts(b)[t.line];
    let line = wrap::line_of(b, t.line);
    let p = parser::skip_blanks(line, 0);
    lemma_marker_plain(b, t);
    lemma_marker_shape(line);
    lemma_line_toggled(line, t);
    spans::lemma_line_starts(b);
    lemma_line_from(b, o);
    positions::lemma_line_at_unique(b, o, t.line);
    let n = b.len() as int;
    let q = parser::line_after(b, o, n);
    let m = encode_utf8(other_marker(t));
    text::lemma_find_first(b, o, n, 10);
    let l = commands::toggled_line(line, state_shown(t));
    assert(commands::toggled_at(b, o, state_shown(t)) == b.subrange(0, o) + l + b.subrange(q, n));
    assert(toggled(e, t).bytes == b.subrange(0, o + p) + m + b.subrange(o + p + 5, n));
    assert(b.subrange(0, o) + l + b.subrange(q, n) =~= b.subrange(0, o + p) + m + b.subrange(
        o + p + 5,
        n,
    ));
}

/// Toggling a todo in the editor is an edit like any other: nothing is saved by it,
/// and one undo takes it back, with the cursor where it was.
pub proof fn law_toggle_is_one_undo(e: EditorView, t: ItemView)
    requires
        editing::state_ok(e),
        can_toggle(e.bytes, t),
    ensures
        toggled(e, t).dirty,
        toggled(e, t).saved == e.saved,
        editor_laws::brings_back(toggled(e, t), e),
{
    editor_laws::law_one_undo(e, toggled(e, t));
}

} // verus!
