//! The filter panel: a live query over the notes of the file.

use vstd::prelude::*;
use vstd::string::StrSliceExecFns;
use vstd::utf8::*;

use crate::buffer::TextBuffer;
use crate::commands;
use crate::editing;
use crate::editing::EditorView;
use crate::editor::Editor;
use crate::index;
use crate::index::FileIndex;
use crate::input::{InputView, TextInput};
use crate::keys::{Key, KeyCode};
use crate::note_laws;
use crate::parser;
use crate::positions;
use crate::spans::{NoteSpan, TagSpan};
use crate::style;
use crate::style::{Color, SpanView, Style, StyledLine};
use crate::text;
use crate::words;

verus! {

// ---------------------------------------------------------------------------
// Matches
// ---------------------------------------------------------------------------

/// The filter that a query sets: none for a blank one.
pub open spec fn filter_of(query: Seq<char>) -> Option<Seq<char>> {
    if words::trim(query).len() == 0 {
        None
    } else {
        Some(words::trim(query))
    }
}

/// The notes that a filter lets through.
pub open spec fn matches_of(b: Seq<u8>, filter: Option<Seq<char>>) -> Seq<usize> {
    match filter {
        None => Seq::empty(),
        Some(q) => commands::filter_list(b, q),
    }
}

/// Offset of the first byte of a note.
pub open spec fn note_start(b: Seq<u8>, ni: int) -> int {
    parser::notes_of(b)[ni].span.start as int
}

/// The notes of a filter are notes of the file.
pub open spec fn notes_exist(b: Seq<u8>, list: Seq<usize>) -> bool {
    forall|k: int| 0 <= k < list.len() ==> (#[trigger] list[k]) < parser::notes_of(b).len()
}

fn list_matches(buffer: &TextBuffer, query: &str) -> (r: Vec<usize>)
    requires
        buffer.wf(),
    ensures
        r@ == commands::filter_list(buffer.bytes(), query@),
        notes_exist(buffer.bytes(), r@),
{
    let index = FileIndex::build(buffer);
    commands::collect_filter_matches(buffer, &index, query)
}

/// The first start of a listed note after offset `c`, among the first `k`.
pub open spec fn start_after(b: Seq<u8>, list: Seq<usize>, c: int, k: int) -> Option<int>
    decreases k,
{
    if k <= 0 {
        None
    } else {
        let s = note_start(b, list[k - 1] as int);
        match start_after(b, list, c, k - 1) {
            Some(t) => if c < s && s < t {
                Some(s)
            } else {
                Some(t)
            },
            None => if c < s {
                Some(s)
            } else {
                None
            },
        }
    }
}

/// The last start of a listed note before offset `c`, among the first `k`.
pub open spec fn start_before(b: Seq<u8>, list: Seq<usize>, c: int, k: int) -> Option<int>
    decreases k,
{
    if k <= 0 {
        None
    } else {
        let s = note_start(b, list[k - 1] as int);
        match start_before(b, list, c, k - 1) {
            Some(t) => if s < c && t < s {
                Some(s)
            } else {
                Some(t)
            },
            None => if s < c {
                Some(s)
            } else {
                None
            },
        }
    }
}

/// Where the next match from offset `c` on starts, in file order: after the last
/// one comes the first.
pub open spec fn next_match(b: Seq<u8>, list: Seq<usize>, c: int) -> Option<int> {
    let n = list.len() as int;
    match start_after(b, list, c, n) {
        Some(s) => Some(s),
        None => start_after(b, list, -1, n),
    }
}

/// Where the match before offset `c` starts: before the first one comes the last.
pub open spec fn prev_match(b: Seq<u8>, list: Seq<usize>, c: int) -> Option<int> {
    let n = list.len() as int;
    match start_before(b, list, c, n) {
        Some(s) => Some(s),
        None => start_before(b, list, b.len() as int + 1, n),
    }
}

/// Starts of listed notes: the first after offset `c`, the first of all, the last
/// before `c`, and the last of all.
fn nearest_starts(buffer: &TextBuffer, index: &FileIndex, list: &Vec<usize>, c: usize) -> (r: (
    Option<usize>,
    Option<usize>,
    Option<usize>,
    Option<usize>,
))
    requires
        buffer.wf(),
        index.of(buffer.bytes()),
        notes_exist(buffer.bytes(), list@),
    ensures
        opt(r.0) == start_after(buffer.bytes(), list@, c as int, list@.len() as int),
        opt(r.1) == start_after(buffer.bytes(), list@, -1, list@.len() as int),
        opt(r.2) == start_before(buffer.bytes(), list@, c as int, list@.len() as int),
        opt(r.3) == start_before(
            buffer.bytes(),
            list@,
            buffer.bytes().len() as int + 1,
            list@.len() as int,
        ),
        r.0 matches Some(s) ==> text::on_boundary(buffer.bytes(), s as int),
        r.1 matches Some(s) ==> text::on_boundary(buffer.bytes(), s as int),
        r.2 matches Some(s) ==> text::on_boundary(buffer.bytes(), s as int),
        r.3 matches Some(s) ==> text::on_boundary(buffer.bytes(), s as int),
{
    let ghost b = buffer.bytes();
    let _n = buffer.len();
    let mut after: Option<usize> = None;
    let mut first: Option<usize> = None;
    let mut before: Option<usize> = None;
    let mut last: Option<usize> = None;
    let mut k: usize = 0;
    while k < list.len()
        invariant
            k <= list.len(),
            b == buffer.bytes(),
            b.len() <= usize::MAX,
            index.of(b),
            notes_exist(b, list@),
            opt(after) == start_after(b, list@, c as int, k as int),
            opt(first) == start_after(b, list@, -1, k as int),
            opt(before) == start_before(b, list@, c as int, k as int),
            opt(last) == start_before(b, list@, b.len() as int + 1, k as int),
            after matches Some(s) ==> text::on_boundary(b, s as int),
            first matches Some(s) ==> text::on_boundary(b, s as int),
            before matches Some(s) ==> text::on_boundary(b, s as int),
            last matches Some(s) ==> text::on_boundary(b, s as int),
        decreases list.len() - k,
    {
        proof {
            note_laws::law_note_spans_lie_in_file(buffer@, list@[k as int] as int);
        }
        let s = index.result.notes[list[k]].span.start;
        if s > c {
            after =
            match after {
                Some(t) => if s < t {
                    Some(s)
                } else {
                    Some(t)
                },
                None => Some(s),
            };
        }
        first =
        match first {
            Some(t) => if s < t {
                Some(s)
            } else {
                Some(t)
            },
            None => Some(s),
        };
        if s < c {
            before =
            match before {
                Some(t) => if t < s {
                    Some(s)
                } else {
                    Some(t)
                },
                None => Some(s),
            };
        }
        last =
        match last {
            Some(t) => if t < s {
                Some(s)
            } else {
                Some(t)
            },
            None => Some(s),
        };
        k += 1;
    }
    (after, first, before, last)
}

pub open spec fn opt(o: Option<usize>) -> Option<int> {
    match o {
        Some(s) => Some(s as int),
        None => None,
    }
}

/// The editor at the next or the previous match.
pub open spec fn at_match(e: EditorView, list: Seq<usize>, forward: bool) -> EditorView {
    let target = if forward {
        next_match(e.bytes, list, editing::cursor(e))
    } else {
        prev_match(e.bytes, list, editing::cursor(e))
    };
    match target {
        Some(s) => editing::jumped(e, s),
        None => e,
    }
}

/// Jump the cursor to the next (forward=true) / previous (forward=false)
/// match of `query`, in file order. Returns `false` if there is none.
pub fn jump_to_match(editor: &mut Editor, query: &str, forward: bool) -> (r: bool)
    requires
        old(editor).wf(),
    ensures
        final(editor).wf(),
        r == (commands::filter_list(old(editor)@.bytes, query@).len() > 0),
        final(editor)@ == at_match(
            old(editor)@,
            commands::filter_list(old(editor)@.bytes, query@),
            forward,
        ),
{
    let list = list_matches(&editor.buffer, query);
    if list.len() == 0 {
        return false;
    }
    let index = FileIndex::build(&editor.buffer);
    let c = editor.cursor_abs_pos();
    let (after, first, before, last) = nearest_starts(&editor.buffer, &index, &list, c);
    let target = if forward {
        match after {
            Some(s) => Some(s),
            None => first,
        }
    } else {
        match before {
            Some(s) => Some(s),
            None => last,
        }
    };
    if let Some(s) = target {
        editor.jump_cursor_to(s);
    }
    true
}

// ---------------------------------------------------------------------------
// State
// ---------------------------------------------------------------------------

pub struct FilterPanelState {
    pub query: TextInput,
    /// Note indices that match, ordered newest-first by date.
    pub matches: Vec<usize>,
    pub selected: usize,
    /// Saved view state — restored if the user cancels with `Esc`.
    pub saved_cursor_line: usize,
    pub saved_cursor_byte: usize,
    pub saved_scroll: usize,
}

#[verifier::ext_equal]
pub struct PanelView {
    pub query: InputView,
    pub matches: Seq<usize>,
    pub selected: int,
    pub saved: (int, int, int),
}

impl View for FilterPanelState {
    type V = PanelView;

    open spec fn view(&self) -> PanelView {
        PanelView {
            query: self.query@,
            matches: self.matches@,
            selected: self.selected as int,
            saved: (
                self.saved_cursor_line as int,
                self.saved_cursor_byte as int,
                self.saved_scroll as int,
            ),
        }
    }
}

impl PanelView {
    /// The panel with the matches of its query, the first one selected.
    pub open spec fn searched(self, b: Seq<u8>) -> PanelView {
        PanelView { matches: matches_of(b, filter_of(self.query.chars)), selected: 0, ..self }
    }

    /// The panel just opened on a filter.
    pub open spec fn opened(e: EditorView, filter: Option<Seq<char>>) -> PanelView {
        let q = match filter {
            Some(s) => s,
            None => Seq::empty(),
        };
        PanelView {
            query: InputView { chars: q, at: q.len() as int },
            matches: Seq::empty(),
            selected: 0,
            saved: (e.line, e.byte, e.scroll),
        }.searched(e.bytes)
    }

    /// The editor with the selected note on top.
    pub open spec fn followed(self, e: EditorView) -> EditorView {
        if self.selected < self.matches.len() && self.matches[self.selected] < parser::notes_of(
            e.bytes,
        ).len() {
            editing::on_top(e, note_start(e.bytes, self.matches[self.selected] as int))
        } else {
            e
        }
    }

    /// Another match selected.
    pub open spec fn selecting(self, key: Key) -> Option<PanelView> {
        let n = self.matches.len() as int;
        match key.code {
            KeyCode::Down => Some(
                PanelView {
                    selected: if self.selected + 1 < n {
                        self.selected + 1
                    } else {
                        self.selected
                    },
                    ..self
                },
            ),
            KeyCode::Up => Some(
                PanelView {
                    selected: if self.selected > 0 {
                        self.selected - 1
                    } else {
                        0
                    },
                    ..self
                },
            ),
            KeyCode::PageDown => Some(
                PanelView {
                    selected: if self.selected + 10 < n {
                        self.selected + 10
                    } else if n > 0 {
                        n - 1
                    } else {
                        0
                    },
                    ..self
                },
            ),
            KeyCode::PageUp => Some(
                PanelView {
                    selected: if self.selected > 10 {
                        self.selected - 10
                    } else {
                        0
                    },
                    ..self
                },
            ),
            _ => None,
        }
    }

    /// The query after a key that only moves its cursor.
    pub open spec fn moving(self, key: Key) -> Option<InputView> {
        match key.code {
            KeyCode::Home => Some(self.query.moved_home()),
            KeyCode::End => Some(self.query.moved_end()),
            KeyCode::Left => Some(self.query.moved_left()),
            KeyCode::Right => Some(self.query.moved_right()),
            _ => None,
        }
    }

    /// The query after a key that changes it.
    pub open spec fn querying(self, key: Key) -> Option<InputView> {
        match key.code {
            KeyCode::Backspace => if self.query.at > 0 {
                Some(self.query.backspaced())
            } else {
                None
            },
            KeyCode::Char(c) => if key.mods.ctrl || key.mods.alt || key.mods.meta {
                None
            } else {
                Some(self.query.inserted(seq![c]))
            },
            _ => None,
        }
    }

    /// Panel, editor and active filter after a key that keeps the panel open.
    pub open spec fn after(self, e: EditorView, filter: Option<Seq<char>>, key: Key) -> (
        PanelView,
        EditorView,
        Option<Seq<char>>,
    ) {
        match (self.selecting(key), self.moving(key), self.querying(key)) {
            (Some(p), _, _) => (p, p.followed(e), filter),
            (None, Some(q), _) => (PanelView { query: q, ..self }, e, filter),
            (None, None, Some(q)) => {
                let p = PanelView { query: q, ..self }.searched(e.bytes);
                (p, p.followed(e), filter_of(q.chars))
            },
            _ => (self, e, filter),
        }
    }

    /// The editor as it was before the panel.
    pub open spec fn cancelled(self, e: EditorView) -> EditorView {
        let (line, byte) = positions::kept_place(e.bytes, self.saved.0, self.saved.1);
        editing::with_column(
            EditorView { scroll: self.saved.2, ..editing::at(e, line, byte) },
        )
    }
}

pub open spec fn text_view(s: Option<String>) -> Option<Seq<char>> {
    match s {
        Some(t) => Some(t@),
        None => None,
    }
}

/// The filter that a query sets: none for a blank one.
pub fn filter_from_query(query: &str) -> (r: Option<String>)
    ensures
        text_view(r) == filter_of(query@),
{
    let t = words::trimmed(query);
    if t.is_empty() {
        None
    } else {
        Some(t.to_owned())
    }
}

impl FilterPanelState {
    /// Open the panel on the active filter; the editor follows the first match.
    pub fn open(editor: &mut Editor, filter: &mut Option<String>) -> (r: Self)
        requires
            old(editor).wf(),
        ensures
            final(editor).wf(),
            r.query.wf(),
            r@ == PanelView::opened(old(editor)@, text_view(*old(filter))),
            final(editor)@ == r@.followed(old(editor)@),
            text_view(*final(filter)) == filter_of(r@.query.chars),
    {
        let text = match filter {
            Some(q) => q.as_str().to_owned(),
            None => String::new(),
        };
        proof {
            assert(text@ =~= match text_view(*old(filter)) {
                Some(s) => s,
                None => Seq::empty(),
            });
        }
        let mut state = FilterPanelState {
            query: TextInput::new(text),
            matches: Vec::new(),
            selected: 0,
            saved_cursor_line: editor.cursor_line,
            saved_cursor_byte: editor.cursor_byte,
            saved_scroll: editor.scroll,
        };
        state.refresh_matches(editor, filter);
        state
    }

    /// Recompute the match list from the query, reset selection to 0, mirror
    /// the query into the active filter, and move the editor cursor to the
    /// first match (if any).
    fn refresh_matches(&mut self, editor: &mut Editor, filter: &mut Option<String>)
        requires
            old(editor).wf(),
            old(self).query.wf(),
        ensures
            final(editor).wf(),
            final(self).query.wf(),
            final(self)@ == old(self)@.searched(old(editor)@.bytes),
            final(editor)@ == final(self)@.followed(old(editor)@),
            text_view(*final(filter)) == filter_of(old(self)@.query.chars),
    {
        let active = filter_from_query(self.query.text.as_str());
        self.matches =
        match &active {
            Some(q) => list_matches(&editor.buffer, q.as_str()),
            None => Vec::new(),
        };
        self.selected = 0;
        *filter = active;
        proof {
            assert(self@ =~= old(self)@.searched(editor@.bytes));
        }
        self.jump_to_selected(editor);
    }

    /// Move the editor to the selected note: its first line goes to the top of
    /// the editor area, so it's always visible above the panel.
    fn jump_to_selected(&self, editor: &mut Editor)
        requires
            old(editor).wf(),
        ensures
            final(editor).wf(),
            final(editor)@ == self@.followed(old(editor)@),
            final(editor)@.bytes == old(editor)@.bytes,
    {
        if self.selected < self.matches.len() {
            let index = FileIndex::build(&editor.buffer);
            let _n = editor.buffer.len();
            let ni = self.matches[self.selected];
            if ni < index.result.notes.len() {
                proof {
                    note_laws::law_note_spans_lie_in_file(editor.buffer@, ni as int);
                }
                let start = index.result.notes[ni].span.start;
                editor.show_offset_on_top(start);
            }
        }
    }

    fn select(&mut self, key: Key) -> (r: bool)
        ensures
            match old(self)@.selecting(key) {
                Some(p) => r && final(self)@ == p,
                None => !r && final(self)@ == old(self)@,
            },
            final(self).query == old(self).query,
            final(self).matches == old(self).matches,
    {
        let n = self.matches.len();
        match key.code {
            KeyCode::Down => {
                if n > 0 && self.selected < n - 1 {
                    self.selected = self.selected + 1;
                }
                true
            },
            KeyCode::Up => {
                if self.selected > 0 {
                    self.selected = self.selected - 1;
                }
                true
            },
            KeyCode::PageDown => {
                self.selected =
                if n > 10 && self.selected < n - 10 {
                    self.selected + 10
                } else if n > 0 {
                    n - 1
                } else {
                    0
                };
                true
            },
            KeyCode::PageUp => {
                self.selected =
                if self.selected > 10 {
                    self.selected - 10
                } else {
                    0
                };
                true
            },
            _ => false,
        }
    }

    /// Handle a key while the panel is open. Returns `true` if it closes: on Esc
    /// the editor's view is restored, on Enter the cursor stays; either way the
    /// active filter stays.
    pub fn handle_key(
        &mut self,
        editor: &mut Editor,
        filter: &mut Option<String>,
        key: Key,
    ) -> (r: bool)
        requires
            old(editor).wf(),
            old(self).query.wf(),
        ensures
            final(editor).wf(),
            final(self).query.wf(),
            r == (key.code == KeyCode::Esc || key.code == KeyCode::Enter),
            r ==> *final(filter) == *old(filter),
            key.code == KeyCode::Esc ==> final(editor)@ == old(self)@.cancelled(old(editor)@),
            key.code == KeyCode::Enter ==> final(editor)@ == editing::with_column(old(editor)@),
            !r ==> (final(self)@, final(editor)@, text_view(*final(filter))) == old(self)@.after(
                old(editor)@,
                text_view(*old(filter)),
                key,
            ),
    {
        if self.select(key) {
            self.jump_to_selected(editor);
            return false;
        }
        match key.code {
            KeyCode::Esc => {
                editor.restore_view(
                    self.saved_cursor_line,
                    self.saved_cursor_byte,
                    self.saved_scroll,
                );
                return true;
            },
            KeyCode::Enter => {
                editor.update_preferred_col();
                return true;
            },
            KeyCode::Home => {
                self.query.home();
            },
            KeyCode::End => {
                self.query.end();
            },
            KeyCode::Left => {
                self.query.left();
            },
            KeyCode::Right => {
                self.query.right();
            },
            KeyCode::Backspace => {
                if self.query.backspace() {
                    self.refresh_matches(editor, filter);
                }
            },
            KeyCode::Char(c) => {
                if !(key.mods.ctrl || key.mods.alt || key.mods.meta) {
                    self.query.insert_char(c);
                    self.refresh_matches(editor, filter);
                }
            },
            _ => {},
        }
        false
    }
}

// ---------------------------------------------------------------------------
// Screen
// ---------------------------------------------------------------------------

/// The first non-blank line of a text, trimmed, from piece `i` on.
pub open spec fn first_text(pieces: Seq<Seq<char>>, i: int) -> Seq<char>
    decreases pieces.len() - i,
{
    if i < 0 || i >= pieces.len() {
        Seq::empty()
    } else if words::trim(pieces[i]).len() > 0 {
        words::trim(pieces[i])
    } else {
        first_text(pieces, i + 1)
    }
}

/// At most the first `n` characters.
pub open spec fn at_most(s: Seq<char>, n: int) -> Seq<char> {
    if s.len() > n {
        s.subrange(0, n)
    } else {
        s
    }
}

/// The first line of a note's body that says something, cut to 60 characters.
pub open spec fn snippet(body: Seq<char>) -> Seq<char> {
    at_most(first_text(words::pieces(body, '\n'), 0), 60)
}

/// The tags of a note, each with its `#`, separated by spaces.
pub open spec fn tag_list(b: Seq<u8>, tags: Seq<TagSpan>, n: int) -> Seq<char>
    decreases n,
{
    if n <= 0 {
        Seq::empty()
    } else {
        let before = tag_list(b, tags, n - 1);
        (if before.len() > 0 {
            before + " "@
        } else {
            before
        }) + "#"@ + decode_utf8(tags[n - 1].name.of(b))
    }
}

pub open spec fn span_chars(b: Seq<u8>, s: crate::spans::Span) -> Seq<char> {
    decode_utf8(s.of(b))
}

/// What a row says of a note.
pub struct RowText {
    pub date: Seq<char>,
    pub title: Seq<char>,
    pub tags: Seq<char>,
    pub snippet: Seq<char>,
}

pub open spec fn row_text(b: Seq<u8>, ni: int) -> RowText {
    let note = parser::notes_of(b)[ni];
    let tags = index::tags_of_note(parser::tags_of(b), ni);
    RowText {
        date: match note.date {
            Some(s) => span_chars(b, s),
            None => "          "@,
        },
        title: match note.title {
            Some(s) => span_chars(b, s),
            None => Seq::empty(),
        },
        tags: tag_list(b, tags, tags.len() as int),
        snippet: snippet(span_chars(b, note.body)),
    }
}

pub open spec fn row_base(selected: bool) -> Style {
    if selected {
        Style::colored(Color::White).spec_on(Color::Rgb(60, 80, 110)).spec_bold()
    } else {
        style::bare()
    }
}

/// The row of a match: marker, date, and title, tags and snippet where there are
/// any.
pub open spec fn match_row(t: RowText, selected: bool) -> Seq<SpanView> {
    let base = row_base(selected);
    let head = seq![
        style::run(
            if selected {
                "\u{25b8} "@
            } else {
                "  "@
            },
            base,
        ),
        style::run(t.date, base.spec_fg(Color::Cyan)),
        style::run("  "@, base),
    ];
    let title = if t.title.len() > 0 {
        seq![style::run(t.title, base.spec_bold()), style::run("  "@, base)]
    } else {
        Seq::empty()
    };
    let tags = if t.tags.len() > 0 {
        seq![style::run(t.tags, base.spec_fg(Color::LightCyan)), style::run("  "@, base)]
    } else {
        Seq::empty()
    };
    let last = if t.snippet.len() > 0 {
        seq![style::run(t.snippet, base.spec_fg(Color::Gray).spec_dim())]
    } else {
        Seq::empty()
    };
    head + title + tags + last
}

fn find_snippet(body: &str) -> (r: String)
    ensures
        r@ == snippet(body@),
{
    let pieces = words::split_on(body, '\n');
    let mut i: usize = 0;
    while i < pieces.len()
        invariant
            i <= pieces.len(),
            words::texts(pieces@) == words::pieces(body@, '\n'),
            first_text(words::texts(pieces@), i as int) == first_text(words::texts(pieces@), 0),
        decreases pieces.len() - i,
    {
        proof {
            assert(words::texts(pieces@)[i as int] == pieces@[i as int]@);
        }
        let t = words::trimmed(pieces[i].as_str());
        if !t.is_empty() {
            if t.unicode_len() > 60 {
                return t.substring_char(0, 60).to_owned();
            }
            return t.to_owned();
        }
        i += 1;
    }
    let r = String::new();
    proof {
        assert(r@ =~= Seq::<char>::empty());
    }
    r
}

pub fn list_tags(buffer: &TextBuffer, tags: &Vec<TagSpan>) -> (r: String)
    requires
        forall|k: int| 0 <= k < tags.len() ==> (#[trigger] tags@[k]).name.lies_in(buffer.bytes()),
    ensures
        r@ == tag_list(buffer.bytes(), tags@, tags.len() as int),
{
    let mut out = String::new();
    let mut i: usize = 0;
    proof {
        assert(out@ =~= Seq::<char>::empty());
    }
    while i < tags.len()
        invariant
            i <= tags.len(),
            forall|k: int|
                0 <= k < tags.len() ==> (#[trigger] tags@[k]).name.lies_in(buffer.bytes()),
            out@ == tag_list(buffer.bytes(), tags@, i as int),
        decreases tags.len() - i,
    {
        if !out.as_str().is_empty() {
            out.append(" ");
        }
        out.append("#");
        let name = buffer.span_text(tags[i].name);
        proof {
            encode_utf8_decode_utf8(name@);
        }
        out.append(name);
        i += 1;
    }
    out
}

/// The tags of a note lie in the file.
pub proof fn lemma_note_tags(s: Seq<char>, tags: Seq<(usize, TagSpan)>, n: int)
    requires
        forall|k: int| 0 <= k < tags.len() ==> (#[trigger] tags[k]).1.name.lies_in(encode_utf8(s)),
    ensures
        forall|k: int|
            0 <= k < index::tags_of_note(tags, n).len() ==> (#[trigger] index::tags_of_note(
                tags,
                n,
            )[k]).name.lies_in(encode_utf8(s)),
    decreases tags.len(),
{
    if tags.len() > 0 {
        let front = tags.drop_last();
        assert forall|k: int| 0 <= k < front.len() implies (#[trigger] front[k]).1.name.lies_in(
            encode_utf8(s),
        ) by {
            assert(front[k] == tags[k]);
        }
        lemma_note_tags(s, front, n);
        let before = index::tags_of_note(front, n);
        let now = index::tags_of_note(tags, n);
        assert(tags[tags.len() - 1].1.name.lies_in(encode_utf8(s)));
        assert forall|k: int| 0 <= k < now.len() implies (#[trigger] now[k]).name.lies_in(
            encode_utf8(s),
        ) by {
            if k < before.len() {
                assert(now[k] == before[k]);
            }
        }
    }
}

fn note_row(buffer: &TextBuffer, index: &FileIndex, ni: usize, selected: bool) -> (r: StyledLine)
    requires
        buffer.wf(),
        index.of(buffer.bytes()),
        ni < parser::notes_of(buffer.bytes()).len(),
    ensures
        r@ == match_row(row_text(buffer.bytes(), ni as int), selected),
{
    let ghost b = buffer.bytes();
    let _n = buffer.len();
    proof {
        note_laws::law_note_spans_lie_in_file(buffer@, ni as int);
        note_laws::law_tags_lie_in_notes(buffer@, parser::notes_of(b).len() as int);
        lemma_note_tags(buffer@, parser::tags_of(b), ni as int);
    }
    let note: NoteSpan = index.result.notes[ni];
    let date: &str = match note.date {
        Some(s) => {
            let t = buffer.span_text(s);
            proof {
                encode_utf8_decode_utf8(t@);
            }
            t
        },
        None => "          ",
    };
    let title: &str = match note.title {
        Some(s) => {
            let t = buffer.span_text(s);
            proof {
                encode_utf8_decode_utf8(t@);
            }
            t
        },
        None => "",
    };
    proof {
        reveal_strlit("");
        assert(""@ =~= Seq::<char>::empty());
    }
    let tags = index.tags_for_note(ni);
    let tag_text = list_tags(buffer, &tags);
    let body = buffer.span_text(note.body);
    proof {
        encode_utf8_decode_utf8(body@);
    }
    let snip = find_snippet(body);
    let base = if selected {
        Style::fg(Color::White).with_bg(Color::Rgb(60, 80, 110)).with_bold()
    } else {
        Style::plain()
    };
    let mut line = StyledLine::new();
    if selected {
        line.push("\u{25b8} ", base);
    } else {
        line.push("  ", base);
    }
    line.push(date, base.with_fg(Color::Cyan));
    line.push("  ", base);
    if !title.is_empty() {
        line.push(title, base.with_bold());
        line.push("  ", base);
    }
    if !tag_text.as_str().is_empty() {
        line.push(tag_text.as_str(), base.with_fg(Color::LightCyan));
        line.push("  ", base);
    }
    if !snip.as_str().is_empty() {
        line.push(snip.as_str(), base.with_fg(Color::Gray).with_dim());
    }
    proof {
        assert(line@ =~= match_row(row_text(b, ni as int), selected));
    }
    line
}

/// What the panel shows.
pub struct FilterScreen {
    pub title: String,
    pub query_line: StyledLine,
    /// Shown in place of the list where nothing matches.
    pub message: Option<&'static str>,
    pub rows: Vec<StyledLine>,
    pub footer: &'static str,
    /// Cells before the terminal cursor in the query row.
    pub cursor_col: usize,
}

/// The first row shown, so that the selected one is in view.
pub open spec fn first_row(p: PanelView, height: int) -> int {
    if p.matches.len() > 0 && p.selected >= height {
        p.selected + 1 - height
    } else {
        0
    }
}

/// How many rows are shown.
pub open spec fn row_count(p: PanelView, height: int) -> int {
    let rest = p.matches.len() - first_row(p, height);
    if rest < 0 {
        0
    } else if rest < height {
        rest
    } else {
        height
    }
}

/// The rows of the `n` matches from `from` on. A match that is no note of the text any
/// more has none.
pub open spec fn panel_rows(p: PanelView, b: Seq<u8>, from: int, n: int) -> Seq<Seq<SpanView>>
    decreases n,
{
    if n <= 0 {
        Seq::empty()
    } else {
        let i = from + n - 1;
        let before = panel_rows(p, b, from, n - 1);
        if p.matches[i] < parser::notes_of(b).len() {
            before.push(match_row(row_text(b, p.matches[i] as int), i == p.selected))
        } else {
            before
        }
    }
}

impl PanelView {
    pub open spec fn title(self) -> Seq<char> {
        " filter \u{b7} "@ + words::decimal(self.matches.len()) + " match"@ + (
        if self.matches.len() == 1 {
            ""@
        } else {
            "es"@
        }) + " "@
    }

    pub open spec fn message(self) -> Option<&'static str> {
        if self.matches.len() > 0 {
            None
        } else if words::trim(self.query.chars).len() == 0 {
            Some("  Type a query (e.g. tag:oci, title:standup, date:2026-05)")
        } else {
            Some("  No matches")
        }
    }
}

impl FilterPanelState {
    /// What the panel shows, with a list of `list_height` rows.
    pub fn screen(&self, buffer: &TextBuffer, list_height: usize) -> (r: FilterScreen)
        requires
            buffer.wf(),
            self.query.wf(),
        ensures
            r.title@ == self@.title(),
            r.query_line@ == seq![
                style::run("Query: "@, Style::colored(Color::Yellow)),
                style::raw(self@.query.chars),
            ],
            r.message == self@.message(),
            style::lines_view(r.rows@) == panel_rows(
                self@,
                buffer.bytes(),
                first_row(self@, list_height as int),
                row_count(self@, list_height as int),
            ),
            r.footer@
                == " \u{2191}\u{2193} pick \u{b7} Enter commit \u{b7} Esc cancel \u{b7} edit query above "@,
            r.cursor_col == if self@.query.at + 7 <= usize::MAX {
                self@.query.at + 7
            } else {
                usize::MAX as int
            },
    {
        let count = self.matches.len();
        let mut title = String::from_str(" filter \u{b7} ");
        words::push_decimal(&mut title, count);
        title.append(" match");
        if count == 1 {
            title.append("");
        } else {
            title.append("es");
        }
        title.append(" ");
        let mut query_line = StyledLine::new();
        query_line.push("Query: ", Style::fg(Color::Yellow));
        query_line.push_raw(self.query.text.as_str());
        proof {
            assert(query_line@ =~= seq![
                style::run("Query: "@, Style::colored(Color::Yellow)),
                style::raw(self@.query.chars),
            ]);
        }
        let message = if count > 0 {
            None
        } else if words::trimmed(self.query.text.as_str()).is_empty() {
            Some("  Type a query (e.g. tag:oci, title:standup, date:2026-05)")
        } else {
            Some("  No matches")
        };
        let index = FileIndex::build(buffer);
        let first: usize = if count > 0 && self.selected >= list_height && list_height > 0 {
            self.selected - list_height + 1
        } else {
            0
        };
        let mut rows: Vec<StyledLine> = Vec::new();
        let mut i: usize = first;
        let notes = index.result.notes.len();
        proof {
            assert(style::lines_view(rows@) =~= panel_rows(self@, buffer.bytes(), first as int, 0));
        }
        while i < count && i - first < list_height
            invariant
                count == self.matches.len(),
                buffer.wf(),
                index.of(buffer.bytes()),
                notes == parser::notes_of(buffer.bytes()).len(),
                list_height > 0 ==> first == first_row(self@, list_height as int),
                first <= i,
                i - first <= list_height,
                i <= count || i == first,
                style::lines_view(rows@) == panel_rows(
                    self@,
                    buffer.bytes(),
                    first as int,
                    i - first,
                ),
            decreases count - i,
        {
            let ghost before = style::lines_view(rows@);
            if self.matches[i] < notes {
                let row = note_row(buffer, &index, self.matches[i], i == self.selected);
                rows.push(row);
                proof {
                    assert(style::lines_view(rows@) =~= before.push(row@));
                }
            }
            i += 1;
        }
        proof {
            let n = row_count(self@, list_height as int);
            if n == 0 {
                assert(panel_rows(
                    self@,
                    buffer.bytes(),
                    first_row(self@, list_height as int),
                    0,
                ).len() == 0);
            }
        }
        let at = self.query.chars_before_cursor();
        let cursor_col = if at <= usize::MAX - 7 {
            at + 7
        } else {
            usize::MAX
        };
        FilterScreen {
            title,
            query_line,
            message,
            rows,
            footer: " \u{2191}\u{2193} pick \u{b7} Enter commit \u{b7} Esc cancel \u{b7} edit query above ",
            cursor_col,
        }
    }
}

// ---------------------------------------------------------------------------
// Laws
// ---------------------------------------------------------------------------

/// The panel never changes the text or what can be undone, whatever the key.
pub proof fn law_filter_keeps_text(
    p: PanelView,
    e: EditorView,
    filter: Option<Seq<char>>,
    key: Key,
)
    ensures
        p.after(e, filter, key).1.bytes == e.bytes,
        p.after(e, filter, key).1.stacks == e.stacks,
        p.after(e, filter, key).1.dirty == e.dirty,
        p.cancelled(e).bytes == e.bytes,
        p.cancelled(e).dirty == e.dirty,
{
}

/// Cancelling the panel brings cursor and scroll back to where they were when it
/// opened, whatever keys came between: every key keeps what was saved.
pub proof fn law_cancel_restores(
    e: EditorView,
    f: EditorView,
    p: PanelView,
    filter: Option<Seq<char>>,
    key: Key,
)
    requires
        editing::state_ok(e),
        f.bytes == e.bytes,
        p.saved == (e.line, e.byte, e.scroll),
    ensures
        p.after(f, filter, key).0.saved == p.saved,
        p.after(f, filter, key).1.bytes == e.bytes,
        p.cancelled(f).line == e.line,
        p.cancelled(f).byte == e.byte,
        p.cancelled(f).scroll == e.scroll,
        PanelView::opened(e, filter).saved == (e.line, e.byte, e.scroll),
{
}

} // verus!
