//! What the application does with keys, commands and events, as functions from
//! state to state.

use vstd::prelude::*;
use vstd::utf8::*;

use crate::ai_panel;
use crate::ai_panel::{AiOutcome, AiView};
use crate::command_bar;
use crate::command_bar::BarView;
use crate::commands;
use crate::current_note;
use crate::editing;
use crate::editing::EditorView;
use crate::filter_panel;
use crate::filter_panel::PanelView;
use crate::help;
use crate::keys;
use crate::keys::{Key, KeyCode};
use crate::mode;
use crate::mode::{ConflictKind, DownloadView, ModeView, SpellScope};
use crate::numbers;
use crate::persistence;
use crate::persistence::{ConflictStatus, FileSnapshot};
use crate::search_mode::SearchView;
use crate::spans::Span;
use crate::spell;
use crate::spell::EngineView;
use crate::spell_wizard;
use crate::spell_wizard::WizardView;
use crate::sync;
use crate::sync::{PullView, PushView, StateView};
use crate::todo_overlay;
use crate::todo_overlay::OverlayView;
use crate::words;

verus! {

/// The state of the application.
#[verifier::ext_equal]
pub struct AppView {
    pub editor: EditorView,
    pub file: Seq<char>,
    pub mode: ModeView,
    pub status: Option<Seq<char>>,
    /// The file as it was last seen on disk.
    pub snapshot: Option<FileSnapshot>,
    /// Quitting was refused once because of unsaved changes.
    pub pending_quit: bool,
    /// Commands of this session, newest last.
    pub history: Seq<Seq<char>>,
    pub filter: Option<Seq<char>>,
    pub engine: Option<EngineView>,
    pub sync: StateView,
    pub repo: bool,
    /// A background run is in flight.
    pub busy: bool,
    /// The pull in flight is the first half of `:sync`.
    pub push_next: bool,
    pub push_on_save: bool,
}

/// What the application asks for beyond its own state.
#[verifier::ext_equal]
pub enum ActionView {
    Stay,
    Quit,
    Save(bool),
    Write,
    WriteCopy,
    Reload,
    Open(Seq<char>),
    Resolve(bool),
    Settle,
    Pull,
    Copy(Seq<char>),
    Cut(Seq<char>),
    Paste,
    OpenAi,
    AskAi(Seq<char>, Seq<char>),
    CheckSpelling(SpellScope),
    Download,
    AddWord(Seq<char>),
}

impl AppView {
    pub open spec fn said(self, s: Seq<char>) -> AppView {
        AppView { status: Some(s), ..self }
    }

    pub open spec fn in_mode(self, m: ModeView) -> AppView {
        AppView { mode: m, ..self }
    }

    pub open spec fn with_editor(self, e: EditorView) -> AppView {
        AppView { editor: e, ..self }
    }
}

// ---------------------------------------------------------------------------
// Plain editing
// ---------------------------------------------------------------------------

/// Keys that move the cursor.
pub open spec fn is_movement(code: KeyCode) -> bool {
    match code {
        KeyCode::Left => true,
        KeyCode::Right => true,
        KeyCode::Up => true,
        KeyCode::Down => true,
        KeyCode::Home => true,
        KeyCode::End => true,
        KeyCode::PageUp => true,
        KeyCode::PageDown => true,
        _ => false,
    }
}

/// Going to another note.
pub open spec fn is_note_jump(key: Key) -> bool {
    key.mods.ctrl && (key.code == KeyCode::Char('j') || key.code == KeyCode::Char('k'))
}

/// The selection before the key acts: moving with Shift begins or extends one;
/// moving without, Esc, and going to another note end it.
pub open spec fn anchored(e: EditorView, key: Key) -> EditorView {
    if is_movement(key.code) {
        if key.mods.shift {
            EditorView {
                anchor: if e.anchor is Some {
                    e.anchor
                } else {
                    Some((e.line, e.byte))
                },
                ..e
            }
        } else {
            EditorView { anchor: None, ..e }
        }
    } else if key.code == KeyCode::Esc || is_note_jump(key) {
        EditorView { anchor: None, ..e }
    } else {
        e
    }
}

/// Ctrl+Q: the one key that keeps the message and the warning.
pub open spec fn is_quit_key(key: Key) -> bool {
    key.mods.only_ctrl() && key.code == KeyCode::Char('q')
}

pub open spec fn begun(v: AppView, key: Key) -> AppView {
    let w = if is_quit_key(key) {
        v
    } else {
        AppView { status: None, pending_quit: false, ..v }
    };
    w.with_editor(anchored(w.editor, key))
}

pub open spec fn broken(e: EditorView) -> EditorView {
    EditorView { stacks: e.stacks.broken(), ..e }
}

/// Rows that a page key moves by.
pub open spec fn page(e: EditorView) -> int {
    if e.height > 2 {
        e.height - 2
    } else {
        0
    }
}

/// What a key that moves or edits does to the text.
#[verifier::opaque]
pub open spec fn keyed(e: EditorView, key: Key, stamp: Seq<char>) -> EditorView {
    match key.code {
        KeyCode::Down => editing::moved_down(broken(e), 1),
        KeyCode::Up => editing::moved_up(broken(e), 1),
        KeyCode::Left => editing::with_column(editing::moved_left(broken(e))),
        KeyCode::Right => editing::with_column(editing::moved_right(broken(e))),
        KeyCode::PageDown => editing::moved_down(broken(e), page(e)),
        KeyCode::PageUp => editing::moved_up(broken(e), page(e)),
        KeyCode::Home => editing::with_column(editing::at(broken(e), e.line, 0)),
        KeyCode::End => editing::with_column(
            editing::at(broken(e), e.line, crate::positions::line_len(e.bytes, e.line)),
        ),
        KeyCode::Enter => if editing::unstamped(editing::cursor_line(e)) {
            editing::expanded(e, stamp)
        } else {
            editing::newline_typed(e)
        },
        KeyCode::Backspace => editing::deleted_back(e),
        KeyCode::Delete => editing::deleted_forward(e),
        KeyCode::Tab => editing::typed(e, "    "@),
        _ => match keys::plain_char(key) {
            Some(c) => editing::typed(e, seq![c]),
            None => e,
        },
    }
}

pub open spec fn undo_text(n: int) -> Seq<char> {
    if n == 0 {
        "Nothing to undo"@
    } else if n == 1 {
        "Undo  (nothing more)"@
    } else {
        "Undo  ("@ + words::decimal((n - 1) as nat) + " more)"@
    }
}

pub open spec fn redo_text(n: int) -> Seq<char> {
    if n == 0 {
        "Nothing to redo"@
    } else if n == 1 {
        "Redo"@
    } else {
        "Redo  ("@ + words::decimal((n - 1) as nat) + " more)"@
    }
}

/// The cursor at the next or the previous match of the active filter.
pub open spec fn match_jumped(v: AppView, forward: bool) -> AppView {
    match v.filter {
        None => v.said("No active filter"@),
        Some(q) => {
            let list = commands::filter_list(v.editor.bytes, q);
            if list.len() == 0 {
                v.said("[filter: "@ + q + "] no matches"@)
            } else {
                v.with_editor(filter_panel::at_match(v.editor, list, forward))
            }
        },
    }
}

/// The cursor at the next or the previous note; among the filter's matches while a
/// filter is active.
pub open spec fn note_jumped(v: AppView, forward: bool) -> AppView {
    let w = v.with_editor(broken(v.editor));
    if w.filter is Some {
        match_jumped(w, forward)
    } else {
        let e = w.editor;
        let target = if forward {
            editing::delimiter_from(e.bytes, e.line + 1)
        } else {
            editing::delimiter_before(e.bytes, e.line)
        };
        match target {
            Some(l) => w.with_editor(
                editing::in_view(editing::with_column(editing::at(e, l, 0))),
            ),
            None => w.said(
                if forward {
                    "No next note"@
                } else {
                    "No previous note"@
                },
            ),
        }
    }
}

/// The text that is selected, where any is.
pub open spec fn selected_chars(e: EditorView) -> Option<Seq<char>> {
    match editing::selection(e) {
        Some((a, b)) => Some(decode_utf8(e.bytes.subrange(a, b))),
        None => None,
    }
}

/// The filter panel opened: the editor follows its first match.
pub open spec fn filter_opened(v: AppView) -> AppView {
    let p = PanelView::opened(v.editor, v.filter);
    AppView {
        editor: p.followed(v.editor),
        mode: ModeView::FilterOverlay(p),
        filter: filter_panel::filter_of(p.query.chars),
        ..v
    }
}

/// The todo overlay opened: the editor follows its first todo.
pub open spec fn todos_opened(v: AppView) -> AppView {
    let p = OverlayView::opened(v.editor);
    AppView { editor: p.followed(v.editor), mode: ModeView::TodoOverlay(p), ..v }
}

/// What Ctrl with a letter does.
#[verifier::opaque]
pub open spec fn control_key(v: AppView, c: char) -> (AppView, ActionView) {
    if c == 'q' {
        if v.editor.dirty && !v.pending_quit {
            (
                (AppView { pending_quit: true, ..v }).said(
                    "Unsaved changes \u{2014} Ctrl+S to save, Ctrl+Q again to discard"@,
                ),
                ActionView::Stay,
            )
        } else {
            (v, ActionView::Quit)
        }
    } else if c == 's' {
        (v, ActionView::Save(false))
    } else if c == 'o' {
        (v.in_mode(ModeView::OpenPrompt(Seq::empty())), ActionView::Stay)
    } else if c == 'z' {
        (
            v.with_editor(editing::undone(v.editor)).said(
                undo_text(v.editor.stacks.undo.len() as int),
            ),
            ActionView::Stay,
        )
    } else if c == 'y' {
        (
            v.with_editor(editing::redone(v.editor)).said(
                redo_text(v.editor.stacks.redo.len() as int),
            ),
            ActionView::Stay,
        )
    } else if c == 'f' {
        (v.in_mode(ModeView::Search(SearchView::blank())), ActionView::Stay)
    } else if c == 'l' {
        (v, ActionView::OpenAi)
    } else if c == 'c' {
        match selected_chars(v.editor) {
            Some(t) => (v, ActionView::Copy(t)),
            None => (v.said("Nothing selected"@), ActionView::Stay),
        }
    } else if c == 'x' {
        match selected_chars(v.editor) {
            Some(t) => (v, ActionView::Cut(t)),
            None => (v.said("Nothing selected"@), ActionView::Stay),
        }
    } else if c == 'v' {
        (v, ActionView::Paste)
    } else if c == ';' {
        (v.in_mode(ModeView::CommandBar(BarView::blank())), ActionView::Stay)
    } else if c == 'j' {
        (note_jumped(v, true), ActionView::Stay)
    } else if c == 'k' {
        (note_jumped(v, false), ActionView::Stay)
    } else if c == 'p' {
        (filter_opened(v), ActionView::Stay)
    } else {
        (v, ActionView::Stay)
    }
}

/// What a function key does.
#[verifier::opaque]
pub open spec fn function_key(v: AppView, n: u8, shift: bool) -> (AppView, ActionView) {
    if n == 7 {
        (v, ActionView::CheckSpelling(mode::default_scope(v.editor)))
    } else if n == 10 {
        (v.in_mode(ModeView::CommandBar(BarView::blank())), ActionView::Stay)
    } else if n == 8 {
        (todos_opened(v), ActionView::Stay)
    } else if n == 1 {
        (v.in_mode(ModeView::Help(0)), ActionView::Stay)
    } else if n == 4 {
        (match_jumped(v.with_editor(broken(v.editor)), !shift), ActionView::Stay)
    } else {
        (v, ActionView::Stay)
    }
}

/// What a key does while no dialog is open.
#[verifier::opaque]
pub open spec fn normal_key(v: AppView, key: Key, stamp: Seq<char>) -> (AppView, ActionView) {
    let w = begun(v, key);
    match key.code {
        KeyCode::Char(c) => if key.mods.only_ctrl() {
            control_key(w, c)
        } else {
            (w.with_editor(keyed(w.editor, key, stamp)), ActionView::Stay)
        },
        KeyCode::F(n) => function_key(w, n, key.mods.shift),
        _ => (w.with_editor(keyed(w.editor, key, stamp)), ActionView::Stay),
    }
}

// ---------------------------------------------------------------------------
// Dialogs and prompts
// ---------------------------------------------------------------------------

/// A letter, large or small.
pub open spec fn letter_key(code: KeyCode, small: char, large: char) -> bool {
    code == KeyCode::Char(small) || code == KeyCode::Char(large)
}

/// What a key does while a conflict waits for an answer.
#[verifier::opaque]
pub open spec fn conflict_key(v: AppView, kind: ConflictKind, code: KeyCode) -> (
    AppView,
    ActionView,
) {
    let w = v.in_mode(ModeView::Normal);
    if kind == ConflictKind::SyncRebase {
        if letter_key(code, 'k', 'K') || letter_key(code, 'r', 'R') {
            (
                w,
                if v.repo {
                    ActionView::Resolve(letter_key(code, 'k', 'K'))
                } else {
                    ActionView::Stay
                },
            )
        } else if letter_key(code, 'e', 'E') {
            (
                w.said("Resolve conflict markers in the editor, then run :sync"@),
                ActionView::Reload,
            )
        } else if letter_key(code, 'c', 'C') || code == KeyCode::Esc {
            (w, ActionView::Stay)
        } else {
            (v, ActionView::Stay)
        }
    } else if letter_key(code, 'o', 'O') {
        (w, ActionView::Write)
    } else if letter_key(code, 's', 'S') && kind == ConflictKind::Changed {
        (w, ActionView::WriteCopy)
    } else if letter_key(code, 'r', 'R') {
        if kind == ConflictKind::Changed {
            (w, ActionView::Reload)
        } else {
            (
                (AppView {
                    editor: EditorView { dirty: false, ..w.editor },
                    snapshot: None,
                    ..w
                }).said("File was deleted; save again to re-create it"@),
                ActionView::Stay,
            )
        }
    } else if letter_key(code, 'c', 'C') || code == KeyCode::Esc {
        (w.said("Save cancelled"@), ActionView::Stay)
    } else {
        (v, ActionView::Stay)
    }
}

/// What a key does while a file name is asked for.
#[verifier::opaque]
pub open spec fn open_prompt_key(v: AppView, input: Seq<char>, key: Key) -> (AppView, ActionView) {
    match key.code {
        KeyCode::Esc => (
            v.in_mode(ModeView::Normal).said("Open cancelled"@),
            ActionView::Stay,
        ),
        KeyCode::Backspace => (
            v.in_mode(
                ModeView::OpenPrompt(
                    if input.len() > 0 {
                        input.drop_last()
                    } else {
                        input
                    },
                ),
            ),
            ActionView::Stay,
        ),
        KeyCode::Enter => if words::trim(input).len() == 0 {
            (v.in_mode(ModeView::Normal).said("Open cancelled"@), ActionView::Stay)
        } else {
            (v.in_mode(ModeView::Normal), ActionView::Open(words::trim(input)))
        },
        KeyCode::Char(c) => if key.mods.ctrl || key.mods.alt {
            (v, ActionView::Stay)
        } else {
            (v.in_mode(ModeView::OpenPrompt(input.push(c))), ActionView::Stay)
        },
        _ => (v, ActionView::Stay),
    }
}

/// What a key does while a download is offered.
#[verifier::opaque]
pub open spec fn dict_prompt_key(v: AppView, scope: SpellScope, code: KeyCode) -> (
    AppView,
    ActionView,
) {
    if letter_key(code, 'y', 'Y') || code == KeyCode::Enter {
        (
            v.in_mode(
                ModeView::SpellDownload(DownloadView { scope, tick: 0, error: None }),
            ),
            ActionView::Download,
        )
    } else if letter_key(code, 'n', 'N') || code == KeyCode::Esc {
        (v.in_mode(ModeView::Normal).said("Spell check cancelled"@), ActionView::Stay)
    } else {
        (v, ActionView::Stay)
    }
}

/// What a key does while a download runs or has failed.
#[verifier::opaque]
pub open spec fn download_key(v: AppView, d: DownloadView, code: KeyCode) -> (AppView, ActionView) {
    if code == KeyCode::Esc {
        let w = v.in_mode(ModeView::Normal);
        (
            if d.error is Some {
                w
            } else {
                w.said("Download cancelled"@)
            },
            ActionView::Stay,
        )
    } else {
        (v, ActionView::Stay)
    }
}

// ---------------------------------------------------------------------------
// Overlays
// ---------------------------------------------------------------------------

/// What a key does while a search is on.
#[verifier::opaque]
pub open spec fn search_key(v: AppView, s: SearchView, key: Key) -> (AppView, ActionView) {
    if key.code == KeyCode::Esc {
        (v.in_mode(ModeView::Normal), ActionView::Stay)
    } else {
        let (t, e) = s.after(v.editor, key);
        (v.with_editor(e).in_mode(ModeView::Search(t)), ActionView::Stay)
    }
}

/// What a key does while the todo overlay is open.
#[verifier::opaque]
pub open spec fn todo_key(v: AppView, s: OverlayView, key: Key) -> (AppView, ActionView) {
    if todo_overlay::cancels(key) {
        (v.with_editor(s.cancelled(v.editor)).in_mode(ModeView::Normal), ActionView::Stay)
    } else if key.code == KeyCode::Enter {
        (
            v.with_editor(editing::with_column(v.editor)).in_mode(ModeView::Normal),
            ActionView::Stay,
        )
    } else {
        let (t, e) = s.after(v.editor, key);
        (v.with_editor(e).in_mode(ModeView::TodoOverlay(t)), ActionView::Stay)
    }
}

/// What a key does while the filter panel is open.
#[verifier::opaque]
pub open spec fn filter_key(v: AppView, s: PanelView, key: Key) -> (AppView, ActionView) {
    if key.code == KeyCode::Esc {
        (v.with_editor(s.cancelled(v.editor)).in_mode(ModeView::Normal), ActionView::Stay)
    } else if key.code == KeyCode::Enter {
        (
            v.with_editor(editing::with_column(v.editor)).in_mode(ModeView::Normal),
            ActionView::Stay,
        )
    } else {
        let (t, e, f) = s.after(v.editor, v.filter, key);
        (
            AppView { editor: e, mode: ModeView::FilterOverlay(t), filter: f, ..v },
            ActionView::Stay,
        )
    }
}

/// What a key does while the help is open.
#[verifier::opaque]
pub open spec fn help_key(v: AppView, scroll: int, key: Key) -> (AppView, ActionView) {
    match help::scrolled(scroll, help::max_scroll(v.editor.height), key) {
        Some(n) => (v.in_mode(ModeView::Help(n)), ActionView::Stay),
        None => (v.in_mode(ModeView::Normal), ActionView::Stay),
    }
}

/// What a key does while the AI panel is open.
#[verifier::opaque]
pub open spec fn ai_key(v: AppView, s: AiView, key: Key) -> (AppView, ActionView) {
    let (t, outcome) = s.after(key);
    match outcome {
        AiOutcome::Stay => (v.in_mode(ModeView::AiPanel(t)), ActionView::Stay),
        AiOutcome::Close => (v.in_mode(ModeView::Normal), ActionView::Stay),
        AiOutcome::Submit => if t.loading {
            (v.in_mode(ModeView::AiPanel(t)), ActionView::Stay)
        } else if words::trim(t.prompt.chars).len() == 0 {
            (
                v.in_mode(ModeView::AiPanel(AiView { error: Some("empty prompt"@), ..t })),
                ActionView::Stay,
            )
        } else {
            (
                v.in_mode(ModeView::AiPanel(t)),
                ActionView::AskAi(t.prompt.chars, t.original),
            )
        },
        AiOutcome::Accept => if t.candidate is Some && !t.loading {
            (
                v.with_editor(
                    ai_panel::accepted(v.editor, t.range, t.candidate->Some_0),
                ).in_mode(ModeView::Normal),
                ActionView::Stay,
            )
        } else {
            (v.in_mode(ModeView::AiPanel(t)), ActionView::Stay)
        },
    }
}

/// The AI panel opened on the selection or the body of the current note.
pub open spec fn ai_opened(e: EditorView, last_prompt: Option<Seq<char>>) -> AiView {
    let (a, b) = current_note::target_of(e);
    AiView::opened(
        match last_prompt {
            Some(p) => p,
            None => Seq::empty(),
        },
        decode_utf8(e.bytes.subrange(a, b)),
        Span { start: a as usize, end: b as usize },
    )
}

/// The wizard at its next misspelling, or closed with a message.
pub open spec fn wizard_stepped(
    v: AppView,
    next: Option<WizardView>,
    processed: int,
    e: EditorView,
) -> AppView {
    match next {
        Some(w) => v.with_editor(spell_wizard::shown_at(e, w.span.0)).in_mode(
            ModeView::SpellCheck(w),
        ),
        None => v.with_editor(e).in_mode(ModeView::Normal).said(
            spell_wizard::closing_text(spell_wizard::one_more(processed)),
        ),
    }
}

/// The wizard after a word was added to the user dictionary.
pub open spec fn wizard_went_on(v: AppView, w: WizardView, engine: EngineView) -> AppView {
    wizard_stepped(
        v,
        spell_wizard::advanced(w, v.editor.bytes, engine, w.span.1),
        w.processed,
        v.editor,
    )
}

/// What a key does while the spell-check wizard is open.
#[verifier::opaque]
pub open spec fn spell_key(v: AppView, w: WizardView, key: Key) -> (AppView, ActionView) {
    let engine = v.engine->Some_0;
    if key.code == KeyCode::Esc {
        (v.in_mode(ModeView::Normal), ActionView::Stay)
    } else if key.code == KeyCode::Char('a') {
        if words::trim(w.word).len() == 0 {
            (wizard_went_on(v, w, engine), ActionView::Stay)
        } else {
            let line = words::lower(words::trim(w.word));
            (
                AppView {
                    engine: Some(EngineView { user: engine.user.insert(line), ..engine }),
                    ..v
                },
                ActionView::AddWord(line),
            )
        }
    } else if key.code == KeyCode::Char('s') {
        let skipping = WizardView { skipped: w.skipped.insert(words::lower(w.word)), ..w };
        (
            wizard_stepped(
                v,
                spell_wizard::advanced(skipping, v.editor.bytes, engine, w.span.1),
                w.processed,
                v.editor,
            ),
            ActionView::Stay,
        )
    } else {
        match spell_wizard::picked(w, key) {
            Some(s) => {
                let e = spell_wizard::fixed(w, v.editor, s);
                (
                    wizard_stepped(
                        v,
                        spell_wizard::advanced(
                            spell_wizard::after_fix(w, s),
                            e.bytes,
                            engine,
                            w.span.0 + encode_utf8(spell_wizard::cased(w.word, s)).len(),
                        ),
                        w.processed,
                        e,
                    ),
                    ActionView::Stay,
                )
            },
            None => (
                v.in_mode(ModeView::SpellCheck(spell_wizard::browsed(w, key))),
                ActionView::Stay,
            ),
        }
    }
}

// ---------------------------------------------------------------------------
// Commands
// ---------------------------------------------------------------------------

/// The verb of a command: what stands before its first space.
pub open spec fn verb_of(cmd: Seq<char>) -> Seq<char> {
    cmd.subrange(0, words::piece_end(cmd, 0, ' '))
}

/// The argument of a command: what stands behind its first space.
pub open spec fn argument_of(cmd: Seq<char>) -> Seq<char> {
    let n = words::piece_end(cmd, 0, ' ');
    if n < cmd.len() {
        words::trim(cmd.subrange(n + 1, cmd.len() as int))
    } else {
        Seq::empty()
    }
}

/// The line that `:goto` names.
pub open spec fn line_named(arg: Seq<char>) -> Option<int> {
    match numbers::within(numbers::unsigned(arg), 0, usize::MAX as int) {
        Some(n) => if n >= 1 {
            Some(n)
        } else {
            None
        },
        None => None,
    }
}

pub open spec fn went_to(v: AppView, arg: Seq<char>) -> AppView {
    match line_named(arg) {
        Some(n) => {
            let count = editing::line_count(v.editor);
            let l = if n - 1 < count {
                n - 1
            } else {
                count - 1
            };
            v.with_editor(
                editing::in_view(editing::with_column(editing::at(v.editor, l, 0))),
            ).said("Line "@ + words::decimal(n as nat))
        },
        None => v.said(
            if arg.len() == 0 {
                "Usage: :goto <line>"@
            } else {
                "Invalid line number: '"@ + arg + "'"@
            },
        ),
    }
}

/// `:sync`: a pull, and a push after it. In a conflict it asks whether the file
/// has been settled by hand.
pub open spec fn synced(v: AppView) -> (AppView, ActionView) {
    if !v.repo {
        (v.said("Sync disabled (not in a git repo)"@), ActionView::Stay)
    } else if v.sync is Conflict {
        (v, ActionView::Settle)
    } else if v.busy {
        (v.said("Sync already in progress"@), ActionView::Stay)
    } else {
        (
            AppView { sync: StateView::Pulling, busy: true, push_next: true, ..v },
            ActionView::Pull,
        )
    }
}

/// What a command does.
#[verifier::opaque]
pub open spec fn run_command(v: AppView, cmd: Seq<char>) -> (AppView, ActionView) {
    let verb = verb_of(cmd);
    let arg = argument_of(cmd);
    if verb == "w"@ || verb == "write"@ {
        (v, ActionView::Save(false))
    } else if verb == "q"@ || verb == "quit"@ {
        if v.editor.dirty {
            (
                v.said(
                    "Unsaved changes \u{2014} :w to save, :q! to discard, :wq to save+quit"@,
                ),
                ActionView::Stay,
            )
        } else {
            (v, ActionView::Quit)
        }
    } else if verb == "q!"@ || verb == "quit!"@ {
        (v, ActionView::Quit)
    } else if verb == "wq"@ || verb == "x"@ {
        (v, ActionView::Save(true))
    } else if verb == "goto"@ || verb == "go"@ {
        (went_to(v, arg), ActionView::Stay)
    } else if verb == "todo"@ {
        (todos_opened(v), ActionView::Stay)
    } else if verb == "ai"@ {
        (v, ActionView::OpenAi)
    } else if verb == "filter"@ {
        (
            filter_opened(
                if arg.len() > 0 {
                    AppView { filter: Some(arg), ..v }
                } else {
                    v
                },
            ),
            ActionView::Stay,
        )
    } else {
        run_other(v, verb, arg)
    }
}

/// What the other verbs do.
pub open spec fn run_other(v: AppView, verb: Seq<char>, arg: Seq<char>) -> (AppView, ActionView) {
    if verb == "next"@ {
        (match_jumped(v, true), ActionView::Stay)
    } else if verb == "prev"@ {
        (match_jumped(v, false), ActionView::Stay)
    } else if verb == "clear"@ {
        (
            (AppView { filter: None, ..v }).said(
                if v.filter is Some {
                    "Filter cleared"@
                } else {
                    "No active filter"@
                },
            ),
            ActionView::Stay,
        )
    } else if verb == "help"@ {
        (v.in_mode(ModeView::Help(0)), ActionView::Stay)
    } else if verb == "sync"@ {
        synced(v)
    } else if verb == "spell"@ {
        (
            v,
            ActionView::CheckSpelling(
                if arg == "all"@ {
                    SpellScope::WholeFile
                } else {
                    mode::default_scope(v.editor)
                },
            ),
        )
    } else if verb == "set"@ {
        (v.said("No configurable settings yet"@), ActionView::Stay)
    } else {
        (v.said("Unknown command: :"@ + verb), ActionView::Stay)
    }
}

/// What a key does while the command bar is open.
#[verifier::opaque]
pub open spec fn bar_key(v: AppView, s: BarView, key: Key) -> (AppView, ActionView) {
    if command_bar::cancels(key) {
        (v.in_mode(ModeView::Normal).said("Cancelled"@), ActionView::Stay)
    } else if key.code is Enter {
        let cmd = words::trim(s.input);
        let w = v.in_mode(ModeView::Normal);
        if cmd.len() == 0 {
            (w, ActionView::Stay)
        } else {
            run_command(AppView { history: command_bar::remembered(w.history, cmd), ..w }, cmd)
        }
    } else {
        (v.in_mode(ModeView::CommandBar(s.after(v.history, key))), ActionView::Stay)
    }
}

/// What a key does.
pub open spec fn after_key(v: AppView, key: Key, stamp: Seq<char>) -> (AppView, ActionView) {
    match v.mode {
        ModeView::Normal => normal_key(v, key, stamp),
        ModeView::Conflict(k) => conflict_key(v, k, key.code),
        ModeView::OpenPrompt(s) => open_prompt_key(v, s, key),
        ModeView::Search(s) => search_key(v, s, key),
        ModeView::CommandBar(s) => bar_key(v, s, key),
        ModeView::TodoOverlay(s) => todo_key(v, s, key),
        ModeView::AiPanel(s) => ai_key(v, s, key),
        ModeView::SpellDictPrompt(s) => dict_prompt_key(v, s, key.code),
        ModeView::SpellDownload(d) => download_key(v, d, key.code),
        ModeView::SpellCheck(w) => spell_key(v, w, key),
        ModeView::FilterOverlay(s) => filter_key(v, s, key),
        ModeView::Help(n) => help_key(v, n, key),
    }
}

// ---------------------------------------------------------------------------
// Paste
// ---------------------------------------------------------------------------

/// Every line break as a space.
pub open spec fn unbroken(s: Seq<char>) -> Seq<char> {
    s.map_values(
        |c: char|
            if c == '\r' || c == '\n' {
                ' '
            } else {
                c
            },
    )
}

/// A pasted text on one line, for an input.
pub open spec fn one_line(s: Seq<char>) -> Seq<char> {
    words::trim(unbroken(s))
}

/// A pasted text with the line endings of the file.
pub open spec fn matched_endings(e: EditorView, s: Seq<char>) -> Seq<char> {
    persistence::normalised_from(s, 0, editing::newline_of(e))
}

/// A character that may be gathered with the next ones into one insertion: one that
/// goes into the text.
pub open spec fn gathered(v: AppView, key: Key) -> Option<char> {
    if v.mode is Normal {
        keys::plain_char(key)
    } else {
        None
    }
}

/// Characters that were gathered go into the text.
pub open spec fn after_burst(v: AppView, s: Seq<char>) -> AppView {
    if v.mode is Normal {
        v.with_editor(editing::typed(v.editor, s))
    } else {
        v
    }
}

/// What a text pasted by the terminal does: it goes into the text, or on one line
/// into an input; other dialogs and overlays ignore it.
pub open spec fn after_paste(v: AppView, s: Seq<char>) -> AppView {
    let t = matched_endings(v.editor, s);
    match v.mode {
        ModeView::Normal => v.with_editor(editing::pasted(v.editor, t)),
        ModeView::OpenPrompt(i) => v.in_mode(ModeView::OpenPrompt(i + one_line(t))),
        ModeView::Search(q) => {
            let found = SearchView::found(q.query + one_line(t), v.editor);
            v.with_editor(found.focused(v.editor)).in_mode(ModeView::Search(found))
        },
        ModeView::CommandBar(b) => v.in_mode(
            ModeView::CommandBar(BarView { input: b.input + one_line(t), ..b }),
        ),
        ModeView::AiPanel(a) => v.in_mode(
            ModeView::AiPanel(AiView { prompt: a.prompt.inserted(one_line(t)), ..a }),
        ),
        _ => v,
    }
}

pub open spec fn count_text(verb: Seq<char>, n: int) -> Seq<char> {
    verb + words::decimal(n as nat) + if n == 1 {
        " character"@
    } else {
        " characters"@
    }
}

/// What the clipboard had goes into the text.
pub open spec fn after_clipboard(v: AppView, r: Result<Seq<char>, Seq<char>>) -> AppView {
    match r {
        Ok(t) => if t.len() == 0 {
            v.said("Clipboard empty"@)
        } else {
            v.with_editor(editing::pasted(v.editor, matched_endings(v.editor, t)))
        },
        Err(e) => v.said("Paste failed: "@ + e),
    }
}

// ---------------------------------------------------------------------------
// Files
// ---------------------------------------------------------------------------

/// The dialog that a save leads to, or what it says, or `None` where the file may
/// be written. `check` compares the file with the one last seen.
pub open spec fn save_blocked(v: AppView, check: Option<Result<ConflictStatus, Seq<char>>>) -> Option<
    AppView,
> {
    match check {
        None => None,
        Some(Ok(ConflictStatus::Clean)) => None,
        Some(Ok(ConflictStatus::Changed)) => Some(
            v.in_mode(ModeView::Conflict(ConflictKind::Changed)),
        ),
        Some(Ok(ConflictStatus::Missing)) => Some(
            v.in_mode(ModeView::Conflict(ConflictKind::Missing)),
        ),
        Some(Err(e)) => Some(v.said("Conflict check failed: "@ + e)),
    }
}

/// A background run may start.
pub open spec fn may_start(v: AppView) -> bool {
    !v.busy && v.repo && !(v.sync is Conflict)
}

/// After the text was written: the text on disk is this one, and a push starts
/// where pushing on save is on.
pub open spec fn after_write(v: AppView, r: Result<Option<FileSnapshot>, Seq<char>>) -> AppView {
    match r {
        Ok(snap) => {
            let w = (AppView {
                editor: EditorView {
                    dirty: false,
                    saved: Some(persistence::content_hash(v.editor.bytes)),
                    ..v.editor
                },
                snapshot: snap,
                ..v
            }).said("Saved"@);
            if v.push_on_save && may_start(v) {
                AppView { sync: StateView::Pushing, busy: true, ..w }
            } else {
                w
            }
        },
        Err(e) => v.said("Save failed: "@ + e),
    }
}

/// After the text was written to the conflict copy: it stays unsaved.
pub open spec fn after_copy(v: AppView, r: Result<Seq<char>, Seq<char>>) -> AppView {
    match r {
        Ok(name) => v.said("Saved copy to "@ + name),
        Err(e) => v.said("Save failed: "@ + e),
    }
}

/// After the file was read again.
pub open spec fn after_reload(
    v: AppView,
    r: Result<(Seq<char>, Option<FileSnapshot>), Seq<char>>,
) -> AppView {
    match r {
        Ok((t, snap)) => (AppView {
            editor: editing::reloaded(v.editor, t),
            snapshot: snap,
            ..v
        }).said("Reloaded from disk"@),
        Err(e) => v.said("Reload failed: "@ + e),
    }
}

/// After another file was read: it takes the place of the one before.
pub open spec fn after_open(
    v: AppView,
    path: Seq<char>,
    r: Result<(Seq<char>, Option<FileSnapshot>), Seq<char>>,
    place: Option<(int, int)>,
) -> AppView {
    match r {
        Ok((t, snap)) => (AppView {
            editor: editing::opened(v.editor, t, place),
            file: path,
            snapshot: snap,
            ..v
        }).said(
            if v.editor.dirty {
                "Opened  (unsaved changes discarded)"@
            } else {
                "Opened"@
            },
        ),
        Err(e) => v.said("Cannot open: "@ + e),
    }
}

// ---------------------------------------------------------------------------
// Sync
// ---------------------------------------------------------------------------

/// A conflict opens its dialog.
pub open spec fn faced(v: AppView) -> AppView {
    if v.sync is Conflict {
        v.in_mode(ModeView::Conflict(ConflictKind::SyncRebase))
    } else {
        v
    }
}

pub open spec fn after_push(v: AppView, o: PushView, ahead: int) -> AppView {
    faced(AppView { sync: sync::pushed_state(o, ahead), busy: false, ..v })
}

/// New text from a pull takes the place of unchanged text. What is open over it stays
/// open.
pub open spec fn refreshed(v: AppView, disk: Option<(Seq<char>, Option<FileSnapshot>)>) -> AppView {
    match disk {
        Some((t, snap)) => if v.editor.dirty {
            v
        } else {
            let e = editing::refreshed(v.editor, t);
            AppView {
                editor: e,
                snapshot: snap,
                mode: v.mode.kept(e),
                ..v
            }
        },
        None => v,
    }
}

/// After a background pull. Where it was the first half of `:sync` and went well, a
/// push starts at once.
pub open spec fn after_pull(
    v: AppView,
    o: PullView,
    disk: Option<(Seq<char>, Option<FileSnapshot>)>,
) -> AppView {
    let w = if o is FastForwarded {
        refreshed(v, disk)
    } else {
        v
    };
    let state = sync::pulled_state(o, sync::has_markers(decode_utf8(w.editor.bytes)));
    let pushes = v.push_next && state is Idle;
    faced(
        AppView {
            sync: if pushes {
                StateView::Pushing
            } else {
                state
            },
            busy: pushes,
            push_next: false,
            ..w
        },
    )
}

/// A conflict has been settled by hand: everything is saved, and the file on disk
/// has no conflict markers left.
pub open spec fn is_settled(v: AppView, disk: Option<Seq<char>>) -> bool {
    !v.editor.dirty && (disk matches Some(s) && !sync::has_markers(s))
}

/// After a conflict was resolved, by taking one side or by hand.
pub open spec fn after_resolve(
    v: AppView,
    r: Result<Result<(Seq<char>, Option<FileSnapshot>), Seq<char>>, Seq<char>>,
) -> AppView {
    match r {
        Ok(disk) => AppView {
            sync: StateView::Idle,
            ..after_reload(v.said("Conflict resolved and pushed"@), disk)
        },
        Err(e) => (AppView { sync: StateView::Error(e), ..v }).said("Resolve failed: "@ + e),
    }
}

// ---------------------------------------------------------------------------
// Spell check
// ---------------------------------------------------------------------------

/// The wizard started on a range: at its first misspelling; a message where there
/// is none.
pub open spec fn wizard_started(v: AppView, range: (int, int), engine: EngineView) -> AppView {
    match spell_wizard::next_bad(v.editor.bytes, engine, Set::empty(), range.0, range.1) {
        Some(w) => v.with_editor(spell_wizard::shown_at(v.editor, w.0)).in_mode(
            ModeView::SpellCheck(
                spell_wizard::at_word(
                    WizardView {
                        scope: range,
                        span: w,
                        word: Seq::empty(),
                        suggestions: Seq::empty(),
                        selected: 0,
                        skipped: Set::empty(),
                        total: spell_wizard::bad_count(
                            v.editor.bytes,
                            engine,
                            range.0,
                            range.1,
                        ),
                        processed: 0,
                        error: None,
                    },
                    v.editor.bytes,
                    engine,
                    w,
                ),
            ),
        ),
        None => v.said("No misspellings found (0 words checked)"@),
    }
}

/// The dictionary could be loaded or not.
pub open spec fn engine_loaded(
    v: AppView,
    scope: SpellScope,
    loaded: Result<EngineView, Seq<char>>,
) -> AppView {
    match loaded {
        Ok(e) => wizard_started(
            AppView { engine: Some(e), ..v },
            mode::scope_range(scope, v.editor),
            e,
        ),
        Err(m) => v.said("spell: "@ + m),
    }
}

/// A spell check asked for: a download is offered where there is no dictionary.
/// `loaded` is what loading it gave, where that was not done before.
pub open spec fn spelling_opened(
    v: AppView,
    scope: SpellScope,
    dict_exists: bool,
    loaded: Option<Result<EngineView, Seq<char>>>,
) -> AppView {
    if !dict_exists {
        v.in_mode(ModeView::SpellDictPrompt(scope))
    } else {
        match v.engine {
            Some(e) => wizard_started(v, mode::scope_range(scope, v.editor), e),
            None => match loaded {
                Some(l) => engine_loaded(v, scope, l),
                None => v,
            },
        }
    }
}

/// The download has ended: the wizard starts, or the dialog shows the error.
pub open spec fn downloaded(
    v: AppView,
    d: DownloadView,
    loaded: Result<EngineView, Seq<char>>,
) -> AppView {
    match loaded {
        Ok(e) => wizard_started(
            AppView { engine: Some(e), ..v },
            mode::scope_range(d.scope, v.editor),
            e,
        ),
        Err(m) => v.in_mode(
            ModeView::SpellDownload(DownloadView { error: Some(m), ..d }),
        ),
    }
}

} // verus!
