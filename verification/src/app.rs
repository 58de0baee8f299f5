//! The application: the editor, what it is busy with, and how it answers keys,
//! commands and events. What has to happen outside comes back as an action; its
//! result is handed in again.

use vstd::prelude::*;
use vstd::string::StrSliceExecFns;
use vstd::utf8::*;

use crate::ai::AiError;
use crate::ai_panel;
use crate::ai_panel::{AiOutcome, AiPanelState, AiView, Submission};
use crate::app_rules;
use crate::app_rules::{ActionView, AppView};
use crate::buffer::TextBuffer;
use crate::command_bar;
use crate::command_bar::{BarOutcome, CommandBarState};
use crate::commands;
use crate::config::Config;
use crate::editing;
use crate::editing::EditorView;
use crate::editor;
use crate::editor::Editor;
use crate::filter_panel;
use crate::filter_panel::FilterPanelState;
use crate::help;
use crate::keys;
use crate::keys::{Key, KeyCode};
use crate::mode;
use crate::mode::{ConflictKind, DownloadView, Mode, ModeView, SpellDownloadState, SpellScope};
use crate::numbers;
use crate::persistence;
use crate::persistence::{ConflictStatus, FileSnapshot};
use crate::search_mode::SearchState;
use crate::spell;
use crate::spell::{EngineView, SpellEngine, SpellError};
use crate::spell_wizard::{SpellWizardState, WizardOutcome, WizardView};
use crate::sync;
use crate::sync::{PullOutcome, PushOutcome, StateView, SyncState};
use crate::text;
use crate::todo_overlay::TodoOverlayState;
use crate::words;

verus! {

pub struct App {
    pub editor: Editor,
    pub file: String,
    pub mode: Mode,
    pub status_msg: Option<String>,
    /// Snapshot of the file as it existed when last opened/saved — used for
    /// external-change detection before each save.
    pub snapshot: Option<FileSnapshot>,
    /// True after the first Ctrl+Q with unsaved changes; second Ctrl+Q quits.
    pub pending_quit: bool,
    /// Command-bar history (most-recent-last); persists for the session.
    pub cmd_history: Vec<String>,
    /// Active filter query (or `None`). Matches are re-computed on each use
    /// so they stay current as the buffer is edited.
    pub active_filter: Option<String>,
    /// Lazily-loaded spell engine. Built on the first successful spell run.
    pub spell_engine: Option<SpellEngine>,
    pub sync_state: SyncState,
    /// The file is in a git working tree, and sync is on.
    pub has_repo: bool,
    /// A background pull or push is in flight.
    pub sync_busy: bool,
    pub push_next: bool,
    pub push_on_save: bool,
}

/// What has to happen outside.
pub enum Action {
    /// Nothing.
    Stay,
    /// Leave the program.
    Quit,
    /// Compare the file with the snapshot, then `save`; with `quit`, leave the
    /// program if nothing is left unsaved.
    Save { quit: bool },
    /// Write the file, then `written`.
    Write,
    /// Write the text to the conflict copy, then `copy_written`.
    WriteCopy,
    /// Read the file again, then `reloaded`.
    Reload,
    /// Read another file, then `opened`.
    Open(String),
    /// Take one side of a sync conflict, then `resolved`.
    Resolve { keep_local: bool },
    /// Read the file to see whether a sync conflict is settled, then `settle`.
    Settle,
    /// Run a pull in the background, then `pull_done`.
    Pull,
    /// Put the text into the clipboard, then `copied`.
    Copy(String),
    /// Put the text into the clipboard, then `cut`.
    Cut(String),
    /// Get the text of the clipboard, then `paste_clipboard`.
    Paste,
    /// Look up the prompt used last, then `open_ai_panel`.
    OpenAi,
    /// Ask the provider; `ai_refused`, or `ai_begun` and then `ai_replied`.
    AskAi { prompt: String, input: String },
    /// Look for the dictionary, then `open_spell_check`.
    CheckSpelling(SpellScope),
    /// Download the dictionary in the background, then `dict_downloaded`.
    Download,
    /// Append the word to the user dictionary, then `word_written`.
    AddWord(String),
}

impl View for Action {
    type V = ActionView;

    open spec fn view(&self) -> ActionView {
        match *self {
            Action::Stay => ActionView::Stay,
            Action::Quit => ActionView::Quit,
            Action::Save { quit } => ActionView::Save(quit),
            Action::Write => ActionView::Write,
            Action::WriteCopy => ActionView::WriteCopy,
            Action::Reload => ActionView::Reload,
            Action::Open(p) => ActionView::Open(p@),
            Action::Resolve { keep_local } => ActionView::Resolve(keep_local),
            Action::Settle => ActionView::Settle,
            Action::Pull => ActionView::Pull,
            Action::Copy(t) => ActionView::Copy(t@),
            Action::Cut(t) => ActionView::Cut(t@),
            Action::Paste => ActionView::Paste,
            Action::OpenAi => ActionView::OpenAi,
            Action::AskAi { prompt, input } => ActionView::AskAi(prompt@, input@),
            Action::CheckSpelling(s) => ActionView::CheckSpelling(s),
            Action::Download => ActionView::Download,
            Action::AddWord(l) => ActionView::AddWord(l@),
        }
    }
}

/// A file as it was read.
pub struct Disk {
    pub content: String,
    pub snapshot: Option<FileSnapshot>,
}

pub open spec fn disk_view(d: Disk) -> (Seq<char>, Option<FileSnapshot>) {
    (d.content@, d.snapshot)
}

pub open spec fn read_view(r: Result<Disk, String>) -> Result<
    (Seq<char>, Option<FileSnapshot>),
    Seq<char>,
> {
    match r {
        Ok(d) => Ok(disk_view(d)),
        Err(e) => Err(e@),
    }
}

pub open spec fn text_result(r: Result<String, String>) -> Result<Seq<char>, Seq<char>> {
    match r {
        Ok(t) => Ok(t@),
        Err(e) => Err(e@),
    }
}

pub open spec fn engine_of(e: Option<SpellEngine>) -> Option<EngineView> {
    match e {
        Some(x) => Some(x@),
        None => None,
    }
}

pub open spec fn load_view(r: Result<SpellEngine, SpellError>) -> Result<EngineView, Seq<char>> {
    match r {
        Ok(e) => Ok(e@),
        Err(e) => Err(spell::error_text(e)),
    }
}

impl View for App {
    type V = AppView;

    open spec fn view(&self) -> AppView {
        AppView {
            editor: self.editor@,
            file: self.file@,
            mode: self.mode@,
            status: filter_panel::text_view(self.status_msg),
            snapshot: self.snapshot,
            pending_quit: self.pending_quit,
            history: words::texts(self.cmd_history@),
            filter: filter_panel::text_view(self.active_filter),
            engine: engine_of(self.spell_engine),
            sync: self.sync_state@,
            repo: self.has_repo,
            busy: self.sync_busy,
            push_next: self.push_next,
            push_on_save: self.push_on_save,
        }
    }
}

fn joined(a: &str, b: &str) -> (r: String)
    ensures
        r@ == a@ + b@,
{
    let mut s = a.to_owned();
    s.append(b);
    s
}

impl App {
    /// The editor is in order, the mode can act on its text, and a wizard has its
    /// engine.
    pub open spec fn wf(&self) -> bool {
        &&& self.editor.wf()
        &&& self.mode.wf(self.editor@)
        &&& self.mode@ is SpellCheck ==> self.spell_engine is Some
        &&& self.mode@ matches ModeView::CommandBar(s) ==> s.browsing(
            words::texts(self.cmd_history@),
        )
    }

    /// Open a file. `pull` is what a pull on open gave, where one was made;
    /// `remote` tells whether the repository has a remote.
    pub fn open(
        file: String,
        disk: Disk,
        place: Option<(usize, usize)>,
        cfg: &Config,
        has_repo: bool,
        remote: bool,
        pull: Option<PullOutcome>,
    ) -> (r: Self)
        ensures
            r.wf(),
            r@.editor == editing::opened(
                editor::blank_view(cfg.editor.line_wrap),
                disk.content@,
                editor::anchor_view(place),
            ),
            r@.file == file@,
            r@.mode is Normal,
            r@.status is None,
            r@.snapshot == disk.snapshot,
            !r@.pending_quit,
            r@.history == Seq::<Seq<char>>::empty(),
            r@.filter is None,
            r@.engine is None,
            r@.sync == sync::opened_state(
                remote,
                match pull {
                    Some(o) => Some(o@),
                    None => None,
                },
                sync::has_markers(disk.content@),
            ),
            r@.repo == has_repo,
            !r@.busy,
            !r@.push_next,
            r@.push_on_save == cfg.sync.push_on_save,
    {
        let markers = sync::has_conflict_markers(disk.content.as_str());
        let snapshot = disk.snapshot;
        let buffer = TextBuffer::new(disk.content);
        let editor = Editor::open(buffer, place, cfg.editor.line_wrap);
        let r = App {
            editor,
            file,
            mode: Mode::Normal,
            status_msg: None,
            snapshot,
            pending_quit: false,
            cmd_history: Vec::new(),
            active_filter: None,
            spell_engine: None,
            sync_state: sync::state_on_open(remote, pull, markers),
            has_repo,
            sync_busy: false,
            push_next: false,
            push_on_save: cfg.sync.push_on_save,
        };
        proof {
            assert(r@.history =~= Seq::<Seq<char>>::empty());
        }
        r
    }

    /// The program starts: a conflict found on opening opens its dialog.
    pub fn begin(&mut self)
        requires
            old(self).wf(),
        ensures
            final(self).wf(),
            final(self)@ == app_rules::faced(old(self)@),
    {
        if self.sync_state.is_conflict() {
            self.mode = Mode::Conflict(ConflictKind::SyncRebase);
        }
    }

    /// The terminal has this size; its last row is the status bar.
    pub fn resize(&mut self, width: usize, height: usize)
        requires
            old(self).wf(),
        ensures
            final(self).wf(),
            final(self)@ == old(self)@.with_editor(
                (EditorView {
                    width: width as int,
                    height: if height > 0 {
                        height - 1
                    } else {
                        0
                    },
                    ..old(self)@.editor
                }),
            ),
    {
        self.editor.viewport_width = width;
        self.editor.viewport_height =
        if height > 0 {
            height - 1
        } else {
            0
        };
    }

    fn say(&mut self, s: &str)
        requires
            old(self).wf(),
        ensures
            final(self).wf(),
            final(self)@ == old(self)@.said(s@),
            final(self).mode == old(self).mode,
            final(self).editor == old(self).editor,
    {
        self.status_msg = Some(s.to_owned());
    }
}

// ---------------------------------------------------------------------------
// Plain editing
// ---------------------------------------------------------------------------

fn moves_cursor(code: KeyCode) -> (r: bool)
    ensures
        r == app_rules::is_movement(code),
{
    match code {
        KeyCode::Left => true,
        KeyCode::Right => true,
        KeyCode::Up => true,
        KeyCode::Down => true,
        KeyCode::Home => true,
        KeyCode::End => true,
        KeyCode::PageUp => true,
        KeyCode::PageDown => true,
        _ => false,
    }
}

/// Selection anchor management: Shift+movement extends; plain movement clears;
/// Esc clears; note navigation jumps clear.
fn set_anchor(editor: &mut Editor, key: Key)
    requires
        old(editor).wf(),
    ensures
        final(editor).wf(),
        final(editor)@ == app_rules::anchored(old(editor)@, key),
{
    if moves_cursor(key.code) {
        if key.mods.shift {
            editor.begin_selection();
        } else {
            editor.clear_selection();
        }
    } else if key.code == KeyCode::Esc || (key.mods.ctrl && (key.code == KeyCode::Char('j')
        || key.code == KeyCode::Char('k'))) {
        editor.clear_selection();
    }
}

fn page_rows(editor: &Editor) -> (r: usize)
    ensures
        r == app_rules::page(editor@),
{
    if editor.viewport_height > 2 {
        editor.viewport_height - 2
    } else {
        0
    }
}

/// Keys that move the cursor, without edits.
fn move_by_key(editor: &mut Editor, key: Key)
    requires
        old(editor).wf(),
        app_rules::is_movement(key.code),
    ensures
        final(editor).wf(),
        forall|stamp: Seq<char>|
            final(editor)@ == #[trigger] app_rules::keyed(old(editor)@, key, stamp),
{
    proof {
        reveal(app_rules::keyed);
    }
    editor.break_batch();
    let page = page_rows(editor);
    match key.code {
        KeyCode::Down => {
            editor.move_down(1);
        },
        KeyCode::Up => {
            editor.move_up(1);
        },
        KeyCode::Left => {
            editor.move_left();
            editor.update_preferred_col();
        },
        KeyCode::Right => {
            editor.move_right();
            editor.update_preferred_col();
        },
        KeyCode::PageDown => {
            editor.move_down(page);
        },
        KeyCode::PageUp => {
            editor.move_up(page);
        },
        KeyCode::Home => {
            editor.move_home();
        },
        KeyCode::End => {
            editor.move_end();
        },
        _ => {},
    }
}

/// Keys that move the cursor or edit the text. `stamp` is the current date and
/// time, for a delimiter line that Enter completes.
fn edit_by_key(editor: &mut Editor, key: Key, stamp: &str)
    requires
        old(editor).wf(),
    ensures
        final(editor).wf(),
        final(editor)@ == app_rules::keyed(old(editor)@, key, stamp@),
{
    if moves_cursor(key.code) {
        move_by_key(editor, key);
        return;
    }
    proof {
        reveal(app_rules::keyed);
    }
    match key.code {
        KeyCode::Enter => {
            if !editor.try_expand_delimiter(stamp) {
                editor.insert_newline();
            }
        },
        KeyCode::Backspace => {
            editor.delete_backward();
        },
        KeyCode::Delete => {
            editor.delete_forward();
        },
        KeyCode::Tab => {
            editor.insert_str("    ");
        },
        _ => {
            if let Some(c) = keys::accumulatable_char(key) {
                editor.insert_char(c);
            }
        },
    }
}

impl App {
    fn do_undo(&mut self)
        requires
            old(self).wf(),
            old(self).mode@ is Normal,
        ensures
            final(self).wf(),
            final(self)@ == old(self)@.with_editor(editing::undone(old(self)@.editor)).said(
                app_rules::undo_text(old(self)@.editor.stacks.undo.len() as int),
            ),
    {
        let msg = match self.editor.do_undo() {
            None => "Nothing to undo".to_owned(),
            Some(n) => if n > 0 {
                let mut s = String::from_str("Undo  (");
                words::push_decimal(&mut s, n);
                s.append(" more)");
                s
            } else {
                "Undo  (nothing more)".to_owned()
            },
        };
        self.status_msg = Some(msg);
    }

    fn do_redo(&mut self)
        requires
            old(self).wf(),
            old(self).mode@ is Normal,
        ensures
            final(self).wf(),
            final(self)@ == old(self)@.with_editor(editing::redone(old(self)@.editor)).said(
                app_rules::redo_text(old(self)@.editor.stacks.redo.len() as int),
            ),
    {
        let msg = match self.editor.do_redo() {
            None => "Nothing to redo".to_owned(),
            Some(n) => if n > 0 {
                let mut s = String::from_str("Redo  (");
                words::push_decimal(&mut s, n);
                s.append(" more)");
                s
            } else {
                "Redo".to_owned()
            },
        };
        self.status_msg = Some(msg);
    }

    /// Jump cursor to the next (forward=true) / previous (forward=false)
    /// match of the active filter.
    fn jump_to_match(&mut self, forward: bool)
        requires
            old(self).wf(),
            old(self).mode@ is Normal,
        ensures
            final(self).wf(),
            final(self)@ == app_rules::match_jumped(old(self)@, forward),
    {
        let query = match &self.active_filter {
            Some(q) => q.as_str().to_owned(),
            None => {
                self.status_msg = Some("No active filter".to_owned());
                return;
            },
        };
        let ghost list = commands::filter_list(self.editor@.bytes, query@);
        let found = filter_panel::jump_to_match(&mut self.editor, query.as_str(), forward);
        if !found {
            let mut s = String::from_str("[filter: ");
            s.append(query.as_str());
            s.append("] no matches");
            self.status_msg = Some(s);
            proof {
                lemma_no_match(old(self)@.editor, list, forward);
            }
        }
    }

    fn jump_to_note(&mut self, forward: bool)
        requires
            old(self).wf(),
            old(self).mode@ is Normal,
        ensures
            final(self).wf(),
            final(self)@ == app_rules::note_jumped(old(self)@, forward),
    {
        self.editor.break_batch();
        if self.active_filter.is_some() {
            self.jump_to_match(forward);
            return;
        }
        let target = if forward {
            self.editor.next_note_delimiter()
        } else {
            self.editor.prev_note_delimiter()
        };
        match target {
            Some(l) => {
                self.editor.go_to_line(l);
            },
            None => {
                self.say(
                    if forward {
                        "No next note"
                    } else {
                        "No previous note"
                    },
                );
            },
        }
    }

    fn open_filter_panel(&mut self)
        requires
            old(self).wf(),
            old(self).mode@ is Normal,
        ensures
            final(self).wf(),
            final(self)@ == app_rules::filter_opened(old(self)@),
    {
        let panel = FilterPanelState::open(&mut self.editor, &mut self.active_filter);
        self.mode = Mode::FilterOverlay(panel);
    }

    fn open_todo_overlay(&mut self)
        requires
            old(self).wf(),
            old(self).mode@ is Normal,
        ensures
            final(self).wf(),
            final(self)@ == app_rules::todos_opened(old(self)@),
    {
        let overlay = TodoOverlayState::open(&mut self.editor);
        self.mode = Mode::TodoOverlay(overlay);
    }

    fn selected_or_say(&mut self) -> (r: Option<String>)
        requires
            old(self).wf(),
        ensures
            final(self).wf(),
            match (r, app_rules::selected_chars(old(self)@.editor)) {
                (Some(t), Some(c)) => t@ == c && final(self)@ == old(self)@,
                (None, None) => final(self)@ == old(self)@.said("Nothing selected"@),
                _ => false,
            },
    {
        let t = self.editor.selected_text();
        match t {
            Some(t) => {
                proof {
                    encode_utf8_decode_utf8(t@);
                }
                Some(t)
            },
            None => {
                self.say("Nothing selected");
                None
            },
        }
    }

    /// Ctrl with a letter.
    fn handle_control_key(&mut self, c: char) -> (r: Action)
        requires
            old(self).wf(),
            old(self).mode@ is Normal,
        ensures
            final(self).wf(),
            (final(self)@, r@) == app_rules::control_key(old(self)@, c),
    {
        proof {
            reveal(app_rules::control_key);
        }
        if c == 'q' {
            if self.editor.dirty && !self.pending_quit {
                self.pending_quit = true;
                self.say("Unsaved changes \u{2014} Ctrl+S to save, Ctrl+Q again to discard");
                return Action::Stay;
            }
            return Action::Quit;
        }
        if c == 's' {
            return Action::Save { quit: false };
        }
        if c == 'o' {
            let input = String::new();
            proof {
                assert(input@ =~= Seq::<char>::empty());
            }
            self.mode = Mode::OpenPrompt(input);
        } else if c == 'z' {
            self.do_undo();
        } else if c == 'y' {
            self.do_redo();
        } else if c == 'f' {
            let search = SearchState::new();
            proof {
                assert(search.wf());
            }
            self.mode = Mode::Search(search);
        } else if c == 'l' {
            return Action::OpenAi;
        } else if c == 'c' {
            if let Some(t) = self.selected_or_say() {
                return Action::Copy(t);
            }
        } else if c == 'x' {
            if let Some(t) = self.selected_or_say() {
                return Action::Cut(t);
            }
        } else if c == 'v' {
            return Action::Paste;
        } else if c == ';' {
            self.mode = Mode::CommandBar(CommandBarState::new());
        } else if c == 'j' {
            self.jump_to_note(true);
        } else if c == 'k' {
            self.jump_to_note(false);
        } else if c == 'p' {
            self.open_filter_panel();
        }
        Action::Stay
    }

    fn handle_function_key(&mut self, n: u8, shift: bool) -> (r: Action)
        requires
            old(self).wf(),
            old(self).mode@ is Normal,
        ensures
            final(self).wf(),
            (final(self)@, r@) == app_rules::function_key(old(self)@, n, shift),
    {
        proof {
            reveal(app_rules::function_key);
        }
        if n == 7 {
            return Action::CheckSpelling(mode::find_default_scope(&self.editor));
        }
        if n == 10 {
            self.mode = Mode::CommandBar(CommandBarState::new());
        } else if n == 8 {
            self.open_todo_overlay();
        } else if n == 1 {
            self.mode = Mode::Help(0);
        } else if n == 4 {
            self.editor.break_batch();
            self.jump_to_match(!shift);
        }
        Action::Stay
    }

    /// Before a key acts: the message goes, and the selection begins or ends.
    fn begin_key(&mut self, key: Key)
        requires
            old(self).wf(),
            old(self).mode@ is Normal,
        ensures
            final(self).wf(),
            final(self).mode == old(self).mode,
            final(self)@ == app_rules::begun(old(self)@, key),
    {
        if !(key.mods.is_only_ctrl() && key.code == KeyCode::Char('q')) {
            self.status_msg = None;
            self.pending_quit = false;
        }
        set_anchor(&mut self.editor, key);
    }

    fn edit(&mut self, key: Key, stamp: &str)
        requires
            old(self).wf(),
            old(self).mode@ is Normal,
        ensures
            final(self).wf(),
            final(self)@ == old(self)@.with_editor(
                app_rules::keyed(old(self)@.editor, key, stamp@),
            ),
    {
        edit_by_key(&mut self.editor, key, stamp);
    }

    /// Handle a key while no dialog is open.
    pub fn handle_normal_key(&mut self, key: Key, stamp: &str) -> (r: Action)
        requires
            old(self).wf(),
            old(self).mode@ is Normal,
        ensures
            final(self).wf(),
            (final(self)@, r@) == app_rules::normal_key(old(self)@, key, stamp@),
    {
        proof {
            reveal(app_rules::normal_key);
        }
        self.begin_key(key);
        match key.code {
            KeyCode::Char(c) => {
                if key.mods.is_only_ctrl() {
                    return self.handle_control_key(c);
                }
                self.edit(key, stamp);
            },
            KeyCode::F(n) => {
                return self.handle_function_key(n, key.mods.shift);
            },
            _ => {
                self.edit(key, stamp);
            },
        }
        Action::Stay
    }
}

// ---------------------------------------------------------------------------
// Dialogs and prompts
// ---------------------------------------------------------------------------

fn is_letter_key(code: KeyCode, small: char, large: char) -> (r: bool)
    ensures
        r == app_rules::letter_key(code, small, large),
{
    code == KeyCode::Char(small) || code == KeyCode::Char(large)
}

impl App {
    fn handle_conflict_key(&mut self, kind: ConflictKind, code: KeyCode) -> (r: Action)
        requires
            old(self).wf(),
            old(self).mode@ == ModeView::Conflict(kind),
        ensures
            final(self).wf(),
            (final(self)@, r@) == app_rules::conflict_key(old(self)@, kind, code),
    {
        proof {
            reveal(app_rules::conflict_key);
        }
        if kind == ConflictKind::SyncRebase {
            // Sync conflict — three resolution choices plus cancel.
            let keep_local = is_letter_key(code, 'k', 'K');
            if keep_local || is_letter_key(code, 'r', 'R') {
                self.mode = Mode::Normal;
                if self.has_repo {
                    return Action::Resolve { keep_local };
                }
            } else if is_letter_key(code, 'e', 'E') {
                // Close the overlay and route the user to manual editing.
                self.mode = Mode::Normal;
                self.say("Resolve conflict markers in the editor, then run :sync");
                // Re-read the file so the conflict markers are visible.
                return Action::Reload;
            } else if is_letter_key(code, 'c', 'C') || code == KeyCode::Esc {
                self.mode = Mode::Normal;
            }
            return Action::Stay;
        }
        if is_letter_key(code, 'o', 'O') {
            self.mode = Mode::Normal;
            return Action::Write;
        }
        if is_letter_key(code, 's', 'S') && kind == ConflictKind::Changed {
            self.mode = Mode::Normal;
            return Action::WriteCopy;
        }
        if is_letter_key(code, 'r', 'R') {
            self.mode = Mode::Normal;
            if kind == ConflictKind::Changed {
                return Action::Reload;
            }
            // Nothing useful to reload — just clear the dirty flag and let the
            // user keep editing.
            self.editor.dirty = false;
            self.snapshot = None;
            self.say("File was deleted; save again to re-create it");
            return Action::Stay;
        }
        if is_letter_key(code, 'c', 'C') || code == KeyCode::Esc {
            self.mode = Mode::Normal;
            self.say("Save cancelled");
        }
        Action::Stay
    }

    fn handle_open_prompt_key(&mut self, input: String, key: Key) -> (r: Action)
        requires
            old(self).wf(),
        ensures
            final(self).wf(),
            (final(self)@, r@) == app_rules::open_prompt_key(
                old(self)@.in_mode(ModeView::OpenPrompt(input@)),
                input@,
                key,
            ),
    {
        proof {
            reveal(app_rules::open_prompt_key);
        }
        match key.code {
            KeyCode::Esc => {
                self.mode = Mode::Normal;
                self.say("Open cancelled");
            },
            KeyCode::Backspace => {
                self.mode = Mode::OpenPrompt(words::without_last(input.as_str()));
            },
            KeyCode::Enter => {
                self.mode = Mode::Normal;
                let path = words::trimmed(input.as_str());
                if path.is_empty() {
                    self.say("Open cancelled");
                } else {
                    return Action::Open(path.to_owned());
                }
            },
            KeyCode::Char(c) => {
                let mut input = input;
                if !(key.mods.ctrl || key.mods.alt) {
                    words::push_char(&mut input, c);
                }
                self.mode = Mode::OpenPrompt(input);
            },
            _ => {
                self.mode = Mode::OpenPrompt(input);
            },
        }
        Action::Stay
    }

    fn handle_spell_dict_prompt_key(&mut self, scope: SpellScope, code: KeyCode) -> (r: Action)
        requires
            old(self).wf(),
            old(self).mode@ == ModeView::SpellDictPrompt(scope),
        ensures
            final(self).wf(),
            (final(self)@, r@) == app_rules::dict_prompt_key(old(self)@, scope, code),
    {
        proof {
            reveal(app_rules::dict_prompt_key);
        }
        if is_letter_key(code, 'y', 'Y') || code == KeyCode::Enter {
            self.mode = Mode::SpellDownload(
                SpellDownloadState { scope, spinner_tick: 0, error: None },
            );
            return Action::Download;
        }
        if is_letter_key(code, 'n', 'N') || code == KeyCode::Esc {
            self.mode = Mode::Normal;
            self.say("Spell check cancelled");
        }
        Action::Stay
    }

    fn handle_spell_download_key(&mut self, has_error: bool, code: KeyCode) -> (r: Action)
        requires
            old(self).wf(),
            old(self).mode@ is SpellDownload,
            has_error == old(self).mode@->SpellDownload_0.error is Some,
        ensures
            final(self).wf(),
            (final(self)@, r@) == app_rules::download_key(
                old(self)@,
                old(self).mode@->SpellDownload_0,
                code,
            ),
    {
        proof {
            reveal(app_rules::download_key);
        }
        if code == KeyCode::Esc {
            self.mode = Mode::Normal;
            if !has_error {
                self.say("Download cancelled");
            }
        }
        Action::Stay
    }
}

// ---------------------------------------------------------------------------
// Overlays
// ---------------------------------------------------------------------------

impl App {
    fn handle_search_key(&mut self, search: SearchState, key: Key) -> (r: Action)
        requires
            old(self).wf(),
            search.wf(),
        ensures
            final(self).wf(),
            (final(self)@, r@) == app_rules::search_key(
                old(self)@.in_mode(ModeView::Search(search@)),
                search@,
                key,
            ),
    {
        proof {
            reveal(app_rules::search_key);
        }
        let mut search = search;
        if search.handle_key(&mut self.editor, key) {
            self.mode = Mode::Normal;
        } else {
            self.mode = Mode::Search(search);
        }
        Action::Stay
    }

    fn handle_todo_overlay_key(&mut self, overlay: TodoOverlayState, key: Key) -> (r: Action)
        requires
            old(self).wf(),
        ensures
            final(self).wf(),
            (final(self)@, r@) == app_rules::todo_key(
                old(self)@.in_mode(ModeView::TodoOverlay(overlay@)),
                overlay@,
                key,
            ),
    {
        proof {
            reveal(app_rules::todo_key);
        }
        let mut overlay = overlay;
        if overlay.handle_key(&mut self.editor, key) {
            self.mode = Mode::Normal;
        } else {
            self.mode = Mode::TodoOverlay(overlay);
        }
        Action::Stay
    }

    fn handle_filter_panel_key(&mut self, panel: FilterPanelState, key: Key) -> (r: Action)
        requires
            old(self).wf(),
            panel.query.wf(),
        ensures
            final(self).wf(),
            (final(self)@, r@) == app_rules::filter_key(
                old(self)@.in_mode(ModeView::FilterOverlay(panel@)),
                panel@,
                key,
            ),
    {
        proof {
            reveal(app_rules::filter_key);
        }
        let mut panel = panel;
        if panel.handle_key(&mut self.editor, &mut self.active_filter, key) {
            self.mode = Mode::Normal;
        } else {
            self.mode = Mode::FilterOverlay(panel);
        }
        Action::Stay
    }

    fn handle_help_key(&mut self, scroll: u16, key: Key) -> (r: Action)
        requires
            old(self).wf(),
        ensures
            final(self).wf(),
            (final(self)@, r@) == app_rules::help_key(
                old(self)@.in_mode(ModeView::Help(scroll as int)),
                scroll as int,
                key,
            ),
    {
        proof {
            reveal(app_rules::help_key);
        }
        let most = help::help_max_scroll(self.editor.viewport_height);
        match help::handle_help_key(scroll, most, key) {
            Some(n) => {
                self.mode = Mode::Help(n);
            },
            None => {
                self.mode = Mode::Normal;
            },
        }
        Action::Stay
    }

    fn handle_ai_panel_key(&mut self, panel: AiPanelState, key: Key) -> (r: Action)
        requires
            old(self).wf(),
            panel.prompt.wf(),
        ensures
            final(self).wf(),
            (final(self)@, r@) == app_rules::ai_key(
                old(self)@.in_mode(ModeView::AiPanel(panel@)),
                panel@,
                key,
            ),
    {
        proof {
            reveal(app_rules::ai_key);
        }
        let mut panel = panel;
        let outcome = panel.handle_key(key);
        match outcome {
            AiOutcome::Stay => {
                self.mode = Mode::AiPanel(panel);
            },
            AiOutcome::Close => {
                self.mode = Mode::Normal;
            },
            AiOutcome::Submit => {
                let sent = panel.submit();
                self.mode = Mode::AiPanel(panel);
                if let Submission::Send { prompt, input } = sent {
                    return Action::AskAi { prompt, input };
                }
            },
            AiOutcome::Accept => {
                if panel.accept(&mut self.editor) {
                    self.mode = Mode::Normal;
                } else {
                    self.mode = Mode::AiPanel(panel);
                }
            },
        }
        Action::Stay
    }

    /// Keep the wizard open, or close it with its message.
    fn step_wizard(&mut self, wizard: SpellWizardState, outcome: WizardOutcome)
        requires
            old(self).editor.wf(),
            old(self).mode@ is Normal,
            old(self).spell_engine is Some,
            outcome is Stay || outcome is Done,
            outcome is Stay ==> wizard.wf(old(self)@.editor),
        ensures
            final(self).wf(),
            final(self)@ == match outcome {
                WizardOutcome::Done(m) => old(self)@.said(m@),
                _ => old(self)@.in_mode(ModeView::SpellCheck(wizard@)),
            },
    {
        match outcome {
            WizardOutcome::Done(m) => {
                self.status_msg = Some(m);
            },
            _ => {
                self.mode = Mode::SpellCheck(wizard);
            },
        }
    }

    fn handle_spell_check_key(&mut self, wizard: SpellWizardState, key: Key) -> (r: Action)
        requires
            old(self).wf(),
            old(self).mode@ is Normal,
            old(self).spell_engine is Some,
            wizard.wf(old(self)@.editor),
        ensures
            final(self).wf(),
            (final(self)@, r@) == app_rules::spell_key(
                old(self)@.in_mode(ModeView::SpellCheck(wizard@)),
                wizard@,
                key,
            ),
    {
        proof {
            reveal(app_rules::spell_key);
        }
        let mut wizard = wizard;
        let ghost before = wizard@;
        let outcome = match &self.spell_engine {
            Some(engine) => wizard.handle_key(&mut self.editor, engine, key),
            None => WizardOutcome::Close,
        };
        match outcome {
            WizardOutcome::Close => {
                self.mode = Mode::Normal;
                Action::Stay
            },
            WizardOutcome::AddWord => self.add_current_word(wizard),
            _ => {
                self.step_wizard(wizard, outcome);
                Action::Stay
            },
        }
    }

    /// Add the wizard's word to the user dictionary.
    fn add_current_word(&mut self, wizard: SpellWizardState) -> (r: Action)
        requires
            old(self).wf(),
            old(self).mode@ is Normal,
            old(self).spell_engine is Some,
            wizard.wf(old(self)@.editor),
        ensures
            final(self).wf(),
            (final(self)@, r@) == ({
                let v = old(self)@.in_mode(ModeView::SpellCheck(wizard@));
                let engine = v.engine->Some_0;
                let word = words::trim(wizard@.word);
                if word.len() == 0 {
                    (app_rules::wizard_went_on(v, wizard@, engine), ActionView::Stay)
                } else {
                    (
                        (AppView {
                            engine: Some(
                                (EngineView {
                                    user: engine.user.insert(words::lower(word)),
                                    ..engine
                                }),
                            ),
                            ..v
                        }),
                        ActionView::AddWord(words::lower(word)),
                    )
                }
            }),
    {
        let mut engine: Option<SpellEngine> = None;
        std::mem::swap(&mut engine, &mut self.spell_engine);
        match engine {
            Some(mut engine) => {
                let added = engine.add_to_user_dict(wizard.current.word.as_str());
                let mut wizard = wizard;
                match added {
                    Some(line) => {
                        self.spell_engine = Some(engine);
                        self.mode = Mode::SpellCheck(wizard);
                        Action::AddWord(line)
                    },
                    None => {
                        let outcome = wizard.word_added(&mut self.editor, &engine);
                        self.spell_engine = Some(engine);
                        self.step_wizard(wizard, outcome);
                        Action::Stay
                    },
                }
            },
            None => Action::Stay,
        }
    }
}

// ---------------------------------------------------------------------------
// Commands
// ---------------------------------------------------------------------------

/// Verb and argument of a command.
fn split_command(cmd: &str) -> (r: (String, String))
    ensures
        r.0@ == app_rules::verb_of(cmd@),
        r.1@ == app_rules::argument_of(cmd@),
{
    let cs = text::chars_of(cmd);
    let mut n: usize = 0;
    while n < cs.len() && cs[n] != ' '
        invariant
            n <= cs.len(),
            cs@ == cmd@,
            words::piece_end(cmd@, n as int, ' ') == words::piece_end(cmd@, 0, ' '),
        decreases cs.len() - n,
    {
        n += 1;
    }
    let verb = cmd.substring_char(0, n).to_owned();
    let arg = if n < cs.len() {
        words::trimmed(cmd.substring_char(n + 1, cs.len())).to_owned()
    } else {
        String::new()
    };
    proof {
        assert(n >= cs.len() ==> arg@ =~= Seq::<char>::empty());
    }
    (verb, arg)
}

impl App {
    fn go_to(&mut self, arg: &str)
        requires
            old(self).wf(),
            old(self).mode@ is Normal,
        ensures
            final(self).wf(),
            final(self)@ == app_rules::went_to(old(self)@, arg@),
    {
        match numbers::parse_usize(arg) {
            Some(n) if n >= 1 => {
                let count = self.editor.buffer.line_count();
                let l = if n - 1 < count {
                    n - 1
                } else {
                    count - 1
                };
                self.editor.go_to_line(l);
                let mut s = String::from_str("Line ");
                words::push_decimal(&mut s, n);
                self.status_msg = Some(s);
            },
            _ => {
                if arg.is_empty() {
                    self.say("Usage: :goto <line>");
                } else {
                    let mut s = String::from_str("Invalid line number: '");
                    s.append(arg);
                    s.append("'");
                    self.status_msg = Some(s);
                }
            },
        }
    }

    /// Manual `:sync` — a background pull that a push follows, unless something
    /// stands against it.
    fn cmd_sync(&mut self) -> (r: Action)
        requires
            old(self).wf(),
            old(self).mode@ is Normal,
        ensures
            final(self).wf(),
            (final(self)@, r@) == app_rules::synced(old(self)@),
    {
        if !self.has_repo {
            self.say("Sync disabled (not in a git repo)");
            Action::Stay
        } else if self.sync_state.is_conflict() {
            Action::Settle
        } else if self.sync_busy {
            self.say("Sync already in progress");
            Action::Stay
        } else {
            self.sync_state = SyncState::Pulling;
            self.sync_busy = true;
            self.push_next = true;
            Action::Pull
        }
    }

    /// Parse and execute a command-bar command.
    pub fn execute_command(&mut self, cmd: &str) -> (r: Action)
        requires
            old(self).wf(),
            old(self).mode@ is Normal,
        ensures
            final(self).wf(),
            (final(self)@, r@) == app_rules::run_command(old(self)@, cmd@),
    {
        proof {
            reveal(app_rules::run_command);
        }
        let (verb, arg) = split_command(cmd);
        let verb = verb.as_str();
        let arg = arg.as_str();
        if text::same(verb, "w") || text::same(verb, "write") {
            return Action::Save { quit: false };
        }
        if text::same(verb, "q") || text::same(verb, "quit") {
            if self.editor.dirty {
                self.say("Unsaved changes \u{2014} :w to save, :q! to discard, :wq to save+quit");
                return Action::Stay;
            }
            return Action::Quit;
        }
        if text::same(verb, "q!") || text::same(verb, "quit!") {
            return Action::Quit;
        }
        if text::same(verb, "wq") || text::same(verb, "x") {
            return Action::Save { quit: true };
        }
        if text::same(verb, "goto") || text::same(verb, "go") {
            self.go_to(arg);
            return Action::Stay;
        }
        if text::same(verb, "todo") {
            self.open_todo_overlay();
            return Action::Stay;
        }
        if text::same(verb, "ai") {
            return Action::OpenAi;
        }
        if text::same(verb, "filter") {
            if !arg.is_empty() {
                self.active_filter = Some(arg.to_owned());
            }
            self.open_filter_panel();
            return Action::Stay;
        }
        self.execute_other(verb, arg)
    }

    fn execute_other(&mut self, verb: &str, arg: &str) -> (r: Action)
        requires
            old(self).wf(),
            old(self).mode@ is Normal,
        ensures
            final(self).wf(),
            (final(self)@, r@) == app_rules::run_other(old(self)@, verb@, arg@),
    {
        if text::same(verb, "next") {
            self.jump_to_match(true);
        } else if text::same(verb, "prev") {
            self.jump_to_match(false);
        } else if text::same(verb, "clear") {
            let had = self.active_filter.is_some();
            self.active_filter = None;
            self.say(
                if had {
                    "Filter cleared"
                } else {
                    "No active filter"
                },
            );
        } else if text::same(verb, "help") {
            self.mode = Mode::Help(0);
        } else if text::same(verb, "sync") {
            return self.cmd_sync();
        } else if text::same(verb, "spell") {
            return Action::CheckSpelling(
                if text::same(arg, "all") {
                    SpellScope::WholeFile
                } else {
                    mode::find_default_scope(&self.editor)
                },
            );
        } else if text::same(verb, "set") {
            self.say("No configurable settings yet");
        } else {
            let s = joined("Unknown command: :", verb);
            self.status_msg = Some(s);
        }
        Action::Stay
    }

    fn handle_command_bar_key(&mut self, bar: CommandBarState, key: Key) -> (r: Action)
        requires
            old(self).wf(),
            old(self).mode@ is Normal,
            bar@.browsing(words::texts(old(self).cmd_history@)),
        ensures
            final(self).wf(),
            (final(self)@, r@) == app_rules::bar_key(
                old(self)@.in_mode(ModeView::CommandBar(bar@)),
                bar@,
                key,
            ),
    {
        proof {
            reveal(app_rules::bar_key);
        }
        let mut bar = bar;
        match bar.handle_key(&self.cmd_history, key) {
            BarOutcome::Stay => {
                self.mode = Mode::CommandBar(bar);
            },
            BarOutcome::Cancel => {
                self.say("Cancelled");
            },
            BarOutcome::Run(cmd) => {
                if !cmd.as_str().is_empty() {
                    command_bar::remember(&mut self.cmd_history, cmd.as_str());
                    return self.execute_command(cmd.as_str());
                }
            },
        }
        Action::Stay
    }

    /// Handle a key. `stamp` is the current date and time.
    pub fn handle_key(&mut self, key: Key, stamp: &str) -> (r: Action)
        requires
            old(self).wf(),
        ensures
            final(self).wf(),
            (final(self)@, r@) == app_rules::after_key(old(self)@, key, stamp@),
    {
        let mut mode = Mode::Normal;
        std::mem::swap(&mut mode, &mut self.mode);
        match mode {
            Mode::Normal => self.handle_normal_key(key, stamp),
            Mode::Conflict(kind) => {
                self.mode = Mode::Conflict(kind);
                self.handle_conflict_key(kind, key.code)
            },
            Mode::OpenPrompt(input) => self.handle_open_prompt_key(input, key),
            Mode::Search(s) => self.handle_search_key(s, key),
            Mode::CommandBar(s) => self.handle_command_bar_key(s, key),
            Mode::TodoOverlay(s) => self.handle_todo_overlay_key(s, key),
            Mode::AiPanel(s) => self.handle_ai_panel_key(s, key),
            Mode::SpellDictPrompt(scope) => {
                self.mode = Mode::SpellDictPrompt(scope);
                self.handle_spell_dict_prompt_key(scope, key.code)
            },
            Mode::SpellDownload(s) => {
                let has_error = s.error.is_some();
                self.mode = Mode::SpellDownload(s);
                self.handle_spell_download_key(has_error, key.code)
            },
            Mode::SpellCheck(s) => self.handle_spell_check_key(s, key),
            Mode::FilterOverlay(s) => self.handle_filter_panel_key(s, key),
            Mode::Help(n) => self.handle_help_key(n, key),
        }
    }
}

// ---------------------------------------------------------------------------
// Mouse, paste, clipboard
// ---------------------------------------------------------------------------

/// Every line break as a space.
fn without_breaks(s: &str) -> (r: String)
    ensures
        r@ == app_rules::unbroken(s@),
{
    let cs = text::chars_of(s);
    let mut out = String::new();
    let mut i: usize = 0;
    proof {
        assert(out@ =~= app_rules::unbroken(s@).subrange(0, 0));
    }
    while i < cs.len()
        invariant
            i <= cs.len(),
            cs@ == s@,
            out@ == app_rules::unbroken(s@).subrange(0, i as int),
        decreases cs.len() - i,
    {
        let c = cs[i];
        words::push_char(
            &mut out,
            if c == '\r' || c == '\n' {
                ' '
            } else {
                c
            },
        );
        i += 1;
        proof {
            assert(out@ =~= app_rules::unbroken(s@).subrange(0, i as int));
        }
    }
    proof {
        assert(out@ =~= app_rules::unbroken(s@));
    }
    out
}

fn on_one_line(s: &str) -> (r: String)
    ensures
        r@ == app_rules::one_line(s@),
{
    let flat = without_breaks(s);
    words::trimmed(flat.as_str()).to_owned()
}

fn with_file_endings(editor: &Editor, s: &str) -> (r: String)
    requires
        editor.wf(),
    ensures
        r@ == app_rules::matched_endings(editor@, s@),
{
    let le = persistence::detect_line_ending(editor.buffer.as_str());
    proof {
        encode_utf8_decode_utf8(editor.buffer@);
    }
    persistence::normalise_line_endings(s, le)
}

fn count_said(verb: &str, n: usize) -> (r: String)
    ensures
        r@ == app_rules::count_text(verb@, n as int),
{
    let mut s = verb.to_owned();
    words::push_decimal(&mut s, n);
    s.append(
        if n == 1 {
            " character"
        } else {
            " characters"
        },
    );
    s
}

impl App {
    /// Mouse scroll is the only mouse interaction; the cursor intentionally stays
    /// put, like every other scrollable editor.
    pub fn handle_mouse(&mut self, down: bool)
        requires
            old(self).wf(),
        ensures
            final(self).wf(),
            final(self)@ == old(self)@.with_editor(editing::wheeled(old(self)@.editor, down)),
    {
        self.editor.wheel(down);
    }

    /// Several events are queued: what is typed forms a single undo entry.
    pub fn set_burst(&mut self, on: bool)
        requires
            old(self).wf(),
        ensures
            final(self).wf(),
            final(self)@ == old(self)@.with_editor(
                (EditorView { burst: on, ..old(self)@.editor }),
            ),
    {
        self.editor.in_burst = on;
    }

    /// The character of a key that may be gathered with the next ones into one
    /// insertion.
    pub fn gathers(&self, key: Key) -> (r: Option<char>)
        ensures
            r == app_rules::gathered(self@, key),
    {
        if self.mode.is_normal() {
            keys::accumulatable_char(key)
        } else {
            None
        }
    }

    /// Insert characters that were gathered.
    pub fn insert_gathered(&mut self, s: &str)
        requires
            old(self).wf(),
        ensures
            final(self).wf(),
            final(self)@ == app_rules::after_burst(old(self)@, s@),
    {
        if self.mode.is_normal() {
            self.editor.insert_str(s);
        }
    }

    /// Handle a bracketed-paste event delivered by the terminal.
    pub fn handle_paste(&mut self, s: &str)
        requires
            old(self).wf(),
        ensures
            final(self).wf(),
            final(self)@ == app_rules::after_paste(old(self)@, s@),
    {
        let normalised = with_file_endings(&self.editor, s);
        let mut mode = Mode::Normal;
        std::mem::swap(&mut mode, &mut self.mode);
        match mode {
            Mode::Normal => {
                self.editor.paste(normalised.as_str());
            },
            Mode::OpenPrompt(mut input) => {
                input.append(on_one_line(normalised.as_str()).as_str());
                self.mode = Mode::OpenPrompt(input);
            },
            Mode::Search(mut search) => {
                let query = joined(
                    search.query.as_str(),
                    on_one_line(normalised.as_str()).as_str(),
                );
                search.update(&mut self.editor, query);
                self.mode = Mode::Search(search);
            },
            Mode::CommandBar(mut bar) => {
                bar.input.append(on_one_line(normalised.as_str()).as_str());
                self.mode = Mode::CommandBar(bar);
            },
            Mode::AiPanel(mut panel) => {
                panel.prompt.insert_str(on_one_line(normalised.as_str()).as_str());
                self.mode = Mode::AiPanel(panel);
            },
            other => {
                self.mode = other;
            },
        }
    }

    /// The selected text was put into the clipboard, or not.
    pub fn copied(&mut self, t: &str, result: Result<(), String>)
        requires
            old(self).wf(),
        ensures
            final(self).wf(),
            final(self)@ == old(self)@.said(
                match result {
                    Ok(_) => app_rules::count_text("Copied "@, t@.len() as int),
                    Err(e) => "Copy failed: "@ + e@,
                },
            ),
    {
        let msg = match result {
            Ok(_) => count_said("Copied ", t.unicode_len()),
            Err(e) => joined("Copy failed: ", e.as_str()),
        };
        self.status_msg = Some(msg);
    }

    /// The selected text was put into the clipboard, or not; where it was, it is
    /// deleted.
    pub fn cut(&mut self, t: &str, result: Result<(), String>)
        requires
            old(self).wf(),
            old(self).mode@ is Normal,
        ensures
            final(self).wf(),
            final(self)@ == match result {
                Ok(_) => old(self)@.with_editor(
                    editing::replaced(old(self)@.editor, Seq::empty()),
                ).said(app_rules::count_text("Cut "@, t@.len() as int)),
                Err(e) => old(self)@.said("Cut failed: "@ + e@),
            },
    {
        let msg = match result {
            Ok(_) => {
                proof {
                    reveal_strlit("");
                    assert(""@ =~= Seq::<char>::empty());
                }
                let _had = self.editor.replace_selection("");
                count_said("Cut ", t.unicode_len())
            },
            Err(e) => joined("Cut failed: ", e.as_str()),
        };
        self.status_msg = Some(msg);
    }

    /// Paste what the clipboard had.
    pub fn paste_clipboard(&mut self, result: Result<String, String>)
        requires
            old(self).wf(),
            old(self).mode@ is Normal,
        ensures
            final(self).wf(),
            final(self)@ == app_rules::after_clipboard(old(self)@, text_result(result)),
    {
        match result {
            Ok(t) => {
                if t.as_str().is_empty() {
                    self.say("Clipboard empty");
                } else {
                    // Normalise line endings to match the current file.
                    let normalised = with_file_endings(&self.editor, t.as_str());
                    self.editor.paste(normalised.as_str());
                }
            },
            Err(e) => {
                let s = joined("Paste failed: ", e.as_str());
                self.status_msg = Some(s);
            },
        }
    }
}

// ---------------------------------------------------------------------------
// Save, open, reload
// ---------------------------------------------------------------------------

pub open spec fn check_view(c: Option<Result<ConflictStatus, String>>) -> Option<
    Result<ConflictStatus, Seq<char>>,
> {
    match c {
        Some(Ok(s)) => Some(Ok(s)),
        Some(Err(e)) => Some(Err(e@)),
        None => None,
    }
}

pub open spec fn write_view(r: Result<Option<FileSnapshot>, String>) -> Result<
    Option<FileSnapshot>,
    Seq<char>,
> {
    match r {
        Ok(s) => Ok(s),
        Err(e) => Err(e@),
    }
}

impl App {
    /// Save the file: `check` compares it with the snapshot, where there is one.
    /// Returns `true` if it is to be written; else a dialog or a message says why
    /// not.
    pub fn save(&mut self, check: Option<Result<ConflictStatus, String>>) -> (r: bool)
        requires
            old(self).wf(),
            old(self).mode@ is Normal,
        ensures
            final(self).wf(),
            match app_rules::save_blocked(old(self)@, check_view(check)) {
                Some(v) => !r && final(self)@ == v,
                None => r && final(self)@ == old(self)@,
            },
    {
        match check {
            None => true,
            Some(Ok(ConflictStatus::Clean)) => true,
            Some(Ok(ConflictStatus::Changed)) => {
                self.mode = Mode::Conflict(ConflictKind::Changed);
                false
            },
            Some(Ok(ConflictStatus::Missing)) => {
                self.mode = Mode::Conflict(ConflictKind::Missing);
                false
            },
            Some(Err(e)) => {
                let s = joined("Conflict check failed: ", e.as_str());
                self.status_msg = Some(s);
                false
            },
        }
    }

    /// The file was written, or not. Returns `true` if a background push starts.
    pub fn written(&mut self, result: Result<Option<FileSnapshot>, String>) -> (r: bool)
        requires
            old(self).wf(),
            old(self).mode@ is Normal,
        ensures
            final(self).wf(),
            final(self)@ == app_rules::after_write(old(self)@, write_view(result)),
            r == (result is Ok && old(self)@.push_on_save && app_rules::may_start(old(self)@)),
    {
        match result {
            Ok(snapshot) => {
                self.editor.mark_saved();
                self.snapshot = snapshot;
                self.say("Saved");
                if self.push_on_save && sync::may_start(
                    self.sync_busy,
                    self.has_repo,
                    &self.sync_state,
                ) {
                    self.sync_state = SyncState::Pushing;
                    self.sync_busy = true;
                    return true;
                }
                false
            },
            Err(e) => {
                let s = joined("Save failed: ", e.as_str());
                self.status_msg = Some(s);
                false
            },
        }
    }

    /// The conflict copy of that name was written, or not.
    pub fn copy_written(&mut self, result: Result<String, String>)
        requires
            old(self).wf(),
        ensures
            final(self).wf(),
            final(self)@ == app_rules::after_copy(old(self)@, text_result(result)),
    {
        let s = match result {
            Ok(name) => joined("Saved copy to ", name.as_str()),
            Err(e) => joined("Save failed: ", e.as_str()),
        };
        self.status_msg = Some(s);
    }

    /// The file was read again, or not.
    pub fn reloaded(&mut self, result: Result<Disk, String>)
        requires
            old(self).wf(),
            old(self).mode@ is Normal,
        ensures
            final(self).wf(),
            final(self).mode@ is Normal,
            final(self)@ == app_rules::after_reload(old(self)@, read_view(result)),
    {
        match result {
            Ok(disk) => {
                self.snapshot = disk.snapshot;
                self.editor.reload(TextBuffer::new(disk.content));
                self.say("Reloaded from disk");
            },
            Err(e) => {
                let s = joined("Reload failed: ", e.as_str());
                self.status_msg = Some(s);
            },
        }
    }

    /// Another file was read, or not. `place` is where its cursor was.
    pub fn opened(
        &mut self,
        path: String,
        result: Result<Disk, String>,
        place: Option<(usize, usize)>,
    )
        requires
            old(self).wf(),
            old(self).mode@ is Normal,
        ensures
            final(self).wf(),
            final(self)@ == app_rules::after_open(
                old(self)@,
                path@,
                read_view(result),
                editor::anchor_view(place),
            ),
    {
        match result {
            Ok(disk) => {
                let dirty = self.editor.dirty;
                self.snapshot = disk.snapshot;
                self.file = path;
                self.editor.switch_file(TextBuffer::new(disk.content), place);
                self.say(
                    if dirty {
                        "Opened  (unsaved changes discarded)"
                    } else {
                        "Opened"
                    },
                );
            },
            Err(e) => {
                let s = joined("Cannot open: ", e.as_str());
                self.status_msg = Some(s);
            },
        }
    }
}

// ---------------------------------------------------------------------------
// Sync
// ---------------------------------------------------------------------------

pub open spec fn refresh_view(d: Option<Disk>) -> Option<(Seq<char>, Option<FileSnapshot>)> {
    match d {
        Some(x) => Some(disk_view(x)),
        None => None,
    }
}

pub open spec fn resolve_view(r: Result<Result<Disk, String>, String>) -> Result<
    Result<(Seq<char>, Option<FileSnapshot>), Seq<char>>,
    Seq<char>,
> {
    match r {
        Ok(d) => Ok(read_view(d)),
        Err(e) => Err(e@),
    }
}

impl App {
    /// Idle-pull timer: when no sync is in flight and the configured interval has
    /// passed, a background pull starts. Returns `true` if it does.
    pub fn idle(&mut self, interval: u64, elapsed: u64) -> (r: bool)
        requires
            old(self).wf(),
        ensures
            final(self).wf(),
            r == (interval > 0 && elapsed >= interval && !old(self)@.busy && old(self)@.repo && (
            old(self)@.sync is Idle || old(self)@.sync is Offline || old(self)@.sync is AheadBy)),
            final(self)@ == if r {
                (AppView { sync: StateView::Pulling, busy: true, ..old(self)@ })
            } else {
                old(self)@
            },
    {
        if !self.sync_busy && sync::idle_pull_due(
            interval,
            self.has_repo,
            &self.sync_state,
            elapsed,
        ) {
            self.sync_state = SyncState::Pulling;
            self.sync_busy = true;
            return true;
        }
        false
    }

    /// A background push has ended; `ahead` is the number of unpushed commits.
    pub fn push_done(&mut self, outcome: PushOutcome, ahead: usize)
        requires
            old(self).wf(),
        ensures
            final(self).wf(),
            final(self)@ == app_rules::after_push(old(self)@, outcome@, ahead as int),
    {
        self.sync_busy = false;
        self.sync_state = sync::state_after_push(outcome, ahead);
        self.begin();
    }

    /// New text from a pull, unless there are unsaved changes.
    fn refresh(&mut self, disk: Option<Disk>)
        requires
            old(self).wf(),
        ensures
            final(self).wf(),
            final(self)@ == app_rules::refreshed(old(self)@, refresh_view(disk)),
    {
        if let Some(disk) = disk {
            if !self.editor.dirty {
                self.snapshot = disk.snapshot;
                let mut mode = Mode::Normal;
                std::mem::swap(&mut mode, &mut self.mode);
                self.editor.refresh(TextBuffer::new(disk.content));
                self.mode = mode.keep(&self.editor);
            }
        }
    }

    /// A background pull has ended; `disk` is the file by now, where it could be
    /// read. Returns `true` if a push starts.
    pub fn pull_done(&mut self, outcome: PullOutcome, disk: Option<Disk>) -> (r: bool)
        requires
            old(self).wf(),
        ensures
            final(self).wf(),
            final(self)@ == app_rules::after_pull(old(self)@, outcome@, refresh_view(disk)),
            r == final(self)@.busy,
    {
        match &outcome {
            PullOutcome::FastForwarded => {
                self.refresh(disk);
            },
            _ => {},
        }
        let markers = sync::has_conflict_markers(self.editor.buffer.as_str());
        proof {
            encode_utf8_decode_utf8(self.editor.buffer@);
        }
        self.sync_state = sync::state_after_pull(outcome, markers);
        let pushes = self.push_next && self.sync_state.is_idle();
        if pushes {
            self.sync_state = SyncState::Pushing;
        }
        self.sync_busy = pushes;
        self.push_next = false;
        self.begin();
        pushes
    }

    /// A sync conflict was settled by hand, or not: `disk` is the text of the file,
    /// where it could be read. Returns `true` if the rebase can go on.
    pub fn settle(&mut self, disk: Option<String>) -> (r: bool)
        requires
            old(self).wf(),
        ensures
            final(self).wf(),
            r == app_rules::is_settled(old(self)@, filter_panel::text_view(disk)),
            final(self)@ == if r {
                old(self)@
            } else {
                old(self)@.said("Resolve sync conflict first"@)
            },
    {
        let markers = match &disk {
            Some(s) => sync::has_conflict_markers(s.as_str()),
            None => true,
        };
        if self.editor.dirty || markers {
            self.say("Resolve sync conflict first");
            return false;
        }
        true
    }

    /// A sync conflict was resolved, and the file read again; or not.
    pub fn resolved(&mut self, result: Result<Result<Disk, String>, String>)
        requires
            old(self).wf(),
            old(self).mode@ is Normal,
        ensures
            final(self).wf(),
            final(self)@ == app_rules::after_resolve(old(self)@, resolve_view(result)),
    {
        match result {
            Ok(disk) => {
                self.say("Conflict resolved and pushed");
                // The resolution is on disk by now.
                self.reloaded(disk);
                self.sync_state = SyncState::Idle;
            },
            Err(e) => {
                let s = joined("Resolve failed: ", e.as_str());
                self.status_msg = Some(s);
                self.sync_state = SyncState::Error(e);
            },
        }
    }
}

// ---------------------------------------------------------------------------
// AI and spell check
// ---------------------------------------------------------------------------

pub open spec fn loaded_view(l: Option<Result<SpellEngine, SpellError>>) -> Option<
    Result<EngineView, Seq<char>>,
> {
    match l {
        Some(r) => Some(load_view(r)),
        None => None,
    }
}

impl App {
    /// Open the AI panel on the selection or the current note's body.
    pub fn open_ai_panel(&mut self, last_prompt: Option<String>)
        requires
            old(self).wf(),
            old(self).mode@ is Normal,
        ensures
            final(self).wf(),
            final(self)@ == old(self)@.in_mode(
                ModeView::AiPanel(app_rules::ai_opened(
                    old(self)@.editor,
                    filter_panel::text_view(last_prompt),
                )),
            ),
    {
        let panel = AiPanelState::open(&self.editor, last_prompt);
        proof {
            encode_utf8_decode_utf8(panel.original@);
            assert(panel@ == app_rules::ai_opened(
                self.editor@,
                filter_panel::text_view(last_prompt),
            ));
        }
        self.mode = Mode::AiPanel(panel);
    }

    /// The provider could not be set up.
    pub fn ai_refused(&mut self, e: &AiError)
        requires
            old(self).wf(),
        ensures
            final(self).wf(),
            final(self)@ == match old(self)@.mode {
                ModeView::AiPanel(s) => old(self)@.in_mode(
                    ModeView::AiPanel(
                        (AiView { error: Some(crate::ai::error_text(*e)), ..s }),
                    ),
                ),
                _ => old(self)@,
            },
    {
        let mut mode = Mode::Normal;
        std::mem::swap(&mut mode, &mut self.mode);
        match mode {
            Mode::AiPanel(mut s) => {
                s.refuse(e);
                self.mode = Mode::AiPanel(s);
            },
            other => {
                self.mode = other;
            },
        }
    }

    /// The request is under way.
    pub fn ai_begun(&mut self)
        requires
            old(self).wf(),
        ensures
            final(self).wf(),
            final(self)@ == match old(self)@.mode {
                ModeView::AiPanel(s) => old(self)@.in_mode(ModeView::AiPanel(s.waiting())),
                _ => old(self)@,
            },
    {
        let mut mode = Mode::Normal;
        std::mem::swap(&mut mode, &mut self.mode);
        match mode {
            Mode::AiPanel(mut s) => {
                s.begin();
                self.mode = Mode::AiPanel(s);
            },
            other => {
                self.mode = other;
            },
        }
    }

    /// The reply is in.
    pub fn ai_replied(&mut self, reply: Result<String, AiError>)
        requires
            old(self).wf(),
        ensures
            final(self).wf(),
            final(self)@ == match old(self)@.mode {
                ModeView::AiPanel(s) => old(self)@.in_mode(
                    ModeView::AiPanel(s.replied(ai_panel::reply_view(reply))),
                ),
                _ => old(self)@,
            },
    {
        let mut mode = Mode::Normal;
        std::mem::swap(&mut mode, &mut self.mode);
        match mode {
            Mode::AiPanel(mut s) => {
                s.receive(reply);
                self.mode = Mode::AiPanel(s);
            },
            other => {
                self.mode = other;
            },
        }
    }

    /// Nothing new while a request or a download is under way: the spinner turns.
    pub fn spin(&mut self)
        requires
            old(self).wf(),
        ensures
            final(self).wf(),
            final(self)@ == match old(self)@.mode {
                ModeView::AiPanel(s) => old(self)@.in_mode(
                    ModeView::AiPanel(
                        (AiView {
                            tick: if s.loading {
                                (s.tick + 1) % 256
                            } else {
                                s.tick
                            },
                            ..s
                        }),
                    ),
                ),
                ModeView::SpellDownload(d) => old(self)@.in_mode(
                    ModeView::SpellDownload(
                        (DownloadView { tick: (d.tick + 1) % 256, ..d }),
                    ),
                ),
                _ => old(self)@,
            },
    {
        let mut mode = Mode::Normal;
        std::mem::swap(&mut mode, &mut self.mode);
        match mode {
            Mode::AiPanel(mut s) => {
                s.spin();
                self.mode = Mode::AiPanel(s);
            },
            Mode::SpellDownload(mut d) => {
                d.spinner_tick =
                if d.spinner_tick < 255 {
                    d.spinner_tick + 1
                } else {
                    0
                };
                self.mode = Mode::SpellDownload(d);
            },
            other => {
                self.mode = other;
            },
        }
    }

    /// Start the wizard on a scope: at the first misspelling, or a message if there
    /// is none.
    fn start_spell_wizard(&mut self, scope: SpellScope)
        requires
            old(self).wf(),
            !(old(self).mode@ is SpellCheck),
            old(self).spell_engine is Some,
        ensures
            final(self).wf(),
            final(self)@ == app_rules::wizard_started(
                old(self)@,
                mode::scope_range(scope, old(self)@.editor),
                old(self)@.engine->Some_0,
            ),
    {
        let span = mode::resolve_spell_scope(&self.editor, scope);
        let wizard = match &self.spell_engine {
            Some(engine) => SpellWizardState::start(&mut self.editor, engine, span),
            None => None,
        };
        match wizard {
            Some(w) => {
                self.mode = Mode::SpellCheck(w);
            },
            None => {
                self.say("No misspellings found (0 words checked)");
            },
        }
    }

    /// Check the spelling of a scope. `dict_exists` tells whether there is a
    /// dictionary, and `loaded` what loading it gave, where no engine was there.
    pub fn open_spell_check(
        &mut self,
        scope: SpellScope,
        dict_exists: bool,
        loaded: Option<Result<SpellEngine, SpellError>>,
    )
        requires
            old(self).wf(),
            old(self).mode@ is Normal,
        ensures
            final(self).wf(),
            final(self)@ == app_rules::spelling_opened(
                old(self)@,
                scope,
                dict_exists,
                loaded_view(loaded),
            ),
    {
        if !dict_exists {
            self.mode = Mode::SpellDictPrompt(scope);
            return;
        }
        if self.spell_engine.is_none() {
            match loaded {
                Some(Ok(engine)) => {
                    self.spell_engine = Some(engine);
                },
                Some(Err(e)) => {
                    let m = e.message();
                    let s = joined("spell: ", m.as_str());
                    self.status_msg = Some(s);
                    return;
                },
                None => {
                    return;
                },
            }
        }
        self.start_spell_wizard(scope);
    }

    /// The download of the dictionary has ended, and it could be loaded or not. One
    /// that was cancelled is dropped.
    pub fn dict_downloaded(&mut self, result: Result<SpellEngine, SpellError>)
        requires
            old(self).wf(),
        ensures
            final(self).wf(),
            final(self)@ == match old(self)@.mode {
                ModeView::SpellDownload(d) => app_rules::downloaded(
                    old(self)@,
                    d,
                    load_view(result),
                ),
                _ => old(self)@,
            },
    {
        let mut mode = Mode::Normal;
        std::mem::swap(&mut mode, &mut self.mode);
        match mode {
            Mode::SpellDownload(mut d) => {
                let scope = d.scope;
                match result {
                    Ok(engine) => {
                        self.mode = Mode::SpellDownload(d);
                        self.spell_engine = Some(engine);
                        self.start_spell_wizard(scope);
                    },
                    Err(e) => {
                        d.error = Some(e.message());
                        self.mode = Mode::SpellDownload(d);
                    },
                }
            },
            other => {
                self.mode = other;
            },
        }
    }

    /// The word was appended to the user dictionary, or not: on to the next one,
    /// or the wizard shows the error.
    pub fn word_written(&mut self, result: Result<(), SpellError>)
        requires
            old(self).wf(),
        ensures
            final(self).wf(),
            final(self)@ == match old(self)@.mode {
                ModeView::SpellCheck(w) => match result {
                    Ok(_) => app_rules::wizard_went_on(
                        old(self)@,
                        w,
                        old(self)@.engine->Some_0,
                    ),
                    Err(e) => old(self)@.in_mode(
                        ModeView::SpellCheck(
                            (WizardView {
                                error: Some("add failed: "@ + spell::error_text(e)),
                                ..w
                            }),
                        ),
                    ),
                },
                _ => old(self)@,
            },
    {
        let mut mode = Mode::Normal;
        std::mem::swap(&mut mode, &mut self.mode);
        match mode {
            Mode::SpellCheck(mut wizard) => {
                match result {
                    Ok(_) => {
                        let outcome = match &self.spell_engine {
                            Some(engine) => wizard.word_added(&mut self.editor, engine),
                            None => WizardOutcome::Stay,
                        };
                        self.step_wizard(wizard, outcome);
                    },
                    Err(e) => {
                        let m = e.message();
                        wizard.add_failed(m.as_str());
                        self.mode = Mode::SpellCheck(wizard);
                    },
                }
            },
            other => {
                self.mode = other;
            },
        }
    }
}

/// Where nothing matches, the cursor stays.
proof fn lemma_no_match(e: EditorView, list: Seq<usize>, forward: bool)
    requires
        list.len() == 0,
    ensures
        filter_panel::at_match(e, list, forward) == e,
{
}

} // verus!
