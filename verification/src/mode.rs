//! What the editor is busy with: plain editing, a prompt, a dialog or an overlay.

use vstd::prelude::*;
use vstd::utf8::*;

use crate::ai_panel::{AiPanelState, AiView};
use crate::command_bar::{BarView, CommandBarState};
use crate::current_note;
use crate::editing;
use crate::editing::EditorView;
use crate::editor::Editor;
use crate::filter_panel;
use crate::filter_panel::{FilterPanelState, PanelView};
use crate::search_mode::{SearchState, SearchView};
use crate::spans::Span;
use crate::spell_wizard;
use crate::spell_wizard::{SpellWizardState, WizardView};
use crate::text;
use crate::todo_overlay::{OverlayView, TodoOverlayState};

verus! {

/// Why a dialog asks which version of the file counts.
#[derive(Debug, Clone, Copy, PartialEq, Eq, Structural)]
pub enum ConflictKind {
    Changed,
    Missing,
    SyncRebase,
}

/// What a spell check goes over.
#[derive(Debug, Clone, Copy)]
pub enum SpellScope {
    CurrentNote,
    WholeFile,
    Selection(Span),
}

/// A dictionary is being downloaded.
pub struct SpellDownloadState {
    pub scope: SpellScope,
    pub spinner_tick: u8,
    pub error: Option<String>,
}

#[verifier::ext_equal]
pub struct DownloadView {
    pub scope: SpellScope,
    pub tick: int,
    pub error: Option<Seq<char>>,
}

impl View for SpellDownloadState {
    type V = DownloadView;

    open spec fn view(&self) -> DownloadView {
        DownloadView {
            scope: self.scope,
            tick: self.spinner_tick as int,
            error: filter_panel::text_view(self.error),
        }
    }
}

pub enum Mode {
    Normal,
    Conflict(ConflictKind),
    OpenPrompt(String),
    Search(SearchState),
    CommandBar(CommandBarState),
    TodoOverlay(TodoOverlayState),
    AiPanel(AiPanelState),
    SpellDictPrompt(SpellScope),
    SpellDownload(SpellDownloadState),
    SpellCheck(SpellWizardState),
    FilterOverlay(FilterPanelState),
    /// The help, scrolled by so many lines.
    Help(u16),
}

#[verifier::ext_equal]
pub enum ModeView {
    Normal,
    Conflict(ConflictKind),
    OpenPrompt(Seq<char>),
    Search(SearchView),
    CommandBar(BarView),
    TodoOverlay(OverlayView),
    AiPanel(AiView),
    SpellDictPrompt(SpellScope),
    SpellDownload(DownloadView),
    SpellCheck(WizardView),
    FilterOverlay(PanelView),
    Help(int),
}

impl View for Mode {
    type V = ModeView;

    open spec fn view(&self) -> ModeView {
        match *self {
            Mode::Normal => ModeView::Normal,
            Mode::Conflict(k) => ModeView::Conflict(k),
            Mode::OpenPrompt(s) => ModeView::OpenPrompt(s@),
            Mode::Search(s) => ModeView::Search(s@),
            Mode::CommandBar(s) => ModeView::CommandBar(s@),
            Mode::TodoOverlay(s) => ModeView::TodoOverlay(s@),
            Mode::AiPanel(s) => ModeView::AiPanel(s@),
            Mode::SpellDictPrompt(s) => ModeView::SpellDictPrompt(s),
            Mode::SpellDownload(s) => ModeView::SpellDownload(s@),
            Mode::SpellCheck(s) => ModeView::SpellCheck(s@),
            Mode::FilterOverlay(s) => ModeView::FilterOverlay(s@),
            Mode::Help(n) => ModeView::Help(n as int),
        }
    }
}

// ---------------------------------------------------------------------------
// Scope of a spell check
// ---------------------------------------------------------------------------

/// The bytes that a spell check goes over. A selection of earlier text that would cut a
/// character leaves nothing to check.
pub open spec fn scope_range(scope: SpellScope, e: EditorView) -> (int, int) {
    match scope {
        SpellScope::Selection(s) => if spell_wizard::can_check(
            e.bytes,
            s.start as int,
            s.end as int,
        ) {
            (s.start as int, s.end as int)
        } else {
            (e.bytes.len() as int, e.bytes.len() as int)
        },
        SpellScope::WholeFile => (0, e.bytes.len() as int),
        SpellScope::CurrentNote => current_note::body_at(e.bytes, editing::cursor(e)),
    }
}

/// The selection if there is one, else the current note.
pub open spec fn default_scope(e: EditorView) -> SpellScope {
    match editing::selection(e) {
        Some((a, b)) => SpellScope::Selection(Span { start: a as usize, end: b as usize }),
        None => SpellScope::CurrentNote,
    }
}

pub fn resolve_spell_scope(editor: &Editor, scope: SpellScope) -> (r: Span)
    requires
        editor.wf(),
    ensures
        (r.start as int, r.end as int) == scope_range(scope, editor@),
        spell_wizard::can_check(editor@.bytes, r.start as int, r.end as int),
{
    match scope {
        SpellScope::Selection(s) => {
            let n = editor.buffer.len();
            let t = editor.buffer.as_str();
            let cut = s.start < s.end && (s.start < n && !text::at_boundary(t, s.start) || s.end < n
                && !text::at_boundary(t, s.end));
            if cut {
                Span::new(n, n)
            } else {
                s
            }
        },
        SpellScope::WholeFile => {
            proof {
                text::lemma_boundary_ends(editor.buffer@);
            }
            Span::new(0, editor.buffer.len())
        },
        SpellScope::CurrentNote => current_note::current_body(editor),
    }
}

pub fn find_default_scope(editor: &Editor) -> (r: SpellScope)
    requires
        editor.wf(),
    ensures
        r == default_scope(editor@),
{
    match editor.selection_span() {
        Some(s) => SpellScope::Selection(s),
        None => SpellScope::CurrentNote,
    }
}

// ---------------------------------------------------------------------------
// Modes and the text
// ---------------------------------------------------------------------------

impl ModeView {
    /// What the mode needs to hold of the text for its keys to act.
    pub open spec fn fits(self, e: EditorView) -> bool {
        match self {
            ModeView::Search(s) => s.sound(),
            ModeView::SpellCheck(w) => spell_wizard::in_range(w, e.bytes),
            _ => true,
        }
    }

    /// The mode after the text was replaced under it: it stays. Only a wizard whose word
    /// cannot be shown on its line any more is closed.
    pub open spec fn kept(self, e: EditorView) -> ModeView {
        match self {
            ModeView::SpellCheck(w) => if spell_wizard::can_show(e.bytes, w.span) {
                ModeView::SpellCheck(spell_wizard::refitted(w, e.bytes))
            } else {
                ModeView::Normal
            },
            _ => self,
        }
    }
}

impl Mode {
    /// The inputs of the mode are sound, and its keys can act on the text.
    pub open spec fn wf(&self, e: EditorView) -> bool {
        &&& self.sound()
        &&& self@.fits(e)
    }

    /// The cursor of an input stands between its characters, and a wizard has at
    /// most five suggestions.
    pub open spec fn sound(&self) -> bool {
        match *self {
            Mode::AiPanel(s) => s.prompt.wf(),
            Mode::FilterOverlay(s) => s.query.wf(),
            Mode::SpellCheck(s) => s.suggestions.len() <= 5,
            _ => true,
        }
    }

    /// The mode after the text was replaced under it.
    pub fn keep(self, editor: &Editor) -> (r: Mode)
        requires
            editor.wf(),
            self.sound(),
            self@ matches ModeView::Search(s) ==> s.sound(),
            self@ matches ModeView::SpellCheck(w) ==> spell_wizard::nested(w),
        ensures
            r@ == self@.kept(editor@),
            r.wf(editor@),
    {
        match self {
            Mode::SpellCheck(w) => {
                let mut w = w;
                if w.refit(editor) {
                    Mode::SpellCheck(w)
                } else {
                    Mode::Normal
                }
            },
            other => other,
        }
    }

    pub fn is_normal(&self) -> (r: bool)
        ensures
            r == (self@ is Normal),
    {
        match self {
            Mode::Normal => true,
            _ => false,
        }
    }
}

} // verus!
