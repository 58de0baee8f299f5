//! What holds of the application as a whole.

use vstd::prelude::*;

use crate::ai_panel;
use crate::app_rules;
use crate::app_rules::{ActionView, AppView};
use crate::command_bar;
use crate::editing;
use crate::editing::EditorView;
use crate::editor_laws;
use crate::keys::{Key, KeyCode, Modifiers};
use crate::mode;
use crate::mode::{ConflictKind, ModeView};
use crate::persistence::{ConflictStatus, FileSnapshot};
use crate::search_mode;
use crate::spans::Span;
use crate::spell_wizard;
use crate::spell_wizard::WizardView;
use crate::sync;
use crate::sync::PullView;
use crate::todo_overlay;
use crate::todo_overlay::{ItemView, OverlayView};
use crate::words;

verus! {

/// Ctrl and a letter.
pub open spec fn ctrl(c: char) -> Key {
    Key {
        code: KeyCode::Char(c),
        mods: Modifiers { ctrl: true, alt: false, shift: false, meta: false },
    }
}

/// Unsaved changes are not thrown away by one Ctrl+Q: the first warns and keeps the
/// text, and only the second in a row leaves. Without unsaved changes one is enough.
pub proof fn law_quit_warns_once(v: AppView, stamp: Seq<char>)
    requires
        v.mode is Normal,
        !v.pending_quit,
    ensures
        ({
            let (w, a) = app_rules::after_key(v, ctrl('q'), stamp);
            if v.editor.dirty {
                &&& a == ActionView::Stay
                &&& w.editor == v.editor
                &&& app_rules::after_key(w, ctrl('q'), stamp).1 == ActionView::Quit
            } else {
                a == ActionView::Quit
            }
        }),
{
    reveal(app_rules::normal_key);
    reveal(app_rules::control_key);
    let (w, a) = app_rules::after_key(v, ctrl('q'), stamp);
    assert(app_rules::begun(v, ctrl('q')).editor == v.editor);
}

/// What a key leaves of the way out while no dialog is open: only Ctrl+Q leaves, where
/// nothing is unsaved or the warning stands. It never touches the text; where it does
/// not leave, the warning stands from then on. Every other key takes the warning back.
pub proof fn law_quit(v: AppView, key: Key, stamp: Seq<char>)
    ensures
        ({
            let (w, a) = app_rules::normal_key(v, key, stamp);
            let quit = app_rules::is_quit_key(key);
            &&& a == ActionView::Quit <==> quit && (!v.editor.dirty || v.pending_quit)
            &&& quit ==> w.editor == v.editor
            &&& quit && a != ActionView::Quit ==> a == ActionView::Stay && w.pending_quit
            &&& !quit ==> !w.pending_quit
        }),
{
    reveal(app_rules::normal_key);
    reveal(app_rules::control_key);
    reveal(app_rules::function_key);
}

/// Any other key in between takes the warning back.
pub proof fn law_other_keys_reset_quit(v: AppView, key: Key, stamp: Seq<char>)
    requires
        v.mode is Normal,
        !app_rules::is_quit_key(key),
    ensures
        !app_rules::after_key(v, key, stamp).0.pending_quit,
{
    reveal(app_rules::normal_key);
    reveal(app_rules::control_key);
    reveal(app_rules::function_key);
}

/// `:q` leaves only where nothing is unsaved.
pub proof fn law_quit_keeps_unsaved(v: AppView)
    ensures
        app_rules::run_command(v, "q"@).1 == ActionView::Quit <==> !v.editor.dirty,
        app_rules::run_command(v, "q"@).0.editor == v.editor,
{
    reveal(app_rules::run_command);
    reveal_strlit("q");
    reveal_strlit("w");
    reveal_strlit("write");
    assert("q"@[0] != "w"@[0]);
    assert(words::piece_end("q"@, 1, ' ') == 1);
    assert(words::piece_end("q"@, 0, ' ') == 1);
    assert(app_rules::verb_of("q"@) =~= "q"@);
    assert("q"@.len() != "write"@.len());
}

/// Prompts, dialogs and lists do not touch the text while they are browsed: in
/// these modes a key leaves it as it is.
pub proof fn law_browsing_keeps_text(v: AppView, key: Key, stamp: Seq<char>)
    requires
        v.mode is Conflict || v.mode is OpenPrompt || v.mode is Search || v.mode is FilterOverlay
            || v.mode is Help || v.mode is SpellDictPrompt || v.mode is SpellDownload,
    ensures
        app_rules::after_key(v, key, stamp).0.editor.bytes == v.editor.bytes,
        app_rules::after_key(v, key, stamp).0.editor.stacks == v.editor.stacks,
{
    reveal(app_rules::conflict_key);
    reveal(app_rules::open_prompt_key);
    reveal(app_rules::search_key);
    reveal(app_rules::filter_key);
    reveal(app_rules::help_key);
    reveal(app_rules::dict_prompt_key);
    reveal(app_rules::download_key);
    if let ModeView::Search(s) = v.mode {
        search_mode::law_search_keeps_text(s, v.editor, key);
    }
}

/// Esc closes every prompt, dialog and overlay; in the AI panel it first cancels a
/// request that is under way.
pub proof fn law_esc_closes(v: AppView, mods: Modifiers, stamp: Seq<char>)
    requires
        v.mode matches ModeView::AiPanel(s) ==> !s.loading,
    ensures
        ({
            let (w, a) = app_rules::after_key(v, Key { code: KeyCode::Esc, mods }, stamp);
            &&& w.mode is Normal
            &&& a == ActionView::Stay
            &&& w.editor.bytes == v.editor.bytes
        }),
{
    let key = Key { code: KeyCode::Esc, mods };
    reveal(app_rules::normal_key);
    reveal(app_rules::keyed);
    reveal(app_rules::conflict_key);
    reveal(app_rules::open_prompt_key);
    reveal(app_rules::search_key);
    reveal(app_rules::bar_key);
    reveal(app_rules::todo_key);
    reveal(app_rules::ai_key);
    reveal(app_rules::dict_prompt_key);
    reveal(app_rules::download_key);
    reveal(app_rules::spell_key);
    reveal(app_rules::filter_key);
    reveal(app_rules::help_key);
    assert(todo_overlay::cancels(key));
}

/// A file that was changed or deleted by someone else is not overwritten: the save
/// ends in a dialog, with the text as it is.
pub proof fn law_changed_file_is_not_overwritten(v: AppView)
    ensures
        app_rules::save_blocked(v, Some(Ok(ConflictStatus::Changed))) == Some(
            v.in_mode(ModeView::Conflict(ConflictKind::Changed)),
        ),
        app_rules::save_blocked(v, Some(Ok(ConflictStatus::Missing))) == Some(
            v.in_mode(ModeView::Conflict(ConflictKind::Missing)),
        ),
        app_rules::save_blocked(v, Some(Ok(ConflictStatus::Clean))) is None,
{
}

/// A save that failed leaves the text unsaved.
pub proof fn law_failed_save_stays_unsaved(v: AppView, e: Seq<char>)
    ensures
        app_rules::after_write(v, Err(e)).editor == v.editor,
        app_rules::after_write(v, Err(e)).sync == v.sync,
{
}

/// After a save the text on disk is the one in the editor, and it can still be
/// undone.
pub proof fn law_saved_is_clean(v: AppView, snap: Option<FileSnapshot>)
    ensures
        ({
            let w = app_rules::after_write(v, Ok(snap));
            &&& !w.editor.dirty
            &&& w.editor.bytes == v.editor.bytes
            &&& w.editor.stacks == v.editor.stacks
            &&& w.snapshot == snap
        }),
{
}

/// At most one background run is in flight: while one is, neither a save nor
/// `:sync` starts another.
pub proof fn law_one_run_at_a_time(v: AppView, snap: Option<FileSnapshot>)
    requires
        v.busy,
    ensures
        app_rules::after_write(v, Ok(snap)).sync == v.sync,
        app_rules::synced(v).1 != ActionView::Pull,
        app_rules::synced(v).0.sync == v.sync,
{
}

/// Nothing is pushed or pulled while a conflict is unresolved: a save starts no
/// push, `:sync` no pull, and a file with conflict markers does not settle it.
pub proof fn law_conflict_stops_sync(v: AppView, snap: Option<FileSnapshot>, disk: Seq<char>)
    requires
        v.sync is Conflict,
        sync::has_markers(disk),
    ensures
        app_rules::after_write(v, Ok(snap)).sync is Conflict,
        app_rules::after_write(v, Ok(snap)).busy == v.busy,
        app_rules::synced(v).1 != ActionView::Pull,
        app_rules::synced(v).0.sync is Conflict,
        app_rules::synced(v).0.busy == v.busy,
        !app_rules::is_settled(v, Some(disk)),
{
}

/// A conflict that was edited by hand can be synced: once the markers are gone and
/// the text is saved, `:sync` goes on with it.
pub proof fn law_edited_conflict_can_be_synced(v: AppView, disk: Seq<char>)
    requires
        v.repo,
        v.sync is Conflict,
        !v.editor.dirty,
        !sync::has_markers(disk),
    ensures
        app_rules::synced(v) == (v, ActionView::Settle),
        app_rules::is_settled(v, Some(disk)),
{
}

/// `:sync` pulls and pushes: where nothing stands against it, it starts a pull, and a
/// pull that found nothing new is followed by a push.
pub proof fn law_sync_pulls_and_pushes(
    v: AppView,
    disk: Option<(Seq<char>, Option<FileSnapshot>)>,
)
    requires
        v.repo,
        !v.busy,
        !(v.sync is Conflict),
    ensures
        ({
            let (w, a) = app_rules::synced(v);
            let x = app_rules::after_pull(w, PullView::UpToDate, disk);
            &&& a == ActionView::Pull
            &&& x.sync is Pushing
            &&& x.busy
            &&& x.editor == v.editor
        }),
{
}

/// A pull that is not part of `:sync` is followed by no push.
pub proof fn law_other_pulls_do_not_push(
    v: AppView,
    o: PullView,
    disk: Option<(Seq<char>, Option<FileSnapshot>)>,
)
    requires
        !v.push_next,
    ensures
        !app_rules::after_pull(v, o, disk).busy,
        !(app_rules::after_pull(v, o, disk).sync is Pushing),
{
}

/// A conflict shows its dialog at once, whatever was open.
pub proof fn law_conflict_is_shown(v: AppView, o: PullView, disk: Option<(Seq<char>, Option<FileSnapshot>)>)
    ensures
        app_rules::after_pull(v, o, disk).sync is Conflict ==> app_rules::after_pull(
            v,
            o,
            disk,
        ).mode == ModeView::Conflict(ConflictKind::SyncRebase),
{
}

/// A pull never replaces text with unsaved changes.
pub proof fn law_pull_keeps_unsaved(
    v: AppView,
    o: PullView,
    disk: Option<(Seq<char>, Option<FileSnapshot>)>,
)
    requires
        v.editor.dirty,
    ensures
        app_rules::after_pull(v, o, disk).editor == v.editor,
        app_rules::after_pull(v, o, disk).snapshot == v.snapshot,
{
}

/// What is open over the text stays open when a pull without conflict brings new text:
/// lists, prompts and panels as they are, the spell check as long as its word can be
/// shown.
pub proof fn law_pull_keeps_open(
    v: AppView,
    o: PullView,
    disk: Option<(Seq<char>, Option<FileSnapshot>)>,
)
    requires
        !(app_rules::after_pull(v, o, disk).sync is Conflict),
    ensures
        ({
            let w = app_rules::after_pull(v, o, disk);
            match v.mode {
                ModeView::SpellCheck(s) => spell_wizard::can_show(w.editor.bytes, s.span) ==> (
                w.mode is SpellCheck && w.mode->SpellCheck_0.word == s.word),
                _ => w.mode == v.mode,
            }
        }),
{
}

/// An edit made by an overlay or over the selection is one undo entry: accepting what
/// the assistant wrote, fixing a word, inserting text, replacing the selection and
/// toggling a todo are each taken back by one undo, wherever the overlay goes next.
pub proof fn law_every_edit_is_one_undo(
    e: EditorView,
    s: Seq<char>,
    range: Span,
    wizard: WizardView,
    next: int,
    overlay: OverlayView,
    todo: ItemView,
)
    requires
        editing::state_ok(e),
    ensures
        range.lies_in(e.bytes) ==> editor_laws::brings_back(ai_panel::accepted(e, range, s), e),
        editor_laws::brings_back(
            spell_wizard::shown_at(spell_wizard::fixed(wizard, e, s), next),
            e,
        ),
        editor_laws::brings_back(spell_wizard::fixed(wizard, e, s), e),
        editor_laws::brings_back(editing::inserted(e, s), e),
        editing::selection(e) is Some ==> editor_laws::brings_back(editing::replaced(e, s), e),
        todo_overlay::can_toggle(e.bytes, todo) ==> editor_laws::brings_back(
            overlay.followed(todo_overlay::toggled(e, todo)),
            e,
        ),
{
    spell_wizard::law_fix_is_one_undo(wizard, e, s, next);
    editor_laws::law_one_undo(e, editing::inserted(e, s));
    if range.lies_in(e.bytes) {
        ai_panel::law_accept_is_one_undo(e, range, s);
    }
    if editing::selection(e) is Some {
        editor_laws::law_one_undo(e, editing::replaced(e, s));
    }
    if todo_overlay::can_toggle(e.bytes, todo) {
        editor_laws::law_one_undo(e, overlay.followed(todo_overlay::toggled(e, todo)));
    }
}

/// Cutting is one undo entry: an undo brings text and cursor back.
pub proof fn law_cut_is_one_undo(e: EditorView)
    requires
        editing::state_ok(e),
        editing::selection(e) is Some,
    ensures
        editor_laws::brings_back(editing::replaced(e, Seq::empty()), e),
{
    editor_laws::law_one_undo(e, editing::replaced(e, Seq::empty()));
}

proof fn lemma_other_keeps_history(v: AppView, verb: Seq<char>, arg: Seq<char>)
    ensures
        app_rules::run_other(v, verb, arg).0.history == v.history,
{
}

proof fn lemma_command_keeps_history(v: AppView, cmd: Seq<char>)
    ensures
        app_rules::run_command(v, cmd).0.history == v.history,
{
    reveal(app_rules::run_command);
    lemma_other_keeps_history(v, app_rules::verb_of(cmd), app_rules::argument_of(cmd));
}

/// A command that was run is the newest of the history.
pub proof fn law_commands_are_remembered(v: AppView, mods: Modifiers, stamp: Seq<char>)
    requires
        v.mode is CommandBar,
        words::trim(v.mode->CommandBar_0.input).len() > 0,
    ensures
        ({
            let (w, _) = app_rules::after_key(v, Key { code: KeyCode::Enter, mods }, stamp);
            w.history.len() > 0 && w.history.last() == words::trim(
                v.mode->CommandBar_0.input,
            )
        }),
{
    reveal(app_rules::bar_key);
    let cmd = words::trim(v.mode->CommandBar_0.input);
    let w = v.in_mode(ModeView::Normal);
    lemma_command_keeps_history(
        AppView { history: command_bar::remembered(w.history, cmd), ..w },
        cmd,
    );
}

/// The active filter outlives its panel: neither Enter nor Esc clears it.
pub proof fn law_filter_outlives_panel(v: AppView, mods: Modifiers, stamp: Seq<char>)
    requires
        v.mode is FilterOverlay,
    ensures
        app_rules::after_key(v, Key { code: KeyCode::Enter, mods }, stamp).0.filter == v.filter,
        app_rules::after_key(v, Key { code: KeyCode::Esc, mods }, stamp).0.filter == v.filter,
{
    reveal(app_rules::filter_key);
}

} // verus!
