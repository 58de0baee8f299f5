//! The application, driven by keys and events.

use jotlog::ai::AiError;
use jotlog::app::{Action, App, Disk};
use jotlog::config::Config;
use jotlog::keys::{Key, KeyCode, Modifiers};
use jotlog::mode::{resolve_spell_scope, ConflictKind, Mode, SpellScope};
use jotlog::persistence::{ConflictStatus, FileSnapshot, Mtime};
use jotlog::spans::Span;
use jotlog::spell::{SpellEngine, SpellError};
use jotlog::sync::{PullOutcome, PushOutcome, SyncState};

const STAMP: &str = "2026-05-12 15:22";

fn disk(content: &str) -> Disk {
    Disk { content: content.to_string(), snapshot: None }
}

fn app_with(content: &str, repo: bool) -> App {
    let cfg = Config::default_with_auto_sep();
    App::open("notes.jot".to_string(), disk(content), None, &cfg, repo, repo, None)
}

fn app(content: &str) -> App {
    app_with(content, false)
}

fn mods(ctrl: bool, shift: bool) -> Modifiers {
    Modifiers { ctrl, alt: false, shift, meta: false }
}

fn key(code: KeyCode) -> Key {
    Key { code, mods: mods(false, false) }
}

fn shifted(code: KeyCode) -> Key {
    Key { code, mods: mods(false, true) }
}

fn ctrl(c: char) -> Key {
    Key { code: KeyCode::Char(c), mods: mods(true, false) }
}

fn press(a: &mut App, k: Key) -> Action {
    a.handle_key(k, STAMP)
}

fn type_text(a: &mut App, s: &str) {
    for c in s.chars() {
        press(a, key(KeyCode::Char(c)));
    }
}

fn run(a: &mut App, cmd: &str) -> Action {
    press(a, ctrl(';'));
    type_text(a, cmd);
    press(a, key(KeyCode::Enter))
}

fn text(a: &App) -> &str {
    a.editor.buffer.as_str()
}

fn place(a: &App) -> (usize, usize) {
    (a.editor.cursor_line, a.editor.cursor_byte)
}

fn status(a: &App) -> &str {
    a.status_msg.as_deref().unwrap_or("")
}

fn is_normal(a: &App) -> bool {
    matches!(a.mode, Mode::Normal)
}

// ---- Editing ----------------------------------------------------------------

#[test]
fn typing_is_undone_word_by_word() {
    let mut a = app("");
    type_text(&mut a, "foo bar");
    assert_eq!(text(&a), "foo bar");
    assert!(a.editor.dirty);
    press(&mut a, ctrl('z'));
    assert_eq!(text(&a), "foo ");
    assert_eq!(status(&a), "Undo  (2 more)");
    press(&mut a, ctrl('z'));
    assert_eq!(text(&a), "foo");
    press(&mut a, ctrl('z'));
    assert_eq!(text(&a), "");
    assert_eq!(status(&a), "Undo  (nothing more)");
    assert!(!a.editor.dirty, "back at the text on disk");
    press(&mut a, ctrl('z'));
    assert_eq!(status(&a), "Nothing to undo");
    press(&mut a, ctrl('y'));
    assert_eq!(text(&a), "foo");
    assert_eq!(status(&a), "Redo  (2 more)");
    press(&mut a, ctrl('y'));
    press(&mut a, ctrl('y'));
    assert_eq!(text(&a), "foo bar");
    assert_eq!(status(&a), "Redo");
    press(&mut a, ctrl('y'));
    assert_eq!(status(&a), "Nothing to redo");
}

#[test]
fn moving_breaks_the_batch() {
    let mut a = app("");
    type_text(&mut a, "ab");
    press(&mut a, key(KeyCode::Left));
    type_text(&mut a, "x");
    assert_eq!(text(&a), "axb");
    press(&mut a, ctrl('z'));
    assert_eq!(text(&a), "ab");
}

#[test]
fn enter_keeps_the_line_ending_of_the_file() {
    let mut a = app("one\r\ntwo\r\n");
    press(&mut a, key(KeyCode::End));
    press(&mut a, key(KeyCode::Enter));
    assert_eq!(text(&a), "one\r\n\r\ntwo\r\n");
    assert_eq!(place(&a), (1, 0));
}

#[test]
fn backspace_and_delete_join_lines() {
    let mut a = app("one\ntwo\n");
    press(&mut a, key(KeyCode::Down));
    press(&mut a, key(KeyCode::Backspace));
    assert_eq!(text(&a), "onetwo\n");
    assert_eq!(place(&a), (0, 3));
    press(&mut a, ctrl('z'));
    assert_eq!(text(&a), "one\ntwo\n");
    press(&mut a, key(KeyCode::Up));
    press(&mut a, key(KeyCode::End));
    press(&mut a, key(KeyCode::Delete));
    assert_eq!(text(&a), "onetwo\n");
}

#[test]
fn multibyte_text_is_edited_by_characters() {
    let mut a = app("");
    type_text(&mut a, "héé");
    press(&mut a, key(KeyCode::Left));
    press(&mut a, key(KeyCode::Backspace));
    assert_eq!(text(&a), "hé");
    assert_eq!(place(&a), (0, 1));
}

#[test]
fn tab_inserts_four_spaces() {
    let mut a = app("");
    press(&mut a, key(KeyCode::Tab));
    assert_eq!(text(&a), "    ");
}

#[test]
fn delimiters_are_stamped_on_enter() {
    let mut a = app("===");
    press(&mut a, key(KeyCode::End));
    press(&mut a, key(KeyCode::Enter));
    assert_eq!(text(&a), "=== 2026-05-12 15:22\n");
    assert_eq!(place(&a), (1, 0));

    let mut a = app("=== Morning standup");
    press(&mut a, key(KeyCode::End));
    press(&mut a, key(KeyCode::Enter));
    assert_eq!(text(&a), "=== Morning standup | 2026-05-12 15:22\n");
}

#[test]
fn stamped_delimiters_are_left_alone() {
    for line in ["=== a | b", "=== 2026-05-12 standup", "text"] {
        let mut a = app(line);
        press(&mut a, key(KeyCode::End));
        press(&mut a, key(KeyCode::Enter));
        assert_eq!(text(&a), format!("{line}\n"));
    }
}

#[test]
fn shift_selects_and_typing_replaces() {
    let mut a = app("hello world");
    for _ in 0..5 {
        press(&mut a, shifted(KeyCode::Right));
    }
    assert_eq!(a.editor.selected_text().as_deref(), Some("hello"));
    type_text(&mut a, "J");
    assert_eq!(text(&a), "J world");
    press(&mut a, ctrl('z'));
    assert_eq!(text(&a), "hello world");
}

#[test]
fn plain_movement_and_esc_end_a_selection() {
    let mut a = app("hello");
    press(&mut a, shifted(KeyCode::Right));
    assert!(a.editor.selected_text().is_some());
    press(&mut a, key(KeyCode::Right));
    assert!(a.editor.selected_text().is_none());
    press(&mut a, shifted(KeyCode::Right));
    press(&mut a, key(KeyCode::Esc));
    assert!(a.editor.selected_text().is_none());
}

#[test]
fn copy_cut_and_paste() {
    let mut a = app("hello world");
    assert!(matches!(press(&mut a, ctrl('c')), Action::Stay));
    assert_eq!(status(&a), "Nothing selected");
    press(&mut a, shifted(KeyCode::End));
    let copied = match press(&mut a, ctrl('c')) {
        Action::Copy(t) => t,
        _ => panic!("copy expected"),
    };
    assert_eq!(copied, "hello world");
    a.copied(&copied, Ok(()));
    assert_eq!(status(&a), "Copied 11 characters");
    a.copied(&copied, Err("no display".to_string()));
    assert_eq!(status(&a), "Copy failed: no display");
    let cut = match press(&mut a, ctrl('x')) {
        Action::Cut(t) => t,
        _ => panic!("cut expected"),
    };
    a.cut(&cut, Err("no display".to_string()));
    assert_eq!(text(&a), "hello world");
    assert_eq!(status(&a), "Cut failed: no display");
    a.cut(&cut, Ok(()));
    assert_eq!(text(&a), "");
    assert_eq!(status(&a), "Cut 11 characters");
    assert!(matches!(press(&mut a, ctrl('v')), Action::Paste));
    a.paste_clipboard(Ok("a\r\nb".to_string()));
    assert_eq!(text(&a), "a\nb");
    a.paste_clipboard(Ok(String::new()));
    assert_eq!(status(&a), "Clipboard empty");
    a.paste_clipboard(Err("no display".to_string()));
    assert_eq!(status(&a), "Paste failed: no display");
    press(&mut a, ctrl('z'));
    assert_eq!(text(&a), "", "a paste is one undo entry");
}

#[test]
fn one_character_is_counted_in_the_singular() {
    let mut a = app("h");
    a.copied("h", Ok(()));
    assert_eq!(status(&a), "Copied 1 character");
}

#[test]
fn a_burst_is_one_undo_entry() {
    let mut a = app("");
    assert_eq!(a.gathers(key(KeyCode::Char('x'))), Some('x'));
    assert_eq!(a.gathers(ctrl('x')), None);
    assert_eq!(a.gathers(key(KeyCode::Enter)), None);
    a.set_burst(true);
    a.insert_gathered("one two");
    press(&mut a, key(KeyCode::Enter));
    a.insert_gathered("three");
    a.set_burst(false);
    assert_eq!(text(&a), "one two\nthree");
    press(&mut a, ctrl('z'));
    assert_eq!(text(&a), "");
}

#[test]
fn overlays_take_their_characters_one_by_one() {
    let mut a = app("text");
    press(&mut a, ctrl('f'));
    assert_eq!(a.gathers(key(KeyCode::Char('x'))), None);
    a.insert_gathered("x");
    assert_eq!(text(&a), "text");
}

#[test]
fn the_wheel_moves_the_view_alone() {
    let mut a = app(&"line\n".repeat(20));
    a.resize(80, 10);
    a.handle_mouse(true);
    assert_eq!(a.editor.scroll, 3);
    assert_eq!(place(&a), (0, 0));
    a.handle_mouse(false);
    a.handle_mouse(false);
    assert_eq!(a.editor.scroll, 0);
}

#[test]
fn page_keys_move_by_the_view() {
    let mut a = app(&"line\n".repeat(40));
    a.resize(80, 13);
    press(&mut a, key(KeyCode::PageDown));
    assert_eq!(place(&a), (10, 0));
    press(&mut a, key(KeyCode::PageUp));
    assert_eq!(place(&a), (0, 0));
}

// ---- Quitting ---------------------------------------------------------------

#[test]
fn quitting_warns_once() {
    let mut a = app("");
    assert!(matches!(press(&mut a, ctrl('q')), Action::Quit));
    type_text(&mut a, "x");
    assert!(matches!(press(&mut a, ctrl('q')), Action::Stay));
    assert_eq!(status(&a), "Unsaved changes \u{2014} Ctrl+S to save, Ctrl+Q again to discard");
    assert!(matches!(press(&mut a, ctrl('q')), Action::Quit));
    press(&mut a, key(KeyCode::Right));
    assert!(matches!(press(&mut a, ctrl('q')), Action::Stay), "another key takes it back");
}

#[test]
fn quit_commands() {
    let mut a = app("");
    assert!(matches!(run(&mut a, "q"), Action::Quit));
    assert!(matches!(run(&mut a, "wq"), Action::Save { quit: true }));
    type_text(&mut a, "x");
    assert!(matches!(run(&mut a, "quit"), Action::Stay));
    assert_eq!(
        status(&a),
        "Unsaved changes \u{2014} :w to save, :q! to discard, :wq to save+quit"
    );
    assert!(matches!(run(&mut a, "q!"), Action::Quit));
    assert!(matches!(run(&mut a, "w"), Action::Save { quit: false }));
}

// ---- Commands ---------------------------------------------------------------

#[test]
fn goto_moves_or_says_why_not() {
    let mut a = app("a\nb\nc");
    run(&mut a, "goto 2");
    assert_eq!(place(&a), (1, 0));
    assert_eq!(status(&a), "Line 2");
    run(&mut a, "go 99");
    assert_eq!(place(&a), (2, 0));
    assert_eq!(status(&a), "Line 99");
    run(&mut a, "goto");
    assert_eq!(status(&a), "Usage: :goto <line>");
    run(&mut a, "goto 0");
    assert_eq!(status(&a), "Invalid line number: '0'");
    run(&mut a, "goto x");
    assert_eq!(status(&a), "Invalid line number: 'x'");
}

#[test]
fn other_commands_answer() {
    let mut a = app("");
    run(&mut a, "set");
    assert_eq!(status(&a), "No configurable settings yet");
    run(&mut a, "frobnicate now");
    assert_eq!(status(&a), "Unknown command: :frobnicate");
    run(&mut a, "clear");
    assert_eq!(status(&a), "No active filter");
    run(&mut a, "sync");
    assert_eq!(status(&a), "Sync disabled (not in a git repo)");
    assert!(matches!(run(&mut a, "ai"), Action::OpenAi));
    assert!(matches!(run(&mut a, "spell all"), Action::CheckSpelling(SpellScope::WholeFile)));
    assert!(matches!(run(&mut a, "spell"), Action::CheckSpelling(SpellScope::CurrentNote)));
    run(&mut a, "help");
    assert!(matches!(a.mode, Mode::Help(0)));
}

#[test]
fn the_command_bar_remembers_and_cancels() {
    let mut a = app("");
    run(&mut a, "set");
    run(&mut a, "set");
    run(&mut a, "clear");
    assert_eq!(a.cmd_history, vec!["set", "clear"]);
    press(&mut a, key(KeyCode::F(10)));
    press(&mut a, key(KeyCode::Up));
    press(&mut a, key(KeyCode::Up));
    match &a.mode {
        Mode::CommandBar(s) => assert_eq!(s.input, "set"),
        _ => panic!("command bar expected"),
    }
    press(&mut a, key(KeyCode::Esc));
    assert!(is_normal(&a));
    assert_eq!(status(&a), "Cancelled");
    press(&mut a, ctrl(';'));
    type_text(&mut a, "goto 1");
    press(&mut a, ctrl('g'));
    assert!(is_normal(&a));
    assert_eq!(status(&a), "Cancelled");
    press(&mut a, ctrl(';'));
    press(&mut a, key(KeyCode::Enter));
    assert!(is_normal(&a), "an empty command does nothing");
}

// ---- Notes, filter, search, todos -------------------------------------------

const NOTES: &str = "=== 2026-05-11 | One\n#oci first\n\n=== 2026-05-12 | Two\n#java second\n\n=== 2026-05-13 | Three\n#oci third\n";

#[test]
fn note_navigation() {
    let mut a = app(NOTES);
    press(&mut a, ctrl('j'));
    assert_eq!(place(&a), (3, 0));
    press(&mut a, ctrl('j'));
    press(&mut a, ctrl('j'));
    assert_eq!(place(&a), (6, 0));
    assert_eq!(status(&a), "No next note");
    press(&mut a, ctrl('k'));
    press(&mut a, ctrl('k'));
    press(&mut a, ctrl('k'));
    assert_eq!(place(&a), (0, 0));
    assert_eq!(status(&a), "No previous note");
}

#[test]
fn the_filter_panel_follows_and_cancels() {
    let mut a = app(NOTES);
    press(&mut a, ctrl('p'));
    type_text(&mut a, "tag:oci");
    // The newest match first.
    assert_eq!(place(&a), (6, 0));
    press(&mut a, key(KeyCode::Down));
    assert_eq!(place(&a), (0, 0));
    press(&mut a, key(KeyCode::Up));
    press(&mut a, key(KeyCode::Esc));
    assert!(is_normal(&a));
    assert_eq!(place(&a), (0, 0), "cancelling restores the cursor");
    assert_eq!(a.active_filter.as_deref(), Some("tag:oci"), "the filter stays");
    press(&mut a, key(KeyCode::F(4)));
    assert_eq!(place(&a), (6, 0));
    press(&mut a, shifted(KeyCode::F(4)));
    assert_eq!(place(&a), (0, 0));
    press(&mut a, ctrl('j'));
    assert_eq!(place(&a), (6, 0), "note navigation keeps to the matches");
    run(&mut a, "clear");
    assert_eq!(status(&a), "Filter cleared");
    run(&mut a, "next");
    assert_eq!(status(&a), "No active filter");
}

#[test]
fn a_filter_without_matches_says_so() {
    let mut a = app(NOTES);
    run(&mut a, "filter tag:rust");
    assert!(matches!(a.mode, Mode::FilterOverlay(_)));
    press(&mut a, key(KeyCode::Enter));
    run(&mut a, "prev");
    assert_eq!(status(&a), "[filter: tag:rust] no matches");
}

#[test]
fn search_finds_and_turns() {
    let mut a = app("one two one\nTWO one\n");
    press(&mut a, ctrl('f'));
    type_text(&mut a, "two");
    assert_eq!(place(&a), (0, 4));
    press(&mut a, key(KeyCode::Enter));
    assert_eq!(place(&a), (1, 0));
    press(&mut a, key(KeyCode::F(3)));
    assert_eq!(place(&a), (0, 4));
    press(&mut a, shifted(KeyCode::Enter));
    assert_eq!(place(&a), (1, 0));
    press(&mut a, key(KeyCode::Backspace));
    match &a.mode {
        Mode::Search(s) => assert_eq!(s.query, "tw"),
        _ => panic!("search expected"),
    }
    press(&mut a, key(KeyCode::Esc));
    assert!(is_normal(&a));
    assert_eq!(text(&a), "one two one\nTWO one\n");
}

#[test]
fn the_todo_overlay_toggles_in_place() {
    let mut a = app("top\nTODO: one\n- [ ] two\nDONE: three\n");
    press(&mut a, key(KeyCode::F(8)));
    assert_eq!(place(&a), (1, 0));
    press(&mut a, key(KeyCode::Down));
    assert_eq!(place(&a), (2, 0));
    press(&mut a, key(KeyCode::Char(' ')));
    assert_eq!(text(&a), "top\nTODO: one\n- [x] two\nDONE: three\n");
    press(&mut a, key(KeyCode::Char('a')));
    press(&mut a, key(KeyCode::Esc));
    assert!(is_normal(&a));
    assert_eq!(place(&a), (0, 0));
    press(&mut a, ctrl('z'));
    assert_eq!(text(&a), "top\nTODO: one\n- [ ] two\nDONE: three\n");
}

#[test]
fn the_help_scrolls_and_closes() {
    let mut a = app("");
    a.resize(80, 24);
    press(&mut a, key(KeyCode::F(1)));
    press(&mut a, key(KeyCode::Down));
    assert!(matches!(a.mode, Mode::Help(1)));
    press(&mut a, key(KeyCode::End));
    let most = jotlog::help::help_max_scroll(23);
    match a.mode {
        Mode::Help(n) => assert_eq!(n, most),
        _ => panic!("help expected"),
    }
    press(&mut a, key(KeyCode::Char('q')));
    assert!(is_normal(&a));
}

// ---- Prompts and pastes -----------------------------------------------------

#[test]
fn the_open_prompt_asks_for_a_file() {
    let mut a = app("old");
    press(&mut a, ctrl('o'));
    press(&mut a, key(KeyCode::Enter));
    assert_eq!(status(&a), "Open cancelled");
    press(&mut a, ctrl('o'));
    type_text(&mut a, " other.jotx");
    press(&mut a, key(KeyCode::Backspace));
    let path = match press(&mut a, key(KeyCode::Enter)) {
        Action::Open(p) => p,
        _ => panic!("open expected"),
    };
    assert_eq!(path, "other.jot");
    type_text(&mut a, "x");
    a.opened(path.clone(), Err("denied".to_string()), None);
    assert_eq!(status(&a), "Cannot open: denied");
    assert_eq!(text(&a), "xold");
    a.opened(path, Ok(disk("a\nbcd\n")), Some((1, 99)));
    assert_eq!(status(&a), "Opened  (unsaved changes discarded)");
    assert_eq!(a.file, "other.jot");
    assert_eq!(place(&a), (1, 3));
    assert!(!a.editor.dirty);
    a.opened("third.jot".to_string(), Ok(disk("")), None);
    assert_eq!(status(&a), "Opened");
}

#[test]
fn pastes_go_where_the_keys_go() {
    let mut a = app("x\r\n");
    a.handle_paste("1\n2");
    assert_eq!(text(&a), "1\r\n2x\r\n");
    press(&mut a, ctrl('o'));
    a.handle_paste("  a\nb  ");
    match &a.mode {
        Mode::OpenPrompt(s) => assert_eq!(s, "a  b"),
        _ => panic!("prompt expected"),
    }
    press(&mut a, key(KeyCode::Esc));
    press(&mut a, ctrl('f'));
    a.handle_paste("2x");
    assert_eq!(place(&a), (1, 0));
    press(&mut a, key(KeyCode::Esc));
    press(&mut a, ctrl(';'));
    a.handle_paste("set\n");
    press(&mut a, key(KeyCode::Enter));
    assert_eq!(status(&a), "No configurable settings yet");
    press(&mut a, key(KeyCode::F(1)));
    a.handle_paste("ignored");
    assert_eq!(text(&a), "1\r\n2x\r\n");
}

// ---- Saving -----------------------------------------------------------------

fn snapshot(content: &str) -> FileSnapshot {
    FileSnapshot::capture(Mtime { secs: 1, nanos: 0 }, content.as_bytes())
}

#[test]
fn saving_clears_the_dirty_flag() {
    let mut a = app("");
    type_text(&mut a, "x");
    assert!(matches!(press(&mut a, ctrl('s')), Action::Save { quit: false }));
    assert!(a.save(None));
    assert!(!a.written(Ok(Some(snapshot("x")))));
    assert!(!a.editor.dirty);
    assert_eq!(status(&a), "Saved");
    assert_eq!(a.snapshot, Some(snapshot("x")));
    type_text(&mut a, "y");
    assert!(!a.written(Err("disk full".to_string())));
    assert_eq!(status(&a), "Save failed: disk full");
    assert!(a.editor.dirty);
    assert!(!a.save(Some(Err("stat".to_string()))));
    assert_eq!(status(&a), "Conflict check failed: stat");
}

#[test]
fn a_changed_file_opens_the_dialog() {
    let mut a = app("mine");
    type_text(&mut a, "x");
    assert!(a.save(Some(Ok(ConflictStatus::Clean))));
    assert!(!a.save(Some(Ok(ConflictStatus::Changed))));
    assert!(matches!(a.mode, Mode::Conflict(ConflictKind::Changed)));
    press(&mut a, key(KeyCode::Char('x')));
    assert!(!is_normal(&a), "other keys are ignored");
    assert!(matches!(press(&mut a, key(KeyCode::Char('S'))), Action::WriteCopy));
    a.copy_written(Ok("notes.conflict.jot".to_string()));
    assert_eq!(status(&a), "Saved copy to notes.conflict.jot");
    assert!(a.editor.dirty, "the file itself is still unsaved");
    a.copy_written(Err("denied".to_string()));
    assert_eq!(status(&a), "Save failed: denied");
    a.save(Some(Ok(ConflictStatus::Changed)));
    assert!(matches!(press(&mut a, key(KeyCode::Char('o'))), Action::Write));
    a.save(Some(Ok(ConflictStatus::Changed)));
    assert!(matches!(press(&mut a, key(KeyCode::Char('r'))), Action::Reload));
    a.reloaded(Ok(disk("theirs")));
    assert_eq!(text(&a), "theirs");
    assert_eq!(status(&a), "Reloaded from disk");
    a.reloaded(Err("gone".to_string()));
    assert_eq!(status(&a), "Reload failed: gone");
    a.save(Some(Ok(ConflictStatus::Changed)));
    press(&mut a, key(KeyCode::Esc));
    assert_eq!(status(&a), "Save cancelled");
}

#[test]
fn a_deleted_file_can_be_written_again() {
    let mut a = app("mine");
    type_text(&mut a, "x");
    assert!(!a.save(Some(Ok(ConflictStatus::Missing))));
    assert!(matches!(a.mode, Mode::Conflict(ConflictKind::Missing)));
    assert!(matches!(press(&mut a, key(KeyCode::Char('s'))), Action::Stay));
    assert!(!is_normal(&a), "there is nothing to keep a copy beside");
    press(&mut a, key(KeyCode::Char('R')));
    assert_eq!(status(&a), "File was deleted; save again to re-create it");
    assert!(!a.editor.dirty);
    assert_eq!(a.snapshot, None);
}

// ---- Sync -------------------------------------------------------------------

#[test]
fn a_save_starts_one_push() {
    let mut a = app_with("", true);
    assert!(matches!(a.sync_state, SyncState::Idle));
    assert!(a.written(Ok(None)));
    assert!(matches!(a.sync_state, SyncState::Pushing));
    assert!(!a.written(Ok(None)), "one run at a time");
    run(&mut a, "sync");
    assert_eq!(status(&a), "Sync already in progress");
    a.push_done(PushOutcome::Conflicted, 0);
    assert!(matches!(a.sync_state, SyncState::AheadBy(1)));
    assert!(matches!(run(&mut a, "sync"), Action::Pull));
    assert!(matches!(a.sync_state, SyncState::Pulling));
    assert!(a.pull_done(PullOutcome::UpToDate, None), "a manual sync also pushes");
    assert!(matches!(a.sync_state, SyncState::Pushing));
    a.push_done(PushOutcome::Pushed, 0);
    assert!(matches!(a.sync_state, SyncState::Idle));
}

#[test]
fn a_sync_that_cannot_pull_does_not_push() {
    let mut a = app_with("", true);
    run(&mut a, "sync");
    assert!(!a.pull_done(PullOutcome::Offline, None));
    assert!(matches!(a.sync_state, SyncState::Offline));
    assert!(a.idle(300, 300));
    assert!(!a.pull_done(PullOutcome::UpToDate, None), "the idle timer only pulls");
    assert!(matches!(a.sync_state, SyncState::Idle));
}

#[test]
fn a_conflict_edited_by_hand_can_be_synced() {
    let marked = "<<<<<<< HEAD\nmine\n=======\ntheirs\n>>>>>>> x\n";
    let mut a = app_with("mine\n", true);
    assert!(!a.pull_done(PullOutcome::Conflicted, None));
    assert!(matches!(press(&mut a, key(KeyCode::Char('e'))), Action::Reload));
    a.reloaded(Ok(disk(marked)));
    assert!(matches!(run(&mut a, "sync"), Action::Settle));
    assert!(!a.settle(Some(marked.to_string())));
    assert_eq!(status(&a), "Resolve sync conflict first");
    type_text(&mut a, "x");
    assert!(!a.settle(Some("mine\n".to_string())), "not saved yet");
    a.reloaded(Ok(disk("mine\n")));
    assert!(!a.settle(None));
    assert!(a.settle(Some("mine\n".to_string())));
    a.resolved(Ok(Ok(disk("mine\n"))));
    assert!(matches!(a.sync_state, SyncState::Idle));
}

#[test]
fn the_idle_timer_pulls() {
    let mut a = app_with("", true);
    assert!(!a.idle(300, 299));
    assert!(!a.idle(0, 1000));
    assert!(a.idle(300, 300));
    assert!(matches!(a.sync_state, SyncState::Pulling));
    assert!(!a.idle(300, 300));
    a.pull_done(PullOutcome::Offline, None);
    assert!(matches!(a.sync_state, SyncState::Offline));
}

#[test]
fn a_pull_brings_new_text_unless_dirty() {
    let mut a = app_with("old", true);
    a.pull_done(PullOutcome::FastForwarded, Some(disk("new")));
    assert_eq!(text(&a), "new");
    type_text(&mut a, "x");
    a.pull_done(PullOutcome::FastForwarded, Some(disk("newer")));
    assert_eq!(text(&a), "xnew");
}

#[test]
fn a_search_stays_open_over_pulled_text() {
    let mut a = app_with("one two\ntwo", true);
    press(&mut a, ctrl('f'));
    type_text(&mut a, "two");
    assert_eq!(place(&a), (0, 4));
    a.pull_done(PullOutcome::FastForwarded, Some(disk("one")));
    match &a.mode {
        Mode::Search(s) => assert_eq!(s.matches, vec![(0, 4, 3), (1, 0, 3)]),
        _ => panic!("search expected"),
    }
    press(&mut a, key(KeyCode::Down));
    assert_eq!(place(&a), (0, 0), "the place of the match is gone");
    press(&mut a, key(KeyCode::Esc));
    assert!(is_normal(&a));
    assert_eq!(text(&a), "one");
}

#[test]
fn todos_stay_open_over_pulled_text() {
    let mut a = app_with("x\nTODO: a\n", true);
    press(&mut a, key(KeyCode::F(8)));
    a.pull_done(PullOutcome::FastForwarded, Some(disk("x\nhello there\n")));
    match &a.mode {
        Mode::TodoOverlay(s) => assert_eq!(s.items[0].text, "a"),
        _ => panic!("todos expected"),
    }
    press(&mut a, key(KeyCode::Char(' ')));
    assert_eq!(text(&a), "x\nDONE: there\n", "the marker goes where the old one stood");
    press(&mut a, key(KeyCode::Esc));
    press(&mut a, ctrl('z'));
    assert_eq!(text(&a), "x\nhello there\n");

    let mut a = app_with("x\nTODO: a\n", true);
    press(&mut a, key(KeyCode::F(8)));
    a.pull_done(PullOutcome::FastForwarded, Some(disk("x\n")));
    press(&mut a, key(KeyCode::Char(' ')));
    assert_eq!(text(&a), "x\n", "no room for a marker");
    assert!(matches!(a.mode, Mode::TodoOverlay(_)));
}

#[test]
fn the_filter_stays_open_over_pulled_text() {
    let mut a = app_with("=== 2026-05-11\n#oci\n=== 2026-05-12\n#oci\n", true);
    press(&mut a, ctrl('p'));
    type_text(&mut a, "tag:oci");
    let listed = |a: &App| match &a.mode {
        Mode::FilterOverlay(s) => s.matches.len(),
        _ => panic!("filter expected"),
    };
    assert_eq!(listed(&a), 2);
    a.pull_done(PullOutcome::FastForwarded, Some(disk("=== 2026-05-11\n#oci\n")));
    assert_eq!(listed(&a), 2);
    match &a.mode {
        Mode::FilterOverlay(s) => {
            let shown = s.screen(&a.editor.buffer, 10);
            assert_eq!(shown.rows.len(), 1, "a note that is gone has no row");
        }
        _ => panic!("filter expected"),
    }
    press(&mut a, key(KeyCode::Down));
    assert_eq!(place(&a), (0, 0));
    let before = (place(&a), a.editor.scroll);
    press(&mut a, key(KeyCode::Up));
    assert_eq!((place(&a), a.editor.scroll), before, "there is no note to go to");
    press(&mut a, key(KeyCode::Esc));
    assert!(is_normal(&a));
}

#[test]
fn the_ai_panel_stays_open_over_pulled_text() {
    let mut a = app_with("=== 2026-05-12\nrough text\n", true);
    a.open_ai_panel(Some("polish".to_string()));
    press(&mut a, key(KeyCode::Enter));
    a.ai_begun();
    a.pull_done(PullOutcome::FastForwarded, Some(disk("=== 2026-05-12\nother\n")));
    a.ai_replied(Ok("fine text\n".to_string()));
    press(&mut a, Key { code: KeyCode::Enter, mods: mods(true, false) });
    assert!(is_normal(&a));
    assert_eq!(text(&a), "=== 2026-05-12\nother\n", "the range is gone");

    let mut a = app_with("=== 2026-05-12\nrough\n", true);
    a.open_ai_panel(Some("polish".to_string()));
    press(&mut a, key(KeyCode::Enter));
    a.ai_begun();
    a.pull_done(PullOutcome::FastForwarded, Some(disk("=== 2026-05-13\nother text\n")));
    a.ai_replied(Ok("fine ".to_string()));
    press(&mut a, Key { code: KeyCode::Enter, mods: mods(true, false) });
    assert_eq!(text(&a), "=== 2026-05-13\nfine text\n");
}

#[test]
fn a_spell_check_goes_on_in_pulled_text() {
    let mut a = app_with("wrld world", true);
    a.open_spell_check(SpellScope::WholeFile, true, Some(Ok(engine())));
    a.pull_done(PullOutcome::FastForwarded, Some(disk("wxld wrold wrold")));
    match &a.mode {
        Mode::SpellCheck(w) => {
            assert_eq!(w.current.word, "wrld");
            assert_eq!(w.scope, Span::new(0, 10));
        }
        _ => panic!("spell check expected"),
    }
    press(&mut a, key(KeyCode::Enter));
    assert_eq!(text(&a), "world wrold wrold");
    match &a.mode {
        Mode::SpellCheck(w) => {
            assert_eq!(w.current.word, "wrold");
            assert_eq!(w.scope, Span::new(0, 11));
        }
        _ => panic!("spell check expected"),
    }
    press(&mut a, key(KeyCode::Char('s')));
    assert_eq!(status(&a), "Spell check complete (2 words processed)");

    let mut a = app_with("the world helo", true);
    a.open_spell_check(SpellScope::WholeFile, true, Some(Ok(engine())));
    a.pull_done(PullOutcome::FastForwarded, Some(disk("the")));
    assert!(is_normal(&a), "its word cannot be shown any more");
}

#[test]
fn a_download_outlives_its_selection() {
    let mut a = app_with("the helo wrold", true);
    a.open_spell_check(SpellScope::Selection(Span::new(4, 14)), false, None);
    press(&mut a, key(KeyCode::Char('y')));
    a.pull_done(PullOutcome::FastForwarded, Some(disk("the wrold")));
    a.dict_downloaded(Ok(engine()));
    match &a.mode {
        Mode::SpellCheck(w) => {
            assert_eq!(w.current.word, "wrold");
            assert_eq!(w.scope, Span::new(4, 14));
        }
        _ => panic!("spell check expected"),
    }
}

#[test]
fn a_conflict_is_shown_and_resolved() {
    let mut a = app_with("mine", true);
    press(&mut a, key(KeyCode::F(1)));
    a.pull_done(PullOutcome::Conflicted, None);
    assert!(matches!(a.mode, Mode::Conflict(ConflictKind::SyncRebase)));
    assert!(!a.written(Ok(None)), "nothing is pushed meanwhile");
    assert!(matches!(press(&mut a, key(KeyCode::Char('K'))), Action::Resolve { keep_local: true }));
    assert!(matches!(run(&mut a, "sync"), Action::Settle));
    assert!(!a.settle(Some("<<<<<<< HEAD\n".to_string())));
    assert_eq!(status(&a), "Resolve sync conflict first");
    a.resolved(Err("rebase failed".to_string()));
    assert_eq!(status(&a), "Resolve failed: rebase failed");
    assert!(matches!(a.sync_state, SyncState::Error(_)));
    a.resolved(Ok(Ok(disk("theirs"))));
    assert_eq!(text(&a), "theirs");
    assert!(matches!(a.sync_state, SyncState::Idle));
    a.pull_done(PullOutcome::Conflicted, None);
    assert!(matches!(press(&mut a, key(KeyCode::Char('e'))), Action::Reload));
    assert_eq!(status(&a), "Resolve conflict markers in the editor, then run :sync");
    a.begin();
    assert!(matches!(press(&mut a, key(KeyCode::Char('r'))), Action::Resolve { keep_local: false }));
}

#[test]
fn markers_are_a_conflict_on_opening() {
    let mut a = app("<<<<<<< HEAD\nx\n");
    assert!(matches!(a.sync_state, SyncState::Conflict));
    assert!(is_normal(&a));
    a.begin();
    assert!(matches!(a.mode, Mode::Conflict(ConflictKind::SyncRebase)));
}

// ---- AI ---------------------------------------------------------------------

#[test]
fn the_ai_panel_replaces_the_note() {
    let mut a = app("=== 2026-05-12\nrough text\n");
    assert!(matches!(press(&mut a, ctrl('l')), Action::OpenAi));
    a.open_ai_panel(None);
    press(&mut a, key(KeyCode::Enter));
    match &a.mode {
        Mode::AiPanel(s) => assert_eq!(s.error.as_deref(), Some("empty prompt")),
        _ => panic!("panel expected"),
    }
    type_text(&mut a, "polish");
    a.handle_paste(" it\n");
    match press(&mut a, key(KeyCode::Enter)) {
        Action::AskAi { prompt, input } => {
            assert_eq!(prompt, "polishit");
            assert_eq!(input, "rough text\n");
        }
        _ => panic!("question expected"),
    }
    a.ai_refused(&AiError::NoApiKey("KEY".to_string()));
    match &a.mode {
        Mode::AiPanel(s) => assert_eq!(s.error.as_deref(), Some("API key env var KEY not set")),
        _ => panic!("panel expected"),
    }
    a.ai_begun();
    a.spin();
    assert!(matches!(press(&mut a, key(KeyCode::Enter)), Action::Stay), "one request at a time");
    a.ai_replied(Ok("fine text\n".to_string()));
    press(&mut a, Key { code: KeyCode::Enter, mods: mods(true, false) });
    assert!(is_normal(&a));
    assert_eq!(text(&a), "=== 2026-05-12\nfine text\n");
    press(&mut a, ctrl('z'));
    assert_eq!(text(&a), "=== 2026-05-12\nrough text\n");
}

#[test]
fn a_cancelled_reply_is_dropped() {
    let mut a = app("text");
    a.open_ai_panel(Some("polish".to_string()));
    press(&mut a, key(KeyCode::Enter));
    a.ai_begun();
    press(&mut a, key(KeyCode::Esc));
    a.ai_replied(Ok("late".to_string()));
    match &a.mode {
        Mode::AiPanel(s) => assert_eq!(s.candidate, None),
        _ => panic!("panel expected"),
    }
    press(&mut a, key(KeyCode::Esc));
    assert!(is_normal(&a));
}

// ---- Spell check ------------------------------------------------------------

fn engine() -> SpellEngine {
    SpellEngine::load("hello 100\nworld 90\nthe 200\nhelp 10\n", None).unwrap()
}

#[test]
fn the_wizard_fixes_skips_and_adds() {
    let mut a = app("the helo World wrold zzyzx\n");
    let scope = match press(&mut a, key(KeyCode::F(7))) {
        Action::CheckSpelling(s) => s,
        _ => panic!("spell check expected"),
    };
    a.open_spell_check(scope, true, Some(Ok(engine())));
    match &a.mode {
        Mode::SpellCheck(w) => {
            assert_eq!(w.current.word, "helo");
            assert_eq!(w.initial_total, 3);
        }
        _ => panic!("wizard expected"),
    }
    assert_eq!(place(&a), (0, 4));
    press(&mut a, key(KeyCode::Enter));
    let fixed = text(&a).to_string();
    assert!(fixed == "the hello World wrold zzyzx\n" || fixed == "the help World wrold zzyzx\n");
    match &a.mode {
        Mode::SpellCheck(w) => assert_eq!(w.current.word, "wrold"),
        _ => panic!("wizard expected"),
    }
    press(&mut a, key(KeyCode::Char('1')));
    assert!(text(&a).contains("World world zzyzx"));
    match press(&mut a, key(KeyCode::Char('a'))) {
        Action::AddWord(l) => assert_eq!(l, "zzyzx"),
        _ => panic!("a word to add expected"),
    }
    a.word_written(Err(SpellError::NoConfigDir));
    match &a.mode {
        Mode::SpellCheck(w) => {
            assert_eq!(w.error.as_deref(), Some("add failed: no config directory available"))
        }
        _ => panic!("wizard expected"),
    }
    a.word_written(Ok(()));
    assert!(is_normal(&a));
    assert_eq!(status(&a), "Spell check complete (3 words processed)");
    press(&mut a, ctrl('z'));
    assert_eq!(text(&a), fixed, "each fix is one undo entry");
}

#[test]
fn skipped_words_are_skipped_for_the_session() {
    let mut a = app("zzyzx hello zzyzx\n");
    a.open_spell_check(SpellScope::WholeFile, true, Some(Ok(engine())));
    press(&mut a, key(KeyCode::Char('s')));
    assert!(is_normal(&a));
    assert_eq!(status(&a), "Spell check complete (1 word processed)");
    assert_eq!(text(&a), "zzyzx hello zzyzx\n");
}

#[test]
fn nothing_misspelled_is_said() {
    let mut a = app("hello world\n");
    a.open_spell_check(SpellScope::WholeFile, true, Some(Ok(engine())));
    assert!(is_normal(&a));
    assert_eq!(status(&a), "No misspellings found (0 words checked)");
    a.open_spell_check(SpellScope::WholeFile, true, None);
    assert_eq!(status(&a), "No misspellings found (0 words checked)");
}

#[test]
fn a_missing_dictionary_is_offered_for_download() {
    let mut a = app("helo\n");
    a.open_spell_check(SpellScope::WholeFile, false, None);
    press(&mut a, key(KeyCode::Char('n')));
    assert_eq!(status(&a), "Spell check cancelled");
    a.open_spell_check(SpellScope::WholeFile, false, None);
    assert!(matches!(press(&mut a, key(KeyCode::Char('y'))), Action::Download));
    a.spin();
    a.dict_downloaded(Err(SpellError::Download("timeout".to_string())));
    match &a.mode {
        Mode::SpellDownload(d) => {
            assert_eq!(d.error.as_deref(), Some("download error: timeout"));
            assert_eq!(d.spinner_tick, 1);
        }
        _ => panic!("dialog expected"),
    }
    a.status_msg = None;
    press(&mut a, key(KeyCode::Esc));
    assert_eq!(status(&a), "", "a failed download needs no message");
    a.open_spell_check(SpellScope::WholeFile, false, None);
    press(&mut a, key(KeyCode::Enter));
    press(&mut a, key(KeyCode::Esc));
    assert_eq!(status(&a), "Download cancelled");
    a.dict_downloaded(Ok(engine()));
    assert!(is_normal(&a), "a cancelled download is dropped");
    a.open_spell_check(SpellScope::WholeFile, false, None);
    press(&mut a, key(KeyCode::Enter));
    a.dict_downloaded(Ok(engine()));
    assert!(matches!(a.mode, Mode::SpellCheck(_)));
    press(&mut a, key(KeyCode::Esc));
    assert!(is_normal(&a));
}

#[test]
fn a_broken_dictionary_is_reported() {
    let mut a = app("helo\n");
    a.open_spell_check(SpellScope::WholeFile, true, Some(Err(SpellError::Engine("bad".to_string()))));
    assert_eq!(status(&a), "spell: spell engine error: bad");
}

// ---- Undo -------------------------------------------------------------------

#[test]
fn a_paste_is_one_undo_entry() {
    let mut a = app("ab");
    press(&mut a, key(KeyCode::Right));
    a.handle_paste("one two\nthree");
    assert_eq!(text(&a), "aone two\nthreeb");
    press(&mut a, ctrl('z'));
    assert_eq!(text(&a), "ab");
    press(&mut a, shifted(KeyCode::Left));
    a.handle_paste("x\ny");
    assert_eq!(text(&a), "x\nyb");
    press(&mut a, ctrl('z'));
    assert_eq!(text(&a), "ab");
}

#[test]
fn replacing_a_selection_is_one_undo_entry() {
    let mut a = app("one two");
    press(&mut a, shifted(KeyCode::Right));
    press(&mut a, shifted(KeyCode::Right));
    press(&mut a, key(KeyCode::Enter));
    assert_eq!(text(&a), "\ne two");
    press(&mut a, ctrl('z'));
    assert_eq!(text(&a), "one two");
}

#[test]
fn a_toggled_todo_is_unsaved_and_undone_at_once() {
    let mut a = app("TODO: pay\n");
    run(&mut a, "todo");
    press(&mut a, key(KeyCode::Char(' ')));
    assert_eq!(text(&a), "DONE: pay\n");
    assert!(a.editor.dirty);
    press(&mut a, key(KeyCode::Esc));
    press(&mut a, ctrl('z'));
    assert_eq!(text(&a), "TODO: pay\n");
    assert!(!a.editor.dirty);
}

#[test]
fn the_filter_outlives_its_panel() {
    let mut a = app("=== 2026-05-12\nalpha\n=== 2026-05-11\nbeta\n");
    run(&mut a, "filter beta");
    press(&mut a, key(KeyCode::Enter));
    assert_eq!(a.active_filter.as_deref(), Some("beta"));
    press(&mut a, ctrl('p'));
    press(&mut a, key(KeyCode::Esc));
    assert_eq!(a.active_filter.as_deref(), Some("beta"));
    run(&mut a, "clear");
    assert_eq!(a.active_filter, None);
}

/// A selection that was begun and is empty again.
fn begun(content: &str) -> App {
    let mut a = app(content);
    press(&mut a, shifted(KeyCode::Right));
    press(&mut a, shifted(KeyCode::Left));
    assert!(a.editor.selection_anchor.is_some());
    assert!(a.editor.selected_text().is_none());
    a
}

#[test]
fn an_empty_selection_keeps_no_edit_away() {
    let mut a = begun("ab");
    type_text(&mut a, "xy");
    assert_eq!(text(&a), "xyab");
    assert_eq!(place(&a), (0, 2));
    assert!(a.editor.dirty);

    let mut a = begun("ab");
    press(&mut a, key(KeyCode::Delete));
    assert_eq!(text(&a), "b");

    let mut a = begun("ab");
    press(&mut a, key(KeyCode::Backspace));
    assert_eq!(text(&a), "ab");
    assert!(a.editor.selection_anchor.is_none());

    let mut a = begun("ab");
    press(&mut a, key(KeyCode::Enter));
    assert_eq!(text(&a), "\nab");
    type_text(&mut a, "c");
    assert_eq!(text(&a), "\ncab");

    let mut a = begun("ab");
    a.handle_paste("p");
    assert_eq!(text(&a), "pab");

    let mut a = begun("===");
    press(&mut a, key(KeyCode::Enter));
    assert_eq!(text(&a), "=== 2026-05-12 15:22\n");
    assert_eq!(a.editor.selection_anchor, Some((0, 0)), "the selection reaches over the stamp");
    type_text(&mut a, "body");
    assert_eq!(text(&a), "body");
}

#[test]
fn a_delimiter_line_belongs_to_the_note_it_opens() {
    let mut a = app("=== A\nx\n=== B\ny\n");
    let body = |a: &App| resolve_spell_scope(&a.editor, SpellScope::CurrentNote);
    assert_eq!(body(&a), Span::new(6, 8));
    press(&mut a, key(KeyCode::Down));
    assert_eq!(body(&a), Span::new(6, 8));
    press(&mut a, key(KeyCode::Down));
    assert_eq!(body(&a), Span::new(14, 16));
    press(&mut a, key(KeyCode::Down));
    press(&mut a, key(KeyCode::Down));
    assert_eq!(place(&a), (4, 0));
    assert_eq!(body(&a), Span::new(14, 16), "the end of the file is in the last note");
}

#[test]
fn a_capital_box_is_listed_and_toggled() {
    let mut a = app("- [X] a\n- [ ] b\n");
    press(&mut a, key(KeyCode::F(8)));
    press(&mut a, key(KeyCode::Char('a')));
    match &a.mode {
        Mode::TodoOverlay(s) => {
            assert_eq!(s.items.len(), 2);
            assert!(s.items[0].is_done);
        }
        _ => panic!("todos expected"),
    }
    press(&mut a, key(KeyCode::Char(' ')));
    assert_eq!(text(&a), "- [ ] a\n- [ ] b\n");
    press(&mut a, key(KeyCode::Char(' ')));
    assert_eq!(text(&a), "- [x] a\n- [ ] b\n");
}

#[test]
fn an_indented_todo_is_toggled_behind_its_indentation() {
    let mut a = app("- [ ] a\n  - [ ] b\n");
    press(&mut a, key(KeyCode::F(8)));
    press(&mut a, key(KeyCode::Down));
    press(&mut a, key(KeyCode::Char(' ')));
    assert_eq!(text(&a), "- [ ] a\n  - [x] b\n");
}
