//! Settings, state, inputs, history and the other small parts.

use jotlog::buffer::TextBuffer;
use jotlog::command_bar::complete_command_verb;
use jotlog::config::{config_path, default_notes_path, Config, SyncConfig};
use jotlog::date::{parse_datetime, parse_time, Time};
use jotlog::delimiter::{looks_like_date_prefix, render_decorated_delimiter};
use jotlog::highlight::highlight_normal_line;
use jotlog::history::{BatchKind, HistoryEntry, UndoHistory, MAX_ENTRIES};
use jotlog::index::FileIndex;
use jotlog::input::TextInput;
use jotlog::keys::{Key, KeyCode, Modifiers};
use jotlog::numbers::{parse_i64, parse_u64, parse_usize};
use jotlog::overlay::{overlay_search_matches, overlay_selection, slice_line};
use jotlog::parser::parse;
use jotlog::search::{compute_matches, find_nearest_match};
use jotlog::spans::TodoState;
use jotlog::state::{state_path, AppState, MAX_CURSORS};
use jotlog::style::{Color, Style, StyledLine};
use jotlog::todo_list::{TodoAction, TodoList};
use jotlog::todo_overlay::{collect_todos, TodoItemKind};
use jotlog::unicode::{
    fold_char, is_capital, is_letter, is_number, to_lower_text, to_upper_text, uppercase_of,
};
use jotlog::wrap::{cells_of, display_width, truncate_to_width, visual_col_for_byte, wrap_segments};

fn interval(s: &str) -> u64 {
    let mut cfg = SyncConfig::default();
    cfg.idle_pull_interval = s.to_string();
    cfg.idle_interval_duration()
}

#[test]
fn intervals_have_units() {
    assert_eq!(interval("5m"), 300);
    assert_eq!(interval("30s"), 30);
    assert_eq!(interval(" 1h "), 3600);
    assert_eq!(interval("7"), 420);
    assert_eq!(interval("2days"), 120);
    assert_eq!(interval(""), 0);
    assert_eq!(interval("0"), 0);
    assert_eq!(interval("m"), 0);
    assert_eq!(interval("18446744073709551615h"), u64::MAX);
}

#[test]
fn the_default_settings() {
    let cfg = Config::default();
    assert!(cfg.editor.line_wrap);
    assert_eq!(cfg.editor.tab_width, 4);
    assert_eq!(cfg.ai.model, "gpt-4o-mini");
    assert_eq!(cfg.ai.api_key_env.as_deref(), Some("OPENAI_API_KEY"));
    assert_eq!(cfg.spell.language, "en");
    assert!(cfg.sync.enabled && cfg.sync.pull_on_open && cfg.sync.push_on_save);
    assert!(cfg.auto_sep.date);
    assert_eq!(cfg.auto_sep.time_gap, "");
    assert!(Config::default_with_auto_sep().auto_sep.date);
}

#[test]
fn cursors_are_remembered_up_to_a_limit() {
    let mut s = AppState::default();
    assert_eq!(s.cursor_for("a"), None);
    s.save_cursor("a", 3, 4);
    s.save_cursor("a", 5, 6);
    assert_eq!(s.cursor_for("a"), Some((5, 6)));
    assert_eq!(s.cursor.len(), 1);
    for i in 0..MAX_CURSORS {
        s.save_cursor(&format!("f{i}"), i, 0);
    }
    assert_eq!(s.cursor.len(), MAX_CURSORS);
    assert_eq!(s.cursor_for("a"), None, "the oldest goes");
    assert_eq!(s.cursor_for("f0"), Some((0, 0)));
}

#[test]
fn numbers_are_read_like_rust_does() {
    assert_eq!(parse_usize("42"), Some(42));
    assert_eq!(parse_usize("+42"), Some(42));
    assert_eq!(parse_usize("-1"), None);
    assert_eq!(parse_usize(""), None);
    assert_eq!(parse_usize("+"), None);
    assert_eq!(parse_u64("18446744073709551615"), Some(u64::MAX));
    assert_eq!(parse_u64("18446744073709551616"), None);
    assert_eq!(parse_i64("-9223372036854775808"), Some(i64::MIN));
    assert_eq!(parse_i64("9223372036854775808"), None);
}

#[test]
fn times_are_read() {
    assert_eq!(parse_time("09:14"), Some(Time { hour: 9, minute: 14 }));
    assert_eq!(parse_time("25:00"), None);
    assert_eq!(parse_datetime("2026-02-30 10:00"), None, "no such day");
}

#[test]
fn inputs_are_edited_by_characters() {
    let mut i = TextInput::new("a\u{e9}".to_string());
    i.left();
    assert_eq!(i.cursor, 1);
    i.insert_str("xy");
    assert_eq!(i.text, "axy\u{e9}");
    assert_eq!(i.chars_before_cursor(), 3);
    i.end();
    assert!(i.backspace());
    assert_eq!(i.text, "axy");
    i.home();
    assert!(!i.backspace());
    i.right();
    i.insert_char('\u{1f600}');
    assert_eq!(i.text, "a\u{1f600}xy");
}

fn entry(s: &str) -> HistoryEntry {
    HistoryEntry { content: s.to_string(), cursor_line: 0, cursor_byte: 0 }
}

#[test]
fn the_undo_history_is_bounded() {
    let mut h = UndoHistory::new();
    for i in 0..MAX_ENTRIES + 5 {
        h.push(entry(&i.to_string()));
    }
    assert_eq!(h.undo.len(), MAX_ENTRIES);
    assert_eq!(h.undo[0].content, "5");
}

#[test]
fn edits_of_one_kind_share_an_entry() {
    let mut h = UndoHistory::new();
    h.push_batch(entry("a"), BatchKind::Word);
    h.push_batch(entry("b"), BatchKind::Word);
    h.push_batch(entry("c"), BatchKind::Space);
    assert_eq!(h.undo.len(), 2);
    h.break_batch();
    h.push_batch(entry("d"), BatchKind::Space);
    assert_eq!(h.undo.len(), 3);
    let back = h.undo(entry("now")).unwrap();
    assert_eq!(back.content, "d");
    assert_eq!(h.redo(entry("d")).unwrap().content, "now");
    h.clear();
    assert!(h.undo(entry("x")).is_none() && h.redo(entry("x")).is_none());
}

#[test]
fn characters_beyond_ascii_have_classes() {
    assert!(is_letter('\u{e9}') && is_letter('a') && !is_letter('1'));
    assert!(is_number('\u{0663}') && is_number('7') && !is_number('x'));
    assert!(is_capital('\u{c9}') && !is_capital('\u{e9}'));
    assert_eq!(fold_char('\u{c9}'), '\u{e9}');
    assert_eq!(uppercase_of('\u{df}'), vec!['S', 'S']);
    assert_eq!(to_lower_text("\u{c9}A"), "\u{e9}a");
    assert_eq!(to_upper_text("\u{e9}a"), "\u{c9}A");
}

#[test]
fn widths_are_in_cells() {
    assert_eq!(cells_of('a'), 1);
    assert_eq!(cells_of('\u{65e5}'), 2);
    assert_eq!(display_width("a\u{65e5}"), 3);
    assert_eq!(truncate_to_width("a\u{65e5}\u{65e5}", 4), "a\u{65e5}");
    assert_eq!(visual_col_for_byte("\u{65e5}x", 3), 2);
    assert_eq!(wrap_segments("\u{65e5}\u{65e5}\u{65e5}", 4), vec![(0, 6), (6, 9)]);
}

#[test]
fn search_ignores_case_beyond_ascii() {
    let b = TextBuffer::new("x \u{c9}A\n\u{e9}a\n".to_string());
    let m = compute_matches(&b, "\u{e9}a");
    assert_eq!(m, vec![(0, 2, 3), (1, 0, 3)]);
    assert_eq!(find_nearest_match(&m, 0, 3), 1);
    assert_eq!(find_nearest_match(&m, 1, 1), 0, "round to the first");
    assert!(compute_matches(&b, "").is_empty());
}

#[test]
fn overlays_split_runs_and_keep_the_text() {
    let line = StyledLine::of("hello world", Style::fg(Color::Green));
    let marked = overlay_search_matches(line, &vec![(0, 5, true), (6, 5, false)]);
    let texts: Vec<&str> = marked.spans.iter().map(|s| s.content.as_str()).collect();
    assert_eq!(texts, vec!["hello", " ", "world"]);
    let selected = overlay_selection(marked, 3, 8);
    assert_eq!(selected.plain_text(), "hello world");
    assert_eq!(slice_line(&selected, 3, 8).plain_text(), "lo wo");
}

#[test]
fn highlighting_keeps_the_text() {
    for s in ["# Heading", "- [x] done", "a `code` #tag https://x.y", "> quote", "1. one", "---"] {
        assert_eq!(highlight_normal_line(s).plain_text(), s);
    }
}

#[test]
fn both_header_orders_say_the_same() {
    let old = TextBuffer::new("=== 2026-05-12 09:14 | Standup\n".to_string());
    let new = TextBuffer::new("=== Standup | 2026-05-12 09:14\n".to_string());
    let (a, b) = (parse(&old), parse(&new));
    assert_eq!(
        old.span_text(a.notes[0].title.unwrap()),
        new.span_text(b.notes[0].title.unwrap())
    );
    assert_eq!(
        old.span_text(a.notes[0].time.unwrap()),
        new.span_text(b.notes[0].time.unwrap())
    );
    assert!(looks_like_date_prefix("2026-05-12 x") && !looks_like_date_prefix("2026-5-12"));
    assert_eq!(render_decorated_delimiter("===", 0).plain_text(), "");
}

#[test]
fn tags_need_a_character_that_is_no_digit() {
    let b = TextBuffer::new("#v2 #123 #1a #A/b_c-d C#x\n".to_string());
    let index = FileIndex::build(&b);
    let names: Vec<&str> = index.tags_for_note(0).iter().map(|t| b.span_text(t.name)).collect();
    assert_eq!(names, vec!["v2", "1a", "A/b_c-d"]);
    let b = TextBuffer::new("#Oci #oci #java\n".to_string());
    let index = FileIndex::build(&b);
    assert_eq!(index.unique_tag_names(&b), vec!["java", "Oci"], "the first spelling is shown");
}

#[test]
fn notes_cover_the_file() {
    let text = "intro\n=== a\nx\n===\ny";
    let b = TextBuffer::new(text.to_string());
    let r = parse(&b);
    let joined: String = r.notes.iter().map(|n| b.span_text(n.span)).collect();
    assert_eq!(joined, text);
}

#[test]
fn completion_extends_the_input() {
    for s in ["w", "fi", "sy", "ne", "sp", "h"] {
        if let Some(c) = complete_command_verb(s) {
            assert!(c.starts_with(s) && c.len() > s.len());
        }
    }
    assert_eq!(complete_command_verb("got").as_deref(), Some("goto "));
    assert_eq!(complete_command_verb("s"), None, "spell, sync and set");
}

fn plain_key(code: KeyCode) -> Key {
    Key { code, mods: Modifiers { ctrl: false, alt: false, shift: false, meta: false } }
}

#[test]
fn the_todo_list_moves_toggles_and_reloads() {
    let text = "TODO: a\nTODO: b\n";
    let entries = jotlog::commands::load_todos(text.to_string(), false);
    let mut l = TodoList::new(entries, false);
    assert_eq!(l.handle_key(plain_key(KeyCode::Char('j'))), TodoAction::Stay);
    assert_eq!(l.selected, 1);
    assert_eq!(
        l.handle_key(plain_key(KeyCode::Enter)),
        TodoAction::Toggle { line_byte_start: 8, state: TodoState::Open }
    );
    let left = jotlog::commands::load_todos("TODO: a\nDONE: b\n".to_string(), false);
    l.entries_reloaded(left, None);
    assert_eq!(l.selected, 0);
    let s = l.screen(24);
    assert_eq!(s.rows.len(), 1);
    assert_eq!(s.rows[0].text, "1) [ ] a");
    assert_eq!(s.status, "1/1");
    l.entries_reloaded(Vec::new(), Some("warning"));
    assert_eq!(l.handle_key(plain_key(KeyCode::Char(' '))), TodoAction::Stay);
    assert_eq!(l.handle_key(plain_key(KeyCode::Char('+'))), TodoAction::Prompt);
    assert_eq!(l.handle_key(plain_key(KeyCode::Char('q'))), TodoAction::Quit);
}

// ---- Places -----------------------------------------------------------------

#[test]
fn files_have_their_places() {
    let config = config_path(Some("/home/me/.config"));
    assert_eq!(config.ok().as_deref(), Some("/home/me/.config/jotstash/config.toml"));
    assert_eq!(config_path(None).err(), Some("could not determine config directory"));
    assert_eq!(state_path(Some("/c/")).as_deref(), Some("/c/jotstash/state.toml"));
    assert_eq!(state_path(None), None);
    assert_eq!(default_notes_path(Some("/docs"), Some("/home")), "/docs/jotstash/log.jot");
    assert_eq!(default_notes_path(None, Some("/home")), "/home/jotstash/log.jot");
    assert_eq!(default_notes_path(None, None), "log.jot");
}

#[test]
fn todo_rows_show_the_date_and_the_tags_of_the_note() {
    let text = "TODO: loose\n=== 2026-05-11\nTODO: Pay the bill\n#personal\n\
                === B | 2026-05-12 09:14\n- [ ] A task that is longer than its column\n\
                === C\n#oci #helidon\n- [ ] Review PR\n";
    let l = TodoList::new(jotlog::commands::load_todos(text.to_string(), false), false);
    let rows: Vec<String> = l.screen(24).rows.into_iter().map(|r| r.text).collect();
    assert_eq!(
        rows,
        vec![
            "1) [ ] loose",
            "2) [ ] Pay the bill            2026-05-11  #personal",
            "3) [ ] A task that is longer than its column  2026-05-12",
            "4) [ ] Review PR                           #oci #helidon",
        ]
    );
}

#[test]
fn the_overlay_lists_what_the_parser_finds() {
    let found = |s: &str| {
        collect_todos(&TextBuffer::new(s.to_string()))
            .into_iter()
            .map(|t| (t.line, t.text, t.is_done, t.kind))
            .collect::<Vec<_>>()
    };
    assert_eq!(
        found("```\nTODO: x\n```\nTODO: y\n"),
        vec![(3, "y".to_string(), false, TodoItemKind::Prefix)]
    );
    assert_eq!(
        found("- [ ] a\n  - [x]   b\n\tDONE: c"),
        vec![
            (0, "a".to_string(), false, TodoItemKind::Checkbox),
            (1, "b".to_string(), true, TodoItemKind::Checkbox),
            (2, "c".to_string(), true, TodoItemKind::Prefix),
        ]
    );
    assert_eq!(
        found("- [X] a\n```\n- [X] b\n```\n  - [X]\n"),
        vec![
            (0, "a".to_string(), true, TodoItemKind::Checkbox),
            (4, "".to_string(), true, TodoItemKind::Checkbox),
        ],
        "a capital checks a box as well"
    );
}
