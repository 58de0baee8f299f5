//! What is on screen: the text area, the status bar, dialogs and panels.

use jotlog::ai_panel::AiBody;
use jotlog::app::{App, Disk};
use jotlog::config::Config;
use jotlog::help::{help_content, help_max_scroll};
use jotlog::keys::{Key, KeyCode, Modifiers};
use jotlog::layout::{panel_rows, Panel};
use jotlog::mode::{ConflictKind, Mode, SpellDownloadState, SpellScope};
use jotlog::overlay::dim_line;
use jotlog::screen::{cursor_position, render_text};
use jotlog::spell::SpellEngine;
use jotlog::status::{conflict_dialog, dictionary_dialog, download_dialog};
use jotlog::style::{Color, Style, StyledLine};

fn app(content: &str) -> App {
    let cfg = Config::default_with_auto_sep();
    let disk = Disk { content: content.to_string(), snapshot: None };
    let mut a = App::open("notes.jot".to_string(), disk, None, &cfg, false, false, None);
    a.resize(20, 7);
    a
}

fn key(code: KeyCode) -> Key {
    Key { code, mods: Modifiers { ctrl: false, alt: false, shift: false, meta: false } }
}

fn ctrl(c: char) -> Key {
    Key {
        code: KeyCode::Char(c),
        mods: Modifiers { ctrl: true, alt: false, shift: false, meta: false },
    }
}

fn type_text(a: &mut App, s: &str) {
    for c in s.chars() {
        a.handle_key(key(KeyCode::Char(c)), "");
    }
}

fn plain(rows: &[StyledLine]) -> Vec<String> {
    rows.iter().map(|r| r.plain_text()).collect()
}

#[test]
fn the_text_area_is_filled_with_tildes() {
    let a = app("one\ntwo");
    let rows = render_text(&a.editor, None, 20, 6);
    assert_eq!(plain(&rows), vec!["one", "two", "~", "~", "~", "~"]);
    assert_eq!(rows[2].spans[0].style.fg, Some(Color::DarkGray));
    assert_eq!(cursor_position(&a.editor, None, 20, 6), Some((0, 0)));
}

#[test]
fn long_lines_wrap_and_the_cursor_follows() {
    let mut a = app("hello world goodbye moon\nnext");
    a.handle_key(key(KeyCode::End), "");
    let rows = render_text(&a.editor, None, 12, 4);
    assert_eq!(plain(&rows), vec!["hello world", "goodbye moon", "next", "~"]);
    assert_eq!(cursor_position(&a.editor, None, 12, 4), Some((11, 1)));
    a.editor.line_wrap = false;
    let rows = render_text(&a.editor, None, 12, 4);
    assert_eq!(plain(&rows), vec!["hello world goodbye moon", "next", "~", "~"]);
}

#[test]
fn a_cursor_between_wrapped_rows_is_on_the_first() {
    let mut a = app("aaaa bbbb   cccc");
    let rows = render_text(&a.editor, None, 5, 4);
    assert_eq!(plain(&rows), vec!["aaaa", "bbbb", "cccc", "~"]);
    a.editor.cursor_byte = 9;
    assert_eq!(cursor_position(&a.editor, None, 5, 4), Some((4, 1)));
    a.editor.cursor_byte = 10;
    assert_eq!(cursor_position(&a.editor, None, 5, 4), Some((4, 0)));
    a.editor.cursor_byte = 12;
    assert_eq!(cursor_position(&a.editor, None, 5, 4), Some((0, 2)));
}

#[test]
fn wide_characters_take_two_cells() {
    let mut a = app("日本x");
    a.handle_key(key(KeyCode::End), "");
    assert_eq!(cursor_position(&a.editor, None, 20, 6), Some((5, 0)));
}

#[test]
fn code_blocks_are_gray_and_not_highlighted() {
    let a = app("```\n# no heading\n```\n# heading");
    let rows = render_text(&a.editor, None, 20, 4);
    for row in rows.iter().take(3) {
        assert_eq!(row.spans.len(), 1);
        assert_eq!(row.spans[0].style.fg, Some(Color::DarkGray));
    }
    assert_ne!(rows[3].spans[0].style.fg, Some(Color::DarkGray));
}

#[test]
fn delimiters_are_decorated_away_from_the_cursor() {
    let mut a = app("x\n=== 2026-05-12 | Hi\n");
    let rows = render_text(&a.editor, None, 40, 3);
    let rule = rows[1].plain_text();
    assert!(rule.starts_with('\u{2500}') && rule.contains("Hi"));
    assert_eq!(rule.chars().count(), 40);
    a.handle_key(key(KeyCode::Down), "");
    let rows = render_text(&a.editor, None, 40, 3);
    assert_eq!(rows[1].plain_text(), "=== 2026-05-12 | Hi");
}

#[test]
fn search_matches_and_selections_are_marked() {
    let mut a = app("one two one");
    a.handle_key(ctrl('f'), "");
    type_text(&mut a, "one");
    let rows = match &a.mode {
        Mode::Search(s) => render_text(&a.editor, Some(s), 20, 1),
        _ => panic!("search expected"),
    };
    let texts: Vec<&str> = rows[0].spans.iter().map(|s| s.content.as_str()).collect();
    assert_eq!(texts, vec!["one", " two ", "one"]);
    assert_ne!(rows[0].spans[0].style, rows[0].spans[2].style, "the one in focus stands out");
    a.handle_key(key(KeyCode::Esc), "");
    let shift_end = Key {
        code: KeyCode::End,
        mods: Modifiers { ctrl: false, alt: false, shift: true, meta: false },
    };
    a.handle_key(shift_end, "");
    let rows = render_text(&a.editor, None, 20, 1);
    assert_eq!(rows[0].plain_text(), "one two one");
    assert!(rows[0].spans.iter().all(|s| s.style.bg.is_some()));
}

#[test]
fn a_line_that_is_not_shown_has_no_cursor() {
    let mut a = app(&"line\n".repeat(30));
    a.handle_mouse(true);
    assert_eq!(cursor_position(&a.editor, None, 20, 6), None);
}

#[test]
fn the_status_bar_tells_file_and_position() {
    let mut a = app("one\ntwo");
    type_text(&mut a, "é");
    let bar = a.status_bar("notes.jot", 80);
    assert_eq!(bar.text, " notes.jot [+]   Ln 1, Col 2   2 lines");
    assert_eq!(bar.cursor_col, None);
    a.active_filter = Some("tag:oci".to_string());
    a.status_msg = Some("Saved".to_string());
    let bar = a.status_bar("notes.jot", 80);
    assert_eq!(
        bar.text,
        " notes.jot [+]   Ln 1, Col 2   2 lines  \u{2502}  [filter: tag:oci]  \u{2502}  Saved"
    );
    assert_eq!(bar.style.bg, Some(Color::DarkGray));
}

#[test]
fn the_status_bar_is_the_prompt() {
    let mut a = app("one");
    a.handle_key(ctrl('o'), "");
    type_text(&mut a, "ab");
    let bar = a.status_bar("notes.jot", 80);
    assert_eq!(bar.text, " Open file: ab");
    assert_eq!(bar.cursor_col, Some(14));
    assert_eq!(a.status_bar("notes.jot", 10).cursor_col, Some(9));
    a.handle_key(key(KeyCode::Esc), "");
    a.handle_key(ctrl(';'), "");
    let bar = a.status_bar("notes.jot", 80);
    assert_eq!(bar.text, ":   type :help for shortcuts \u{b7} Tab to complete");
    assert_eq!(bar.cursor_col, Some(1));
    type_text(&mut a, "w");
    assert_eq!(a.status_bar("notes.jot", 80).text, ":w");
    a.handle_key(key(KeyCode::Esc), "");
    a.handle_key(ctrl('f'), "");
    assert_eq!(a.status_bar("notes.jot", 80).text, " Find: ");
    type_text(&mut a, "o");
    let bar = a.status_bar("notes.jot", 80);
    assert_eq!(bar.text, " Find: o  1/1");
    assert_eq!(bar.style.bg, Some(Color::Blue));
    type_text(&mut a, "z");
    let bar = a.status_bar("notes.jot", 80);
    assert_eq!(bar.text, " Find: oz (no matches)");
    assert_eq!(bar.style.bg, Some(Color::Red));
}

#[test]
fn dialogs_name_the_file_and_the_choices() {
    let d = conflict_dialog(ConflictKind::Changed, "a.jot");
    assert_eq!(d.title, " File Changed Externally ");
    assert!(d.body.starts_with("\n\"a.jot\" was modified on disk\n"));
    assert!(d.body.contains("[S] Save a copy of your version"));
    let d = conflict_dialog(ConflictKind::Missing, "a.jot");
    assert!(d.body.contains("[O] Re-create file with your version"));
    let d = conflict_dialog(ConflictKind::SyncRebase, "a.jot");
    assert!(d.body.contains("in \"a.jot\".") && d.body.contains("[K] Keep local"));
    assert!(dictionary_dialog().body.contains("[Y]es  [N]o"));
    let mut s = SpellDownloadState { scope: SpellScope::WholeFile, spinner_tick: 1, error: None };
    assert!(download_dialog(&s).body.starts_with("\n\u{2571}  Downloading"));
    s.error = Some("offline".to_string());
    assert_eq!(download_dialog(&s).body, "\nDownload failed:\noffline\n\nPress Esc to close");
}

#[test]
fn panels_stand_at_the_bottom() {
    assert_eq!(panel_rows(Panel::Todo, 30), (10, 20));
    assert_eq!(panel_rows(Panel::Ai, 30), (15, 15));
    assert_eq!(panel_rows(Panel::Spell, 20), (8, 12));
    assert_eq!(panel_rows(Panel::Filter, 6), (0, 12));
}

#[test]
fn the_help_is_a_table() {
    let rows = help_content();
    assert_eq!(rows.len(), 60);
    assert_eq!(
        rows[3].plain_text(),
        format!("  {:<28}{:<14}Save", "Ctrl+S", ":w")
    );
    assert_eq!(help_max_scroll(23), 47);
}

#[test]
fn the_todo_panel_lists_open_todos() {
    let mut a = app("TODO: one\n- [x] two\n");
    a.handle_key(key(KeyCode::F(8)), "");
    match &a.mode {
        Mode::TodoOverlay(s) => {
            let p = s.panel(5);
            assert_eq!(p.title, " todo \u{b7} 1 open \u{b7} 1 done ");
            assert_eq!(plain(&p.rows), vec![" TODO: one"]);
            assert!(p.footer.contains("show done"));
        }
        _ => panic!("overlay expected"),
    }
    a.handle_key(key(KeyCode::Char(' ')), "");
    match &a.mode {
        Mode::TodoOverlay(s) => assert_eq!(
            s.panel(5).message,
            Some("  All todos are done. Press `a` to show them.")
        ),
        _ => panic!("overlay expected"),
    }
}

#[test]
fn the_filter_panel_lists_matches() {
    let mut a = app("=== 2026-05-12 | Hi\n#oci first line\n");
    a.handle_key(ctrl('p'), "");
    match &a.mode {
        Mode::FilterOverlay(s) => {
            let p = s.screen(&a.editor.buffer, 5);
            assert_eq!(p.title, " filter \u{b7} 0 matches ");
            assert!(p.message.is_some());
        }
        _ => panic!("panel expected"),
    }
    type_text(&mut a, "tag:oci");
    match &a.mode {
        Mode::FilterOverlay(s) => {
            let p = s.screen(&a.editor.buffer, 5);
            assert_eq!(p.title, " filter \u{b7} 1 match ");
            assert_eq!(
                plain(&p.rows),
                vec!["\u{25b8} 2026-05-12  Hi  #oci  #oci first line"]
            );
            assert_eq!(p.cursor_col, 14);
        }
        _ => panic!("panel expected"),
    }
}

#[test]
fn the_ai_panel_shows_original_candidate_and_error() {
    let mut a = app("text");
    a.open_ai_panel(Some("polish".to_string()));
    match &a.mode {
        Mode::AiPanel(s) => {
            let p = s.screen("openai", "gpt");
            assert_eq!(p.title, " ai \u{b7} openai \u{b7} gpt ");
            assert_eq!(p.label, "[original]");
            assert!(matches!(p.body, AiBody::Plain(t) if t == "text"));
            assert_eq!(p.cursor_col, Some(14));
        }
        _ => panic!("panel expected"),
    }
    a.ai_begun();
    match &a.mode {
        Mode::AiPanel(s) => {
            let p = s.screen("openai", "gpt");
            assert!(matches!(p.body, AiBody::Thinking(t) if t == "  \u{2502}  thinking\u{2026}"));
            assert_eq!(p.cursor_col, None);
        }
        _ => panic!("panel expected"),
    }
    a.ai_replied(Ok("better".to_string()));
    match &a.mode {
        Mode::AiPanel(s) => {
            assert_eq!(s.screen("o", "g").label, "[candidate]");
        }
        _ => panic!("panel expected"),
    }
    a.handle_key(key(KeyCode::Tab), "");
    match &a.mode {
        Mode::AiPanel(s) => assert_eq!(s.screen("o", "g").label, "[original]"),
        _ => panic!("panel expected"),
    }
}

#[test]
fn the_wizard_shows_the_word_in_its_line() {
    let mut a = app("say helo there");
    let engine = SpellEngine::load("say 5\nthere 5\nhello 5\n", None).unwrap();
    a.open_spell_check(SpellScope::WholeFile, true, Some(Ok(engine)));
    match &a.mode {
        Mode::SpellCheck(w) => {
            let p = w.screen(&a.editor);
            assert_eq!(p.title, " spell \u{b7} 1 of 1 ");
            assert_eq!(p.word_line.plain_text(), "Misspelled: helo");
            assert_eq!(p.context.plain_text(), "Context: say helo there");
            assert_eq!(p.context.spans[2].content, "helo");
            assert_eq!(plain(&p.rows), vec!["\u{2192} 1. hello"]);
        }
        _ => panic!("wizard expected"),
    }
}

#[test]
fn dimming_keeps_text_and_colours() {
    let mut line = StyledLine::of("ab", Style::fg(Color::Green));
    line.push("c", Style::plain().with_bold());
    let dim = dim_line(line);
    assert_eq!(dim.plain_text(), "abc");
    assert!(dim.spans.iter().all(|s| s.style.dim));
    assert_eq!(dim.spans[0].style.fg, Some(Color::Green));
    assert!(dim.spans[1].style.bold);
}
