//! Adding, filtering and toggling.

use jotlog::buffer::TextBuffer;
use jotlog::commands::{
    append_note, append_note_at, append_todo, append_todo_at, collect_filter_matches,
    filter_output, load_todos, parse_filter, todo_grep, toggle_todo_in_text, toggle_todo_line,
};
use jotlog::date::{Date, DateTime, Time};
use jotlog::index::FileIndex;
use jotlog::spans::TodoState;

// ---- append_note --------------------------------------------------------

#[test]
fn note_add_to_empty_file() {
    let result = append_note("", "My first note", None);
    assert!(result.contains("=== "), "should have delimiter");
    assert!(result.contains("My first note"));
    assert!(!result.contains("#"), "no tags");
}

#[test]
fn note_add_with_tags() {
    let result = append_note("", "Tagged note", Some("rust,oci"));
    assert!(result.contains("#rust"), "rust tag");
    assert!(result.contains("#oci"), "oci tag");
}

#[test]
fn note_add_with_hash_prefix_tags() {
    let result = append_note("", "Pre-hashed", Some("#rust, #oci"));
    // Should not double the hash
    assert!(!result.contains("##"));
    assert!(result.contains("#rust"));
    assert!(result.contains("#oci"));
}

#[test]
fn note_add_separator_between_notes() {
    let existing = "=== 2026-05-01\nfirst note\n";
    let result = append_note(existing, "second note", None);
    // Should have blank line between first note and new delimiter
    assert!(result.contains("first note\n\n===") || result.contains("first note\r\n\r\n==="),
        "should have blank separator: {:?}", result);
}

#[test]
fn note_add_no_double_blank_separator() {
    let existing = "=== 2026-05-01\nfirst note\n\n";
    let result = append_note(existing, "second note", None);
    // Should NOT insert extra blank line if one already exists
    assert!(
        !result.contains("first note\n\n\n"),
        "should not have triple newline: {:?}", result
    );
}

// ---- append_todo --------------------------------------------------------

#[test]
fn todo_add_creates_todo_line() {
    let result = append_todo("", "Write tests");
    assert!(result.contains("TODO: Write tests"), "result: {:?}", result);
}

// ---- parse_filter -------------------------------------------------------

#[test]
fn query_tag_only() {
    let q = parse_filter("tag:rust");
    assert_eq!(q.tag_groups, vec![vec!["rust".to_string()]]);
    assert!(q.texts.is_empty());
    assert!(q.titles.is_empty());
    assert!(q.date_prefixes.is_empty());
}

#[test]
fn query_mixed() {
    let q = parse_filter("tag:oci kubernetes");
    assert_eq!(q.tag_groups, vec![vec!["oci".to_string()]]);
    assert_eq!(q.texts, vec!["kubernetes"]);
}

#[test]
fn query_tag_or_group() {
    let q = parse_filter("tag:oci,helidon");
    assert_eq!(q.tag_groups, vec![vec!["oci".to_string(), "helidon".to_string()]]);
}

#[test]
fn query_tag_and_across_tokens() {
    let q = parse_filter("tag:oci tag:rust");
    assert_eq!(q.tag_groups.len(), 2);
    assert_eq!(q.tag_groups[0], vec!["oci"]);
    assert_eq!(q.tag_groups[1], vec!["rust"]);
}

#[test]
fn query_title_and_date() {
    let q = parse_filter("title:Standup date:2026-05");
    assert_eq!(q.titles, vec!["standup"]);
    assert_eq!(q.date_prefixes, vec!["2026-05"]);
}

// ---- toggle_todo_line ---------------------------------------------------

#[test]
fn toggle_prefix_open_to_done() {
    assert_eq!(toggle_todo_line("TODO: buy milk\n", TodoState::Open), "DONE: buy milk\n");
}

#[test]
fn toggle_prefix_done_to_open() {
    assert_eq!(toggle_todo_line("DONE: buy milk\n", TodoState::Done), "TODO: buy milk\n");
}

#[test]
fn toggle_checkbox_open_to_done() {
    assert_eq!(toggle_todo_line("- [ ] fix bug\n", TodoState::Open), "- [x] fix bug\n");
}

#[test]
fn toggle_checkbox_done_to_open() {
    assert_eq!(toggle_todo_line("- [x] fix bug\n", TodoState::Done), "- [ ] fix bug\n");
}

// ---- filter ordering ----------------------------------------------------

#[test]
fn filter_orders_by_date_newest_first() {
    let text = "=== 2026-01-10\nfirst\n\n=== 2026-01-15\nsecond\n\n=== 2026-01-12\nthird\n";
    let buffer = TextBuffer::new(text.to_string());
    let index = FileIndex::build(&buffer);
    let matches = collect_filter_matches(&buffer, &index, "");
    let dates: Vec<&str> = matches
        .iter()
        .map(|&ni| buffer.span_text(index.notes()[ni].date.unwrap()))
        .collect();
    assert_eq!(dates, vec!["2026-01-15", "2026-01-12", "2026-01-10"]);
}

#[test]
fn filter_stable_within_same_date() {
    let text = "=== 2026-01-10 10:00\nA\n\n=== 2026-01-10 10:00\nB\n";
    let buffer = TextBuffer::new(text.to_string());
    let index = FileIndex::build(&buffer);
    let matches = collect_filter_matches(&buffer, &index, "");
    // Identical timestamps: file order (note 0 before note 1) is preserved.
    assert_eq!(matches, vec![0, 1]);
}

#[test]
fn filter_orders_time_within_same_day() {
    let text = "=== 2026-01-10 09:00\nA\n\n=== 2026-01-10 17:30\nB\n";
    let buffer = TextBuffer::new(text.to_string());
    let index = FileIndex::build(&buffer);
    let matches = collect_filter_matches(&buffer, &index, "");
    // Same day, B is later → B comes first.
    assert_eq!(matches, vec![1, 0]);
}

#[test]
fn filter_handles_missing_date() {
    // First note has a malformed delimiter (no date). Second note has a real date.
    let text = "===\nno date\n\n=== 2026-01-15\nwith date\n";
    let buffer = TextBuffer::new(text.to_string());
    let index = FileIndex::build(&buffer);
    let matches = collect_filter_matches(&buffer, &index, "");
    // The dated note sorts first; the undated one is last.
    assert_eq!(matches.len(), 2);
    assert_eq!(matches[0], 1);
    assert_eq!(matches[1], 0);
}

// ---- exact forms ------------------------------------------------------------

fn stamp() -> DateTime {
    DateTime {
        date: Date { year: 2026, month: 5, day: 12 },
        time: Time { hour: 15, minute: 22 },
    }
}

#[test]
fn a_note_is_appended_behind_a_blank_line() {
    assert_eq!(
        append_note_at("old", "new", Some("a, #b,,"), stamp()),
        "old\n\n=== 2026-05-12 15:22\nnew\n#a #b\n"
    );
    assert_eq!(
        append_note_at("old\r\n", "new", None, stamp()),
        "old\r\n\r\n=== 2026-05-12 15:22\r\nnew\r\n"
    );
    assert_eq!(append_note_at("", "new", None, stamp()), "=== 2026-05-12 15:22\nnew\n");
}

#[test]
fn a_todo_is_appended() {
    let out = append_todo_at("", "pay", stamp());
    assert!(out.ends_with("TODO: pay\n"));
    assert!(append_todo_at("old\n", "pay", stamp()).starts_with("old\n"));
}

#[test]
fn tags_match_in_any_case() {
    let text = "=== 2026-01-10\n#OCI\n\n=== 2026-01-11\n#oci-docs\n";
    let buffer = TextBuffer::new(text.to_string());
    let index = FileIndex::build(&buffer);
    assert_eq!(collect_filter_matches(&buffer, &index, "tag:oci"), vec![0]);
    assert_eq!(collect_filter_matches(&buffer, &index, "tag:oci,oci-docs"), vec![1, 0]);
    assert!(collect_filter_matches(&buffer, &index, "tag:oci tag:oci-docs").is_empty());
}

#[test]
fn titles_dates_and_words_match() {
    let text = "=== 2026-05-12 | Standup\nalpha beta\n\n=== Review | 2026-04-01\nBETA\n";
    let buffer = TextBuffer::new(text.to_string());
    let index = FileIndex::build(&buffer);
    assert_eq!(collect_filter_matches(&buffer, &index, "title:stand"), vec![0]);
    assert_eq!(collect_filter_matches(&buffer, &index, "date:2026-04"), vec![1]);
    assert_eq!(collect_filter_matches(&buffer, &index, "beta"), vec![0, 1]);
    assert_eq!(collect_filter_matches(&buffer, &index, "beta alpha"), vec![0]);
}

#[test]
fn matches_are_printed_with_a_blank_line_between() {
    let buffer = TextBuffer::new("=== 2026-01-10\na\n=== 2026-01-11\nb".to_string());
    let index = FileIndex::build(&buffer);
    let matches = collect_filter_matches(&buffer, &index, "");
    assert_eq!(
        filter_output(&buffer, &index, &matches),
        "=== 2026-01-11\nb\n\n=== 2026-01-10\na\n\n"
    );
}

#[test]
fn todos_are_listed_and_searched() {
    let text = "TODO: Pay Bill\n- [x] pay rent\nDONE: x\n";
    let open = load_todos(text.to_string(), false);
    assert_eq!(open.len(), 1);
    let all = load_todos(text.to_string(), true);
    assert_eq!(all.len(), 3);
    assert_eq!(all[1].line_byte_start, 15);
    assert_eq!(todo_grep(&all, "PAY"), vec!["  1. [ ] Pay Bill", "  2. [x] pay rent"]);
}

#[test]
fn toggling_leaves_the_rest_alone() {
    let text = "a\n  - [ ] b\nc\n";
    let done = toggle_todo_in_text(text, 2, TodoState::Open);
    assert_eq!(done, "a\n  - [x] b\nc\n");
    assert_eq!(toggle_todo_in_text(&done, 2, TodoState::Done), text);
    assert_eq!(toggle_todo_in_text(text, 0, TodoState::Open), text, "no todo there");
    assert_eq!(toggle_todo_line("- [X] fix\n", TodoState::Done), "- [ ] fix\n");
}

#[test]
fn an_added_note_is_read_back() {
    let old = "intro #x\n=== Old | 2026-05-01\n- [ ] one\n```\n#code\n```";
    let text = append_note_at(old, "a new note", Some("OCI, java"), stamp());
    let buffer = TextBuffer::new(text);
    let index = FileIndex::build(&buffer);
    assert_eq!(index.note_count(), 3);
    let note = index.note(2).copied().expect("the new note");
    assert_eq!(note.date.map(|s| buffer.span_text(s)), Some("2026-05-12"));
    assert_eq!(note.time.map(|s| buffer.span_text(s)), Some("15:22"));
    assert!(note.title.is_none());
    assert_eq!(buffer.span_text(note.body), "a new note\n#OCI #java\n");
    let tags: Vec<&str> =
        index.tags_for_note(2).into_iter().map(|t| buffer.span_text(t.name)).collect();
    assert_eq!(tags, vec!["OCI", "java"]);
    assert!(index.tags_for_note(1).is_empty(), "code is not read");
    assert_eq!(index.tags_for_note(0).len(), 1);
    assert_eq!(collect_filter_matches(&buffer, &index, "tag:oci"), vec![2]);
    assert_eq!(collect_filter_matches(&buffer, &index, "tag:java tag:oci"), vec![2]);
}

#[test]
fn a_todo_added_in_any_year_is_listed() {
    let day = Date { year: 12345, month: 1, day: 2 };
    let late = DateTime { date: day, time: Time { hour: 3, minute: 4 } };
    let text = append_todo_at("=== 2026-05-01\nTODO: first\n", "second", late);
    assert!(text.contains("=== +12345-01-02 03:04\n"));
    let todos = load_todos(text, false);
    let texts: Vec<&str> = todos.iter().map(|t| t.text.as_str()).collect();
    assert_eq!(texts, vec!["first", "second"]);
}

#[test]
fn an_added_todo_is_listed() {
    let text = append_todo_at("=== 2026-05-01\nTODO: first\n", "second", stamp());
    let todos = load_todos(text.clone(), false);
    let texts: Vec<&str> = todos.iter().map(|t| t.text.as_str()).collect();
    assert_eq!(texts, vec!["first", "second"]);
    let done = toggle_todo_in_text(&text, todos[1].line_byte_start, TodoState::Open);
    let left = load_todos(done.clone(), false);
    assert_eq!(left.len(), 1);
    let all = load_todos(done, true);
    assert_eq!(all[1].text, "second");
    assert_eq!(all[1].state, TodoState::Done);
    assert_eq!(all[1].line_byte_start, todos[1].line_byte_start);
}

#[test]
fn an_added_todo_is_one_more() {
    let todos = |s: &str| jotlog::parser::parse(&TextBuffer::new(s.to_string())).todos;
    for current in ["", "x", "TODO: a", "TODO: a\r\n- [x] b\r\n", "=== A\n```\nTODO: c\n"] {
        let before = todos(current);
        let file = append_todo(current, "pay #bill");
        let after = todos(&file);
        assert!(file.starts_with(current));
        assert_eq!(after.len(), before.len() + 1);
        for (old, new) in before.iter().zip(&after) {
            assert_eq!((old.0, old.1.text, old.1.state), (new.0, new.1.text, new.1.state));
        }
        let last = after[after.len() - 1].1;
        assert_eq!(last.state, TodoState::Open);
        assert_eq!(&file[last.text.start..last.text.end], "pay #bill");
    }
}
