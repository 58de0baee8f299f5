//! Notes, headers, tags and todos.

use jotlog::buffer::TextBuffer;
use jotlog::parser::{is_delimiter_line, parse};
use jotlog::spans::{Span, TodoKind, TodoState};

fn buf(s: &str) -> TextBuffer {
    TextBuffer::new(s.to_string())
}

fn text_at(buf: &TextBuffer, span: Span) -> &str {
    buf.span_text(span)
}

// ---- Delimiter detection -----------------------------------------------

#[test]
fn delimiter_line_variants() {
    assert!(is_delimiter_line("===\n"));
    assert!(is_delimiter_line("=== 2026-05-12\n"));
    assert!(is_delimiter_line("=== 2026-05-12 | Title\n"));
    assert!(!is_delimiter_line(" ===\n")); // leading space → not delimiter
    assert!(!is_delimiter_line("== not\n"));
    assert!(!is_delimiter_line("body text\n"));
}

// ---- Header parsing ----------------------------------------------------

#[test]
fn header_bare() {
    let b = buf("===\n");
    let result = parse(&b);
    let note = &result.notes[0];
    assert!(note.date.is_none());
    assert!(note.time.is_none());
    assert!(note.title.is_none());
}

#[test]
fn header_date_only() {
    let b = buf("=== 2026-05-12\n");
    let result = parse(&b);
    let note = &result.notes[0];
    assert_eq!(text_at(&b, note.date.unwrap()), "2026-05-12");
    assert!(note.time.is_none());
    assert!(note.title.is_none());
}

#[test]
fn header_date_time() {
    let b = buf("=== 2026-05-12 15:22\n");
    let result = parse(&b);
    let note = &result.notes[0];
    assert_eq!(text_at(&b, note.date.unwrap()), "2026-05-12");
    assert_eq!(text_at(&b, note.time.unwrap()), "15:22");
    assert!(note.title.is_none());
}

#[test]
fn header_date_title() {
    let b = buf("=== 2026-05-12 | Meeting notes\n");
    let result = parse(&b);
    let note = &result.notes[0];
    assert_eq!(text_at(&b, note.date.unwrap()), "2026-05-12");
    assert!(note.time.is_none());
    assert_eq!(text_at(&b, note.title.unwrap()), "Meeting notes");
}

#[test]
fn header_full() {
    let b = buf("=== 2026-05-12 09:14 | Morning standup\n");
    let result = parse(&b);
    let note = &result.notes[0];
    assert_eq!(text_at(&b, note.date.unwrap()), "2026-05-12");
    assert_eq!(text_at(&b, note.time.unwrap()), "09:14");
    assert_eq!(text_at(&b, note.title.unwrap()), "Morning standup");
}

// ---- New title-first format -------------------------------------------

#[test]
fn header_new_format_title_date() {
    // `=== Title | Date` — title on the left, date on the right.
    let b = buf("=== Morning standup | 2026-05-12 09:14\n");
    let result = parse(&b);
    let note = &result.notes[0];
    assert_eq!(text_at(&b, note.date.unwrap()), "2026-05-12");
    assert_eq!(text_at(&b, note.time.unwrap()), "09:14");
    assert_eq!(text_at(&b, note.title.unwrap()), "Morning standup");
}

#[test]
fn header_new_format_title_only() {
    // Draft: user typed title but hasn't stamped a date yet.
    let b = buf("=== Just a title\n");
    let result = parse(&b);
    let note = &result.notes[0];
    assert!(note.date.is_none());
    assert!(note.time.is_none());
    assert_eq!(text_at(&b, note.title.unwrap()), "Just a title");
}

#[test]
fn header_new_format_date_only_no_time() {
    let b = buf("=== Project kickoff | 2026-05-12\n");
    let result = parse(&b);
    let note = &result.notes[0];
    assert_eq!(text_at(&b, note.date.unwrap()), "2026-05-12");
    assert!(note.time.is_none());
    assert_eq!(text_at(&b, note.title.unwrap()), "Project kickoff");
}

// ---- Note splitting ----------------------------------------------------

#[test]
fn single_note_with_header() {
    let b = buf("=== 2026-05-12 | Hello\nBody text\n");
    let result = parse(&b);
    assert_eq!(result.notes.len(), 1);
    assert!(result.notes[0].header.is_some());
}

#[test]
fn implicit_first_note() {
    let b = buf("Implicit content\n\n=== 2026-05-12\nSecond note\n");
    let result = parse(&b);
    assert_eq!(result.notes.len(), 2);
    assert!(result.notes[0].header.is_none(), "first note has no header");
    assert!(result.notes[1].header.is_some());
    assert_eq!(&b.as_str()[result.notes[0].body.start..result.notes[0].body.end], "Implicit content\n\n");
}

#[test]
fn multiple_notes() {
    let text = "=== 2026-05-11 | Note 1\nbody1\n\n=== 2026-05-12 | Note 2\nbody2\n";
    let b = buf(text);
    let result = parse(&b);
    assert_eq!(result.notes.len(), 2);
    assert_eq!(text_at(&b, result.notes[0].title.unwrap()), "Note 1");
    assert_eq!(text_at(&b, result.notes[1].title.unwrap()), "Note 2");
}

#[test]
fn bare_separator_only() {
    let b = buf("===\n");
    let result = parse(&b);
    assert_eq!(result.notes.len(), 1);
    assert!(result.notes[0].header.is_some());
    assert!(result.notes[0].date.is_none());
}

#[test]
fn empty_file() {
    let b = buf("");
    let result = parse(&b);
    assert_eq!(result.notes.len(), 1);
    assert!(result.notes[0].header.is_none());
}

// ---- Tag parsing -------------------------------------------------------

#[test]
fn tags_in_body() {
    let b = buf("=== 2026-05-12\n#oci #helidon\n");
    let result = parse(&b);
    assert_eq!(result.tags.len(), 2);
    let names: Vec<&str> = result.tags.iter().map(|(_, t)| b.span_text(t.name)).collect();
    assert!(names.contains(&"oci"));
    assert!(names.contains(&"helidon"));
}

#[test]
fn tag_at_line_start() {
    let b = buf("=== 2026-05-12\n#tag1\n");
    let result = parse(&b);
    assert_eq!(result.tags.len(), 1);
    assert_eq!(b.span_text(result.tags[0].1.name), "tag1");
}

#[test]
fn tag_with_hyphen_and_slash() {
    let b = buf("=== 2026-05-12\n#helidon-oci #project/sub\n");
    let result = parse(&b);
    let names: Vec<&str> = result.tags.iter().map(|(_, t)| b.span_text(t.name)).collect();
    assert!(names.contains(&"helidon-oci"));
    assert!(names.contains(&"project/sub"));
}

#[test]
fn tag_numeric_rejected() {
    // #123 must not be recognized as a tag
    let b = buf("=== 2026-05-12\n#123 and normal text\n");
    let result = parse(&b);
    assert_eq!(result.tags.len(), 0, "#123 should not be a tag");
}

#[test]
fn no_tag_in_heading() {
    // "# Heading" (space after #) is NOT a tag
    let b = buf("=== 2026-05-12\n# This is a heading\n");
    let result = parse(&b);
    assert_eq!(result.tags.len(), 0);
}

#[test]
fn no_tag_in_url_fragment() {
    // "url#fragment" — # not preceded by whitespace, should be ignored
    let b = buf("=== 2026-05-12\nSee https://example.com#section for details\n");
    let result = parse(&b);
    assert_eq!(result.tags.len(), 0);
}

#[test]
fn no_tag_inside_inline_code() {
    let b = buf("=== 2026-05-12\nUse `#oci` in your queries\n");
    let result = parse(&b);
    assert_eq!(result.tags.len(), 0, "tag inside inline code should be ignored");
}

#[test]
fn no_tag_inside_code_fence() {
    let b = buf("=== 2026-05-12\n```\n#oci inside fence\n```\n#real_tag\n");
    let result = parse(&b);
    let names: Vec<&str> = result.tags.iter().map(|(_, t)| b.span_text(t.name)).collect();
    assert!(!names.contains(&"oci"), "tag inside fence should be ignored");
    assert!(names.contains(&"real_tag"), "tag outside fence should be found");
}

// ---- Todo parsing ------------------------------------------------------

#[test]
fn todo_prefix_open() {
    let b = buf("=== 2026-05-12\nTODO: pay the bill\n");
    let result = parse(&b);
    assert_eq!(result.todos.len(), 1);
    let (_, todo) = &result.todos[0];
    assert_eq!(todo.state, TodoState::Open);
    assert_eq!(todo.kind, TodoKind::Prefix);
    assert_eq!(b.span_text(todo.text), "pay the bill");
}

#[test]
fn todo_prefix_done() {
    let b = buf("=== 2026-05-12\nDONE: pay the bill\n");
    let result = parse(&b);
    let (_, todo) = &result.todos[0];
    assert_eq!(todo.state, TodoState::Done);
}

#[test]
fn todo_checkbox_open() {
    let b = buf("=== 2026-05-12\n- [ ] review PR\n");
    let result = parse(&b);
    assert_eq!(result.todos.len(), 1);
    let (_, todo) = &result.todos[0];
    assert_eq!(todo.state, TodoState::Open);
    assert_eq!(todo.kind, TodoKind::Checkbox);
    assert_eq!(b.span_text(todo.text), "review PR");
}

#[test]
fn todo_checkbox_done() {
    let b = buf("=== 2026-05-12\n- [x] review PR\n");
    let result = parse(&b);
    let (_, todo) = &result.todos[0];
    assert_eq!(todo.state, TodoState::Done);
}

#[test]
fn todo_with_due_date() {
    let b = buf("=== 2026-05-12\nTODO: pay the bill due:2026-05-15\n");
    let result = parse(&b);
    let (_, todo) = &result.todos[0];
    assert!(todo.due.is_some());
    assert_eq!(b.span_text(todo.due.unwrap()), "due:2026-05-15");
}

#[test]
fn todo_checkbox_with_due_date() {
    let b = buf("=== 2026-05-12\n- [ ] send proposal due:2026-05-20\n");
    let result = parse(&b);
    let (_, todo) = &result.todos[0];
    assert!(todo.due.is_some());
}

#[test]
fn no_todo_inside_code_fence() {
    let b = buf("=== 2026-05-12\n```\nTODO: this is in a fence\n```\nTODO: real one\n");
    let result = parse(&b);
    assert_eq!(result.todos.len(), 1, "only one todo outside fence");
    assert_eq!(b.span_text(result.todos[0].1.text), "real one");
}

#[test]
fn todo_note_association() {
    let b = buf("=== 2026-05-11\nTODO: first\n\n=== 2026-05-12\nTODO: second\n");
    let result = parse(&b);
    assert_eq!(result.todos.len(), 2);
    assert_eq!(result.todos[0].0, 0, "first todo belongs to note 0");
    assert_eq!(result.todos[1].0, 1, "second todo belongs to note 1");
}

// ---- A whole file ------------------------------------------------------

#[test]
fn spec_sample_file() {
    let text = "\
=== 2026-05-11 | Meeting notes\n\
Lorem ipsum bla bla bla\n\
\n\
## Follow-up items\n\
\n\
TODO: Send proposal to Michael\n\
- [ ] Review OCI deployment docs\n\
- [x] Book the conference room\n\
\n\
#oci #helidon #michael\n\
\n\
=== 2026-05-12 09:14 | Morning standup\n\
Here is another note.\n\
DONE: Verify last night's deploy\n\
#tag1 #tag2\n";

    let b = buf(text);
    let result = parse(&b);

    // Two notes
    assert_eq!(result.notes.len(), 2);

    // Note 0
    assert_eq!(b.span_text(result.notes[0].date.unwrap()), "2026-05-11");
    assert!(result.notes[0].time.is_none());
    assert_eq!(b.span_text(result.notes[0].title.unwrap()), "Meeting notes");

    // Note 1
    assert_eq!(b.span_text(result.notes[1].date.unwrap()), "2026-05-12");
    assert_eq!(b.span_text(result.notes[1].time.unwrap()), "09:14");
    assert_eq!(b.span_text(result.notes[1].title.unwrap()), "Morning standup");

    // Tags: oci, helidon, michael on note 0; tag1, tag2 on note 1
    let note0_tags: Vec<&str> = result.tags.iter()
        .filter(|(ni, _)| *ni == 0)
        .map(|(_, t)| b.span_text(t.name))
        .collect();
    assert!(note0_tags.contains(&"oci"));
    assert!(note0_tags.contains(&"helidon"));
    assert!(note0_tags.contains(&"michael"));

    let note1_tags: Vec<&str> = result.tags.iter()
        .filter(|(ni, _)| *ni == 1)
        .map(|(_, t)| b.span_text(t.name))
        .collect();
    assert!(note1_tags.contains(&"tag1"));
    assert!(note1_tags.contains(&"tag2"));

    // Todos: 3 in note 0 (1 prefix + 2 checkbox), 1 in note 1
    let note0_todos: Vec<_> = result.todos.iter().filter(|(ni, _)| *ni == 0).collect();
    let note1_todos: Vec<_> = result.todos.iter().filter(|(ni, _)| *ni == 1).collect();
    assert_eq!(note0_todos.len(), 3);
    assert_eq!(note1_todos.len(), 1);

    // States: Send proposal + Review OCI = 2 open; Book conference + Verify = 2 done
    let open_count = result.todos.iter().filter(|(_, t)| t.state == TodoState::Open).count();
    let done_count = result.todos.iter().filter(|(_, t)| t.state == TodoState::Done).count();
    assert_eq!(open_count, 2);
    assert_eq!(done_count, 2);
}

#[test]
fn the_title_is_the_segment_that_remains() {
    let note = |s: &str| parse(&TextBuffer::new(s.to_string())).notes[0];
    let n = note("=== | Title only\n");
    assert_eq!(n.date, None);
    assert_eq!(n.title, Some(Span::new(6, 16)));
    assert_eq!(note("=== left | right\n").title, Some(Span::new(4, 8)));
    assert_eq!(note("=== |\n").title, None);
    assert_eq!(note("=== | 2026-05-12\n").title, None);
}
