//! The text buffer.

use jotlog::buffer::TextBuffer;
use jotlog::spans::Span;

#[test]
fn empty_buffer() {
    let buf = TextBuffer::empty();
    assert_eq!(buf.len(), 0);
    assert!(buf.is_empty());
    assert_eq!(buf.line_count(), 1);
    assert_eq!(buf.line_text(0), Some(""));
    assert_eq!(buf.line_text(1), None);
}

#[test]
fn line_text() {
    let buf = TextBuffer::new("hello\nworld\n".into());
    assert_eq!(buf.line_text(0), Some("hello\n"));
    assert_eq!(buf.line_text(1), Some("world\n"));
    assert_eq!(buf.line_text(2), Some(""));
    assert_eq!(buf.line_text(3), None);
}

#[test]
fn span_text() {
    let buf = TextBuffer::new("hello world".into());
    assert_eq!(buf.span_text(Span::new(6, 11)), "world");
    assert_eq!(buf.span_text(Span::new(0, 5)), "hello");
}

#[test]
fn append_updates_line_index() {
    let mut buf = TextBuffer::new("line1\n".into());
    assert_eq!(buf.line_count(), 2); // "line1\n" + empty line
    buf.append("line2\n");
    assert_eq!(buf.line_count(), 3);
    assert_eq!(buf.line_text(1), Some("line2\n"));
}

#[test]
fn replace_span_middle() {
    let mut buf = TextBuffer::new("TODO: old task\n".into());
    // Replace "old task" with "new task"
    let span = Span::new(6, 14); // "old task"
    buf.replace_span(span, "new task");
    assert_eq!(buf.as_str(), "TODO: new task\n");
}

#[test]
fn replace_span_todo_toggle() {
    let mut buf = TextBuffer::new("TODO: pay bill\n".into());
    // Toggle: replace "TODO" with "DONE"
    buf.replace_span(Span::new(0, 4), "DONE");
    assert_eq!(buf.as_str(), "DONE: pay bill\n");
}

#[test]
fn replace_span_checkbox_toggle() {
    let mut buf = TextBuffer::new("- [ ] pay bill\n".into());
    // Toggle: replace "[ ]" with "[x]"
    buf.replace_span(Span::new(2, 5), "[x]");
    assert_eq!(buf.as_str(), "- [x] pay bill\n");
}

#[test]
fn replace_span_rebuilds_line_index() {
    let mut buf = TextBuffer::new("aaa\nbbb\nccc\n".into());
    // Insert a newline in the middle of line 1 — creates new line
    let span = Span::new(4, 7); // "bbb"
    buf.replace_span(span, "bb\nbb");
    assert_eq!(buf.line_count(), 5); // was 4 (aaa, bbb, ccc, empty), now 5
    assert_eq!(buf.line_text(1), Some("bb\n"));
    assert_eq!(buf.line_text(2), Some("bb\n"));
}

#[test]
fn span_text_unicode() {
    let buf = TextBuffer::new("café\n".into());
    // "café" = c(0) a(1) f(2) é(3,4) = bytes 0..5, newline at 5
    let span = Span::new(0, 5);
    assert_eq!(buf.span_text(span), "café");
}

#[test]
fn into_content_roundtrip() {
    let text = "=== 2026-05-12 | Hello\nBody text\n";
    let buf = TextBuffer::new(text.into());
    assert_eq!(buf.into_content(), text);
}
