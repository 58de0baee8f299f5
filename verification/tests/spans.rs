//! Spans and the line index.

use jotlog::spans::{LineIndex, Span};

// ---- Span ---------------------------------------------------------------

#[test]
fn span_len() {
    assert_eq!(Span::new(2, 5).len(), 3);
    assert_eq!(Span::new(0, 0).len(), 0);
}

#[test]
fn span_contains_offset() {
    let s = Span::new(2, 5);
    assert!(!s.contains_offset(1));
    assert!(s.contains_offset(2));
    assert!(s.contains_offset(4));
    assert!(!s.contains_offset(5));
}

#[test]
fn span_overlaps() {
    assert!(Span::new(0, 4).overlaps(Span::new(2, 6)));
    assert!(!Span::new(0, 2).overlaps(Span::new(2, 4)));
    assert!(!Span::new(2, 4).overlaps(Span::new(0, 2)));
}

#[test]
fn span_contains() {
    let outer = Span::new(0, 10);
    assert!(outer.contains(Span::new(2, 5)));
    assert!(outer.contains(Span::new(0, 10)));
    assert!(!outer.contains(Span::new(5, 11)));
}

// ---- LineIndex ----------------------------------------------------------

fn idx(text: &str) -> LineIndex {
    LineIndex::build(text)
}

#[test]
fn empty_text() {
    let li = idx("");
    assert_eq!(li.line_count(), 1); // one empty line
    assert_eq!(li.line_start(0), Some(0));
    assert_eq!(li.line_end(0), Some(0));
    assert_eq!(li.line_start(1), None);
}

#[test]
fn single_line_no_newline() {
    let li = idx("hello");
    assert_eq!(li.line_count(), 1);
    assert_eq!(li.line_span(0), Some(Span::new(0, 5)));
}

#[test]
fn single_line_with_newline() {
    let li = idx("hello\n");
    assert_eq!(li.line_count(), 2);
    assert_eq!(li.line_span(0), Some(Span::new(0, 6))); // includes \n
    assert_eq!(li.line_span(1), Some(Span::new(6, 6))); // empty final line
}

#[test]
fn multi_line() {
    let text = "aaa\nbbb\nccc";
    let li = idx(text);
    assert_eq!(li.line_count(), 3);
    assert_eq!(li.line_span(0), Some(Span::new(0, 4)));
    assert_eq!(li.line_span(1), Some(Span::new(4, 8)));
    assert_eq!(li.line_span(2), Some(Span::new(8, 11)));
}

#[test]
fn crlf_line_endings() {
    let text = "aaa\r\nbbb\r\n";
    let li = idx(text);
    // Each line span includes \r\n
    assert_eq!(li.line_span(0), Some(Span::new(0, 5)));
    assert_eq!(li.line_span(1), Some(Span::new(5, 10)));
    assert_eq!(li.line_span(2), Some(Span::new(10, 10)));
}

#[test]
fn offset_to_line_basic() {
    let text = "aaa\nbbb\nccc";
    let li = idx(text);
    assert_eq!(li.offset_to_line(0), 0); // 'a'
    assert_eq!(li.offset_to_line(3), 0); // '\n' (still line 0)
    assert_eq!(li.offset_to_line(4), 1); // first 'b'
    assert_eq!(li.offset_to_line(8), 2); // first 'c'
}

#[test]
fn line_col_round_trip() {
    let text = "hello\nworld\n";
    let li = idx(text);
    for offset in 0..text.len() {
        let (line, col) = li.offset_to_line_col(offset);
        assert_eq!(li.line_col_to_offset(line, col), Some(offset));
    }
}

#[test]
fn unicode_multibyte() {
    // "é" is 2 bytes in UTF-8 (U+00E9 = 0xC3 0xA9)
    let text = "café\nok";
    let li = idx(text);
    assert_eq!(li.line_count(), 2);
    // "café" is 5 bytes (c=1, a=1, f=1, é=2) + newline = 6 bytes for line 0
    assert_eq!(li.line_span(0), Some(Span::new(0, 6)));
    assert_eq!(li.line_span(1), Some(Span::new(6, 8)));
}

#[test]
fn offset_to_line_clamped_at_total() {
    let text = "ab";
    let li = idx(text);
    assert_eq!(li.offset_to_line(100), 0); // only one line
}
