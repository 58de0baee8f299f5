//! Delimiters, highlighting, wrapping and completion.

use jotlog::command_bar::complete_command_verb;
use jotlog::delimiter::{parse_delimiter_for_render, render_decorated_delimiter};
use jotlog::highlight::{
    highlight_inline, highlight_normal_line, is_hr_line, ordered_list_prefix_len,
};
use jotlog::persistence::normalise_line_endings;
use jotlog::style::StyledLine;
use jotlog::wrap::wrap_segments;
use unicode_width::UnicodeWidthStr;

fn line_display_width(line: &StyledLine) -> usize {
    line.spans
        .iter()
        .map(|s| UnicodeWidthStr::width(s.content.as_str()))
        .sum()
}

fn line_to_plain(line: &StyledLine) -> String {
    line.spans
        .iter()
        .map(|s| s.content.as_str())
        .collect::<String>()
}

#[test]
fn parse_delimiter_full() {
    let (meta, title) = parse_delimiter_for_render("=== 2026-05-13 14:32 | My title");
    assert_eq!(meta, "2026-05-13 14:32");
    assert_eq!(title.as_deref(), Some("My title"));
}

#[test]
fn parse_delimiter_date_only() {
    let (meta, title) = parse_delimiter_for_render("=== 2026-05-13 14:32");
    assert_eq!(meta, "2026-05-13 14:32");
    assert!(title.is_none());
}

#[test]
fn parse_delimiter_bare() {
    let (meta, title) = parse_delimiter_for_render("===");
    assert_eq!(meta, "");
    assert!(title.is_none());
}

#[test]
fn parse_delimiter_empty_title() {
    let (meta, title) = parse_delimiter_for_render("=== 2026-05-13 |");
    assert_eq!(meta, "2026-05-13");
    assert!(title.is_none());
}

#[test]
fn parse_delimiter_no_date() {
    let (meta, title) = parse_delimiter_for_render("=== | Title only");
    assert_eq!(meta, "");
    assert_eq!(title.as_deref(), Some("Title only"));
}

#[test]
fn decorated_total_width_full() {
    let line = render_decorated_delimiter("=== 2026-05-13 14:32 | Hi", 80);
    assert_eq!(line_display_width(&line), 80);
    let s = line_to_plain(&line);
    assert!(s.contains("Hi"));
    assert!(s.contains("2026-05-13 14:32"));
    assert!(s.contains('\u{2500}'));
}

#[test]
fn decorated_total_width_date_only() {
    let line = render_decorated_delimiter("=== 2026-05-13 14:32", 60);
    assert_eq!(line_display_width(&line), 60);
    let s = line_to_plain(&line);
    assert!(s.contains("2026-05-13 14:32"));
}

#[test]
fn decorated_bare_full_rule() {
    let line = render_decorated_delimiter("===", 40);
    assert_eq!(line_display_width(&line), 40);
    let s = line_to_plain(&line);
    // Bare delimiter: full row of rule chars.
    let rule_chars = s.chars().filter(|&c| c == '\u{2500}').count();
    assert_eq!(rule_chars, 40);
    for ch in s.chars() {
        assert_eq!(ch, '\u{2500}');
    }
}

#[test]
fn decorated_has_edge_rules_with_text() {
    // Both title and date present: row begins and ends with a rule char.
    let s = line_to_plain(&render_decorated_delimiter("=== 2026-05-13 14:32 | Hi", 80));
    let first = s.chars().next().unwrap();
    let last = s.chars().last().unwrap();
    assert_eq!(first, '\u{2500}', "row should start with a rule char: {s:?}");
    assert_eq!(last, '\u{2500}', "row should end with a rule char: {s:?}");
}

fn line_text(line: &StyledLine) -> String {
    line.spans.iter().map(|s| s.content.as_str()).collect()
}

#[test]
fn md_bold_double_star() {
    let line = highlight_inline("a **b** c");
    // Expect: "a ", "**", "b", "**", " c"
    assert_eq!(line.spans.len(), 5);
    assert_eq!(line.spans[0].content.as_str(), "a ");
    assert_eq!(line.spans[1].content.as_str(), "**");
    assert_eq!(line.spans[2].content.as_str(), "b");
    assert_eq!(line.spans[3].content.as_str(), "**");
    assert_eq!(line.spans[4].content.as_str(), " c");
    assert_eq!(line_text(&line), "a **b** c");
}

#[test]
fn md_italic_single_star() {
    let line = highlight_inline("a *b* c");
    assert_eq!(line.spans.len(), 5);
    assert_eq!(line.spans[1].content.as_str(), "*");
    assert_eq!(line.spans[2].content.as_str(), "b");
    assert_eq!(line.spans[3].content.as_str(), "*");
}

#[test]
fn md_strikethrough_double_tilde() {
    let line = highlight_inline("~~gone~~");
    assert_eq!(line.spans.len(), 3);
    assert_eq!(line.spans[0].content.as_str(), "~~");
    assert_eq!(line.spans[1].content.as_str(), "gone");
    assert_eq!(line.spans[2].content.as_str(), "~~");
}

#[test]
fn md_link_pattern() {
    let line = highlight_inline("see [docs](https://example.com) for more");
    // "see ", "[", "docs", "](", "https://example.com", ")", " for more"
    let texts: Vec<&str> = line.spans.iter().map(|s| s.content.as_str()).collect();
    assert_eq!(
        texts,
        vec!["see ", "[", "docs", "](", "https://example.com", ")", " for more"]
    );
}

#[test]
fn md_image_pattern() {
    let line = highlight_inline("![alt](url)");
    let texts: Vec<&str> = line.spans.iter().map(|s| s.content.as_str()).collect();
    assert_eq!(texts, vec!["!", "[", "alt", "](", "url", ")"]);
}

#[test]
fn md_unclosed_marker_stays_plain() {
    // No closing ** — treat as plain text.
    let line = highlight_inline("**foo with no end");
    assert_eq!(line.spans.len(), 1);
    assert_eq!(line.spans[0].content.as_str(), "**foo with no end");
}

#[test]
fn md_is_hr_line() {
    assert!(is_hr_line("---"));
    assert!(is_hr_line("***"));
    assert!(is_hr_line("___"));
    assert!(is_hr_line("------"));
    assert!(is_hr_line("  ---  "));
    assert!(!is_hr_line("--"));
    assert!(!is_hr_line("- --"));
    assert!(!is_hr_line("==="));
    assert!(!is_hr_line("hello"));
    assert!(!is_hr_line(""));
}

#[test]
fn md_blockquote_line() {
    let line = highlight_normal_line("> hello world");
    // First span is the "> " marker (yellow).
    assert_eq!(line.spans[0].content.as_str(), "> ");
}

#[test]
fn md_unordered_list_bullet() {
    let line = highlight_normal_line("- bullet item");
    // First span should be "- ", remainder inline-scanned.
    assert_eq!(line.spans[0].content.as_str(), "- ");
}

#[test]
fn md_unordered_list_does_not_catch_checkbox() {
    // `- [ ]` should still be handled as a checkbox, not as a list.
    let line = highlight_normal_line("- [ ] task");
    // Checkbox path emits "- [ ]" as the first span.
    assert_eq!(line.spans[0].content.as_str(), "- [ ]");
}

#[test]
fn md_ordered_list_prefix() {
    assert_eq!(ordered_list_prefix_len("1. foo"), Some(3));
    assert_eq!(ordered_list_prefix_len("42. bar"), Some(4));
    assert_eq!(ordered_list_prefix_len("1.foo"), None); // need space after .
    assert_eq!(ordered_list_prefix_len("a. foo"), None);
    assert_eq!(ordered_list_prefix_len("foo"), None);
}

#[test]
fn complete_unique_prefix_adds_space() {
    // "fil" → "filter " (unique; trailing space)
    assert_eq!(complete_command_verb("fil").as_deref(), Some("filter "));
}

#[test]
fn complete_no_match_returns_none() {
    assert!(complete_command_verb("zzz").is_none());
}

#[test]
fn complete_common_prefix() {
    // "q" matches q, quit, q!, quit! — common prefix is just "q",
    // which equals the input, so no progress is possible.
    assert!(complete_command_verb("q").is_none());
    // "qu" matches "quit", "quit!" — common prefix "quit", longer than input.
    assert_eq!(complete_command_verb("qu").as_deref(), Some("quit"));
}

#[test]
fn wrap_fits_no_break() {
    assert_eq!(wrap_segments("hello", 10), vec![(0, 5)]);
    assert_eq!(wrap_segments("hello world", 11), vec![(0, 11)]);
}

#[test]
fn wrap_word_break() {
    // "hello world goodbye" with width 10 → "hello", "world", "goodbye"
    let segs = wrap_segments("hello world goodbye", 10);
    // Three visual rows; each segment trims to "hello", "world", "goodbye".
    let texts: Vec<&str> = segs
        .iter()
        .map(|&(s, e)| &"hello world goodbye"[s..e])
        .collect();
    assert_eq!(texts, vec!["hello", "world", "goodbye"]);
}

#[test]
fn wrap_hard_break_long_word() {
    // Single word longer than width — hard break inside the word.
    let segs = wrap_segments("abcdefghij", 4);
    let texts: Vec<&str> = segs
        .iter()
        .map(|&(s, e)| &"abcdefghij"[s..e])
        .collect();
    assert_eq!(texts, vec!["abcd", "efgh", "ij"]);
}

#[test]
fn wrap_preserves_trailing_word() {
    let segs = wrap_segments("foo bar baz qux", 7);
    let s = "foo bar baz qux";
    let texts: Vec<&str> = segs.iter().map(|&(a, b)| &s[a..b]).collect();
    assert_eq!(texts, vec!["foo bar", "baz qux"]);
}

#[test]
fn normalise_line_endings_to_lf() {
    let out = normalise_line_endings("a\r\nb\rc\nd", "\n");
    assert_eq!(out, "a\nb\nc\nd");
}

#[test]
fn normalise_line_endings_to_crlf() {
    let out = normalise_line_endings("a\nb\rc", "\r\n");
    assert_eq!(out, "a\r\nb\r\nc");
}

#[test]
fn decorated_title_only_runs_to_end() {
    // Title but no date: row ends in a continuous rule (no spaces near right edge).
    let s = line_to_plain(&render_decorated_delimiter("=== | Just a title", 50));
    assert!(s.starts_with('\u{2500}'));
    assert!(s.ends_with('\u{2500}'));
    // The last several chars should all be rule chars (no date area).
    let tail: String = s.chars().rev().take(5).collect();
    for ch in tail.chars() {
        assert_eq!(ch, '\u{2500}');
    }
}

#[test]
fn decorated_truncates_long_title() {
    let long = "A very long title that should not fit in a narrow terminal viewport";
    let line = render_decorated_delimiter(
        &format!("=== 2026-05-13 14:32 | {long}"),
        40,
    );
    assert_eq!(line_display_width(&line), 40);
    let s = line_to_plain(&line);
    assert!(s.contains('\u{2026}'), "expected ellipsis in: {s:?}");
    // At least MIN_RULE rule cells must remain.
    let rule_chars = s.chars().filter(|&c| c == '\u{2500}').count();
    assert!(rule_chars >= 3, "expected ≥3 rules, got {rule_chars}: {s:?}");
}

#[test]
fn decorated_no_date_with_title() {
    let line = render_decorated_delimiter("=== | Title only", 50);
    assert_eq!(line_display_width(&line), 50);
    let s = line_to_plain(&line);
    assert!(s.contains("Title only"));
}

// ---- new title-first format ---------------------------------------------

#[test]
fn parse_delimiter_new_format() {
    // `=== Title | Date` — title on left, date on right.
    let (meta, title) = parse_delimiter_for_render("=== My title | 2026-05-13 14:32");
    assert_eq!(meta, "2026-05-13 14:32");
    assert_eq!(title.as_deref(), Some("My title"));
}

#[test]
fn parse_delimiter_new_format_title_only() {
    // New-format draft: title typed, date not yet stamped.
    let (meta, title) = parse_delimiter_for_render("=== Just a title");
    assert_eq!(meta, "");
    assert_eq!(title.as_deref(), Some("Just a title"));
}

#[test]
fn decorated_new_format_matches_old() {
    // Same logical note in old and new formats should render to the same plain text.
    let old = line_to_plain(&render_decorated_delimiter(
        "=== 2026-05-13 14:32 | Standup",
        60,
    ));
    let new = line_to_plain(&render_decorated_delimiter(
        "=== Standup | 2026-05-13 14:32",
        60,
    ));
    assert_eq!(old, new);
}

#[test]
fn decorated_lines_are_as_wide_as_the_screen() {
    let line = render_decorated_delimiter("=== abcdefghijklmno", 10);
    assert_eq!(line_to_plain(&line), "\u{2500} abcdef\u{2026} ");
    for content in [
        "===",
        "=== abcdefghijklmno",
        "=== 2026-05-13 14:32",
        "=== 2026-05-13 14:32 | Hi",
        "=== \u{4e2d}\u{6587}\u{6807}\u{9898}\u{4e2d}\u{6587} | 2026-05-13",
        "=== \u{2601}\u{fe0f}\u{2601}\u{fe0f}\u{2601}\u{fe0f}\u{2601}\u{fe0f}",
    ] {
        for width in 0..60 {
            let line = render_decorated_delimiter(content, width);
            assert_eq!(line_display_width(&line), width, "{content} at {width}");
        }
    }
}
