//! The index over a file.

use jotlog::buffer::TextBuffer;
use jotlog::index::FileIndex;

fn buf(s: &str) -> TextBuffer {
    TextBuffer::new(s.to_string())
}

#[test]
fn index_note_count() {
    let b = buf("=== 2026-05-11\nbody1\n\n=== 2026-05-12\nbody2\n");
    let idx = FileIndex::build(&b);
    assert_eq!(idx.note_count(), 2);
}

#[test]
fn todos_open_only() {
    let text = "=== 2026-05-12\nTODO: open one\nDONE: done one\n- [ ] open two\n- [x] done two\n";
    let b = buf(text);
    let idx = FileIndex::build(&b);
    assert_eq!(idx.todos_open().len(), 2);
    assert_eq!(idx.todos_all().len(), 4);
}

#[test]
fn tags_for_note_scoped() {
    let text = "=== 2026-05-11\n#oci #helidon\n\n=== 2026-05-12\n#java\n";
    let b = buf(text);
    let idx = FileIndex::build(&b);
    let note0_tags: Vec<_> = idx.tags_for_note(0).iter().map(|t| b.span_text(t.name)).collect();
    let note1_tags: Vec<_> = idx.tags_for_note(1).iter().map(|t| b.span_text(t.name)).collect();
    assert_eq!(note0_tags.len(), 2);
    assert_eq!(note1_tags.len(), 1);
    assert!(note1_tags.contains(&"java"));
}

#[test]
fn unique_tag_names_sorted_deduped() {
    let text = "=== 2026-05-11\n#oci #java\n\n=== 2026-05-12\n#oci #rust\n";
    let b = buf(text);
    let idx = FileIndex::build(&b);
    let names = idx.unique_tag_names(&b);
    assert_eq!(names, vec!["java", "oci", "rust"]); // sorted, deduped
}
