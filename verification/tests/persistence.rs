//! Saving: line endings, snapshots and the retry rule.

use jotlog::persistence::{
    conflict_copy_name, detect_line_ending, hash_content, normalise_line_endings,
    read_modify_write, temp_name, ConflictStatus, FileSnapshot, Mtime, WriteStep,
};

#[test]
fn line_ending_lf() {
    assert_eq!(detect_line_ending("line1\nline2\n"), "\n");
}

#[test]
fn line_ending_crlf() {
    assert_eq!(detect_line_ending("line1\r\nline2\r\n"), "\r\n");
}

#[test]
fn line_ending_empty() {
    assert_eq!(detect_line_ending(""), "\n"); // default to LF for new files
}

const FIRST: Mtime = Mtime { secs: 100, nanos: 0 };
const LATER: Mtime = Mtime { secs: 200, nanos: 5 };

#[test]
fn snapshot_clean_when_unchanged() {
    let snap = FileSnapshot::capture(FIRST, b"content\n");
    assert_eq!(snap.check(Some(FIRST), b"content\n"), ConflictStatus::Clean);
    assert_eq!(snap.check_mtime(Some(FIRST)), Some(ConflictStatus::Clean));
}

#[test]
fn snapshot_changed_after_external_write() {
    let snap = FileSnapshot::capture(FIRST, b"original\n");
    assert_eq!(
        snap.check(Some(LATER), b"changed by external tool\n"),
        ConflictStatus::Changed
    );
}

#[test]
fn snapshot_clean_same_content_different_mtime() {
    // A sync tool might update mtime without changing content.
    let snap = FileSnapshot::capture(FIRST, b"identical content\n");
    assert_eq!(snap.check_mtime(Some(LATER)), None, "the content decides");
    assert_eq!(snap.check(Some(LATER), b"identical content\n"), ConflictStatus::Clean);
}

#[test]
fn snapshot_missing_when_file_deleted() {
    let snap = FileSnapshot::capture(FIRST, b"content\n");
    assert_eq!(snap.check(None, b""), ConflictStatus::Missing);
}

/// A file in memory: when it was written, and its content.
struct Held(i64, String);

/// Read, modify and write `file`; `meanwhile` is what others write in each attempt
/// before the write. Returns the number of attempts and whether it was written.
fn modify(file: &mut Held, addition: &str, meanwhile: &[&str]) -> (u8, bool) {
    let mut attempt = 0u8;
    loop {
        let snap = FileSnapshot::capture(Mtime { secs: file.0, nanos: 0 }, file.1.as_bytes());
        let new = format!("{}{addition}", file.1);
        if let Some(other) = meanwhile.get(attempt as usize) {
            *file = Held(file.0 + 1, other.to_string());
        }
        let status = snap.check(Some(Mtime { secs: file.0, nanos: 0 }), file.1.as_bytes());
        match read_modify_write(attempt, Some(status)) {
            WriteStep::Write => {
                *file = Held(file.0 + 1, new);
                return (attempt + 1, true);
            }
            WriteStep::Retry => attempt += 1,
            WriteStep::GiveUp => return (attempt + 1, false),
            WriteStep::Disappeared => panic!("the file is there"),
        }
    }
}

#[test]
fn rmw_creates_file_if_missing() {
    assert_eq!(read_modify_write(0, None), WriteStep::Write);
}

#[test]
fn rmw_modifies_existing_file() {
    let mut file = Held(1, "line1\n".to_string());
    assert_eq!(modify(&mut file, "line2\n", &[]), (1, true));
    assert_eq!(file.1, "line1\nline2\n");
}

#[test]
fn rmw_conflict_retry_success() {
    // The first attempt sees a conflict and retries. Second attempt succeeds.
    let mut file = Held(1, "original\n".to_string());
    assert_eq!(modify(&mut file, "appended\n", &["externally changed\n"]), (2, true));
    assert_eq!(file.1, "externally changed\nappended\n");
}

#[test]
fn rmw_conflict_retry_failed() {
    let mut file = Held(1, "original\n".to_string());
    let others = ["always changing 0\n", "always changing 1\n"];
    assert_eq!(modify(&mut file, "appended\n", &others), (2, false));
    assert_eq!(file.1, "always changing 1\n");
}

#[test]
fn a_file_that_disappears_is_an_error() {
    assert_eq!(read_modify_write(0, Some(ConflictStatus::Missing)), WriteStep::Disappeared);
    assert_eq!(read_modify_write(1, Some(ConflictStatus::Missing)), WriteStep::Disappeared);
}

#[test]
fn names_beside_a_file() {
    assert_eq!(temp_name("notes.jot"), ".notes.jot.tmp");
    assert_eq!(conflict_copy_name("notes.jot"), "notes.conflict.jot");
    assert_eq!(conflict_copy_name("a.b.txt"), "a.b.conflict.jot");
    assert_eq!(conflict_copy_name("notes"), "notes.conflict.jot");
    assert_eq!(conflict_copy_name(".notes"), ".notes.conflict.jot");
}

#[test]
fn hashes_tell_contents_apart() {
    assert_eq!(hash_content("a"), hash_content("a"));
    assert_ne!(hash_content("a"), hash_content("b"));
}

#[test]
fn normalising_twice_changes_nothing_more() {
    let once = normalise_line_endings("a\r\nb\rc\nd", "\r\n");
    assert_eq!(normalise_line_endings(&once, "\r\n"), once);
}
