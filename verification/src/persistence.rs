//! The decisions behind saving: conflict detection by modification time and
//! content hash, the retry-once rule of read-modify-write, and line endings.

use std::collections::hash_map::DefaultHasher;
use std::hash::Hasher;
use vstd::prelude::*;
use vstd::std_specs::hash::DefaultHasherAdditionalSpecFns;
use vstd::string::StrSliceExecFns;
use vstd::utf8::*;

use crate::text;
use crate::words;

verus! {

/// A file modification time: seconds since the epoch, and nanoseconds.
#[derive(Debug, Clone, Copy, PartialEq, Eq, Structural)]
pub struct Mtime {
    pub secs: i64,
    pub nanos: u32,
}

/// mtime + content hash captured at file-open time.
#[derive(Debug, Clone, Copy, PartialEq, Eq, Structural)]
pub struct FileSnapshot {
    pub mtime: Mtime,
    pub hash: u64,
}

#[derive(Debug, Clone, Copy, PartialEq, Eq, Structural)]
pub enum ConflictStatus {
    /// File on disk matches the snapshot (safe to overwrite).
    Clean,
    /// File on disk has changed since the snapshot was taken.
    Changed,
    /// File has been deleted since the snapshot was taken.
    Missing,
}

/// The hash of a piece of content.
pub open spec fn content_hash(b: Seq<u8>) -> u64 {
    DefaultHasher::spec_finish(seq![b])
}

pub fn hash_bytes(b: &[u8]) -> (r: u64)
    ensures
        r == content_hash(b@),
{
    let mut h = DefaultHasher::new();
    h.write(b);
    proof {
        assert(h@ =~= seq![b@]);
    }
    h.finish()
}

pub fn hash_content(s: &str) -> (r: u64)
    ensures
        r == content_hash(encode_utf8(s@)),
{
    hash_bytes(s.as_bytes())
}

impl FileSnapshot {
    /// Snapshot of a file with the given mtime and content.
    pub fn capture(mtime: Mtime, content: &[u8]) -> (r: Self)
        ensures
            r.mtime == mtime,
            r.hash == content_hash(content@),
    {
        Self { mtime, hash: hash_bytes(content) }
    }

    /// How a file compares with the snapshot: gone; untouched, by its mtime;
    /// or touched, and then its content decides.
    pub open spec fn status(self, mtime: Option<Mtime>, content: Seq<u8>) -> ConflictStatus {
        match mtime {
            None => ConflictStatus::Missing,
            Some(m) => if m == self.mtime || content_hash(content) == self.hash {
                ConflictStatus::Clean
            } else {
                ConflictStatus::Changed
            },
        }
    }

    /// Decides from the mtime alone (`None`: the file is gone), where that is
    /// enough; otherwise the content has to be read.
    pub fn check_mtime(&self, mtime: Option<Mtime>) -> (r: Option<ConflictStatus>)
        ensures
            r matches Some(s) ==> forall|content: Seq<u8>|
                s == #[trigger] self.status(mtime, content),
            r is None <==> mtime is Some && mtime->Some_0 != self.mtime,
    {
        match mtime {
            None => Some(ConflictStatus::Missing),
            Some(m) => if m.secs == self.mtime.secs && m.nanos == self.mtime.nanos {
                Some(ConflictStatus::Clean)
            } else {
                None
            },
        }
    }

    /// Check whether the file on disk still matches the snapshot. The content
    /// tolerates same-second writes and a file copied over itself.
    pub fn check(&self, mtime: Option<Mtime>, content: &[u8]) -> (r: ConflictStatus)
        ensures
            r == self.status(mtime, content@),
    {
        match self.check_mtime(mtime) {
            Some(s) => {
                proof {
                    assert(s == self.status(mtime, content@));
                }
                s
            },
            None => if hash_bytes(content) == self.hash {
                ConflictStatus::Clean
            } else {
                ConflictStatus::Changed
            },
        }
    }
}

/// A file that was not touched, or was written again with the same content,
/// is no conflict.
pub proof fn law_same_content_is_clean(mtime: Mtime, later: Mtime, content: Seq<u8>)
    ensures
        ({
            let snap = FileSnapshot { mtime, hash: content_hash(content) };
            snap.status(Some(later), content) is Clean
        }),
{
}

// ---------------------------------------------------------------------------
// Read-modify-write with retry-once conflict detection
// ---------------------------------------------------------------------------

/// Outcome of a read-modify-write.
#[derive(Debug, Clone, Copy, PartialEq, Eq, Structural)]
pub enum WriteOutcome {
    Success,
    /// The file was modified externally and retrying once still saw a conflict.
    /// The caller should warn the user.
    ConflictRetryFailed,
}

/// What to do once the new content of an attempt is ready.
#[derive(Debug, Clone, Copy, PartialEq, Eq, Structural)]
pub enum WriteStep {
    /// Write the new content and report success.
    Write,
    /// Read the file again and start over.
    Retry,
    /// Report that the retry failed.
    GiveUp,
    /// Report that the file disappeared.
    Disappeared,
}

/// The rule of read-modify-write. `status` compares the file with what was read
/// at the start of the attempt; `None` stands for a file that did not exist,
/// which is created without a check.
pub open spec fn write_rule(attempt: int, status: Option<ConflictStatus>) -> WriteStep {
    match status {
        None => WriteStep::Write,
        Some(ConflictStatus::Clean) => WriteStep::Write,
        Some(ConflictStatus::Missing) => WriteStep::Disappeared,
        Some(ConflictStatus::Changed) => if attempt == 0 {
            WriteStep::Retry
        } else {
            WriteStep::GiveUp
        },
    }
}

/// Decides the step of one attempt, counted from 0.
pub fn read_modify_write(attempt: u8, status: Option<ConflictStatus>) -> (r: WriteStep)
    ensures
        r == write_rule(attempt as int, status),
{
    match status {
        None => WriteStep::Write,
        Some(ConflictStatus::Clean) => WriteStep::Write,
        Some(ConflictStatus::Missing) => WriteStep::Disappeared,
        Some(ConflictStatus::Changed) => if attempt == 0 {
            WriteStep::Retry
        } else {
            WriteStep::GiveUp
        },
    }
}

/// A changed file is never overwritten; a conflict is retried once and then
/// reported.
pub proof fn law_retry_once(attempt: int, status: Option<ConflictStatus>)
    requires
        attempt >= 0,
    ensures
        write_rule(attempt, status) is Write <==> (status is None || status->Some_0 is Clean),
        write_rule(attempt, status) is Retry <==> attempt == 0 && status
            == Some(ConflictStatus::Changed),
        write_rule(attempt, status) is GiveUp <==> attempt > 0 && status
            == Some(ConflictStatus::Changed),
{
}

/// Name of the temporary file beside a file called `name`.
pub fn temp_name(name: &str) -> (r: String)
    ensures
        r@ == "."@ + name@ + ".tmp"@,
{
    let mut out = String::from_str(".");
    out.append(name);
    out.append(".tmp");
    out
}

/// The last dot in the first `n` characters, if one stands behind the first
/// character.
pub open spec fn last_dot(name: Seq<char>, n: int) -> Option<int>
    decreases n,
{
    if n <= 1 {
        None
    } else if name[n - 1] == '.' {
        Some(n - 1)
    } else {
        last_dot(name, n - 1)
    }
}

/// A file name without its extension. A dot in front begins no extension.
pub open spec fn stem(name: Seq<char>) -> Seq<char> {
    match last_dot(name, name.len() as int) {
        Some(i) => name.subrange(0, i),
        None => name,
    }
}

/// Name of the copy that keeps the text in memory where the file has changed on
/// disk.
pub fn conflict_copy_name(name: &str) -> (r: String)
    ensures
        r@ == stem(name@) + ".conflict.jot"@,
{
    let cs = text::chars_of(name);
    let mut n: usize = cs.len();
    while n > 1 && cs[n - 1] != '.'
        invariant
            n <= cs.len(),
            cs@ == name@,
            last_dot(name@, n as int) == last_dot(name@, name@.len() as int),
        decreases n,
    {
        n -= 1;
    }
    let mut out = if n > 1 {
        name.substring_char(0, n - 1).to_owned()
    } else {
        name.to_owned()
    };
    out.append(".conflict.jot");
    out
}

// ---------------------------------------------------------------------------
// Line endings
// ---------------------------------------------------------------------------

/// The text uses `\r\n` somewhere.
pub open spec fn has_crlf(content: Seq<char>) -> bool {
    text::contains_seq(encode_utf8(content), encode_utf8("\r\n"@))
}

/// The line ending of a file.
pub open spec fn line_ending(content: Seq<char>) -> Seq<char> {
    if has_crlf(content) {
        "\r\n"@
    } else {
        "\n"@
    }
}

/// Detect the dominant line ending in `content`.
/// Returns `"\r\n"` if any `\r\n` sequence is found, otherwise `"\n"`.
pub fn detect_line_ending(content: &str) -> (r: &'static str)
    ensures
        r@ == line_ending(content@),
{
    if words::contains(content, "\r\n") {
        "\r\n"
    } else {
        "\n"
    }
}

/// `s` from character `i` on, with every line ending replaced by `le`.
pub open spec fn normalised_from(s: Seq<char>, i: int, le: Seq<char>) -> Seq<char>
    decreases s.len() - i,
{
    if i < 0 || i >= s.len() {
        Seq::empty()
    } else if s[i] == '\r' {
        if i + 1 < s.len() && s[i + 1] == '\n' {
            le + normalised_from(s, i + 2, le)
        } else {
            le + normalised_from(s, i + 1, le)
        }
    } else if s[i] == '\n' {
        le + normalised_from(s, i + 1, le)
    } else {
        seq![s[i]] + normalised_from(s, i + 1, le)
    }
}

/// Normalise `\r\n` / `\r` line endings in `text` to `target_le`. Keeps pasted
/// content consistent with whatever the file already uses.
pub fn normalise_line_endings(text: &str, target_le: &str) -> (r: String)
    ensures
        r@ == normalised_from(text@, 0, target_le@),
{
    let cs = text::chars_of(text);
    let mut out = String::new();
    let ghost all = normalised_from(text@, 0, target_le@);
    let mut i: usize = 0;
    proof {
        assert(out@ + all =~= all);
    }
    while i < cs.len()
        invariant
            i <= cs.len(),
            cs@ == text@,
            out@ + normalised_from(text@, i as int, target_le@) == all,
        decreases cs.len() - i,
    {
        let ghost before = out@;
        let ghost rest = normalised_from(text@, i as int, target_le@);
        let c = cs[i];
        if c == '\r' {
            out.append(target_le);
            if i < cs.len() - 1 && cs[i + 1] == '\n' {
                i += 1;
            }
        } else if c == '\n' {
            out.append(target_le);
        } else {
            words::push_char(&mut out, c);
        }
        i += 1;
        proof {
            assert(out@ + normalised_from(text@, i as int, target_le@) =~= before + rest);
        }
    }
    proof {
        assert(out@ + normalised_from(text@, i as int, target_le@) =~= out@);
    }
    out
}

/// A line ending.
pub open spec fn is_line_ending(le: Seq<char>) -> bool {
    le == seq!['\n'] || le == seq!['\r', '\n']
}

/// Normalising twice is normalising once.
pub proof fn law_normalise_idempotent(s: Seq<char>, le: Seq<char>)
    requires
        is_line_ending(le),
    ensures
        normalised_from(normalised_from(s, 0, le), 0, le) == normalised_from(s, 0, le),
{
    lemma_normalised_fixed(s, 0, le);
}

/// Prepending a text that is its own normal form to a normal form.
proof fn lemma_normalised_step(head: Seq<char>, tail: Seq<char>, le: Seq<char>)
    requires
        is_line_ending(le),
        head == le || (head.len() == 1 && head[0] != '\r' && head[0] != '\n'),
        normalised_from(tail, 0, le) == tail,
    ensures
        normalised_from(head + tail, 0, le) == head + tail,
{
    let s = head + tail;
    let n = head.len() as int;
    assert(tail =~= s.subrange(n, s.len() as int));
    lemma_normalised_shift(s, n, tail, 0, le);
    assert(s[0] == head[0]);
    if n == 2 {
        assert(s[1] == head[1]);
        assert(normalised_from(s, 0, le) == le + normalised_from(s, 2, le));
    } else if head == le {
        assert(normalised_from(s, 0, le) == le + normalised_from(s, 1, le));
    } else {
        assert(seq![s[0]] =~= head);
    }
}

/// What stands before does not matter.
proof fn lemma_normalised_shift(s: Seq<char>, n: int, tail: Seq<char>, i: int, le: Seq<char>)
    requires
        0 <= n <= s.len(),
        tail == s.subrange(n, s.len() as int),
        0 <= i,
    ensures
        normalised_from(s, n + i, le) == normalised_from(tail, i, le),
    decreases tail.len() - i,
{
    if i < tail.len() {
        assert(s[n + i] == tail[i]);
        lemma_normalised_shift(s, n, tail, i + 1, le);
        if i + 1 < tail.len() {
            assert(s[n + i + 1] == tail[i + 1]);
            lemma_normalised_shift(s, n, tail, i + 2, le);
        }
    }
}

proof fn lemma_normalised_fixed(s: Seq<char>, i: int, le: Seq<char>)
    requires
        is_line_ending(le),
        0 <= i,
    ensures
        normalised_from(normalised_from(s, i, le), 0, le) == normalised_from(s, i, le),
    decreases s.len() - i,
{
    if i < s.len() {
        if s[i] == '\r' && i + 1 < s.len() && s[i + 1] == '\n' {
            lemma_normalised_fixed(s, i + 2, le);
            lemma_normalised_step(le, normalised_from(s, i + 2, le), le);
        } else if s[i] == '\r' || s[i] == '\n' {
            lemma_normalised_fixed(s, i + 1, le);
            lemma_normalised_step(le, normalised_from(s, i + 1, le), le);
        } else {
            lemma_normalised_fixed(s, i + 1, le);
            lemma_normalised_step(seq![s[i]], normalised_from(s, i + 1, le), le);
        }
    }
}

} // verus!
