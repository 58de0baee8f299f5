//! What is remembered between sessions: the last AI prompt and, per file, where
//! the cursor was.

use vstd::prelude::*;

use crate::paths;
use crate::text;

verus! {

/// Cursor positions that are kept.
pub const MAX_CURSORS: usize = 100;

/// The cursor position in a file.
pub struct CursorRecord {
    pub path: String,
    pub line: usize,
    pub byte: usize,
}

pub struct AppState {
    pub last_ai_prompt: Option<String>,
    pub cursor: Vec<CursorRecord>,
}

#[verifier::ext_equal]
pub struct CursorView {
    pub path: Seq<char>,
    pub line: int,
    pub byte: int,
}

impl View for CursorRecord {
    type V = CursorView;

    open spec fn view(&self) -> CursorView {
        CursorView { path: self.path@, line: self.line as int, byte: self.byte as int }
    }
}

pub open spec fn records(v: Seq<CursorRecord>) -> Seq<CursorView> {
    v.map_values(|r: CursorRecord| r@)
}

/// The state file, in the platform's directory for settings.
pub fn state_path(base: Option<&str>) -> (r: Option<String>)
    ensures
        match paths::dir_view(base) {
            Some(b) => r is Some && r->Some_0@ == paths::inside(b, "jotstash/state.toml"@),
            None => r is None,
        },
{
    match base {
        Some(b) => Some(paths::join(b, "jotstash/state.toml")),
        None => None,
    }
}

impl Default for AppState {
    fn default() -> (r: Self)
        ensures
            r.last_ai_prompt is None,
            r.cursor.len() == 0,
    {
        AppState { last_ai_prompt: None, cursor: Vec::new() }
    }
}

/// The first record of a file from `i` on.
pub open spec fn record_of(rs: Seq<CursorView>, i: int, path: Seq<char>) -> Option<int>
    decreases rs.len() - i,
{
    if i < 0 || i >= rs.len() {
        None
    } else if rs[i].path == path {
        Some(i)
    } else {
        record_of(rs, i + 1, path)
    }
}

/// Where the cursor was in a file.
pub open spec fn place_in(rs: Seq<CursorView>, path: Seq<char>) -> Option<(int, int)> {
    match record_of(rs, 0, path) {
        Some(i) => Some((rs[i].line, rs[i].byte)),
        None => None,
    }
}

/// The newest records, as many as are kept.
pub open spec fn newest(rs: Seq<CursorView>) -> Seq<CursorView> {
    if rs.len() > MAX_CURSORS {
        rs.subrange(rs.len() - MAX_CURSORS, rs.len() as int)
    } else {
        rs
    }
}

/// The records with the cursor of a file: its record is updated where it has one.
pub open spec fn recorded(rs: Seq<CursorView>, c: CursorView) -> Seq<CursorView> {
    newest(
        match record_of(rs, 0, c.path) {
            Some(i) => rs.update(i, c),
            None => rs.push(c),
        },
    )
}

impl AppState {
    fn find(&self, path: &str) -> (r: Option<usize>)
        ensures
            match (r, record_of(records(self.cursor@), 0, path@)) {
                (Some(a), Some(b)) => a == b && a < self.cursor.len() && self.cursor@[a as int]@.path
                    == path@,
                (None, None) => true,
                _ => false,
            },
    {
        let mut i: usize = 0;
        while i < self.cursor.len()
            invariant
                i <= self.cursor.len(),
                record_of(records(self.cursor@), i as int, path@) == record_of(
                    records(self.cursor@),
                    0,
                    path@,
                ),
            decreases self.cursor.len() - i,
        {
            proof {
                assert(records(self.cursor@)[i as int] == self.cursor@[i as int]@);
            }
            if text::same(self.cursor[i].path.as_str(), path) {
                return Some(i);
            }
            i += 1;
        }
        None
    }

    /// Where the cursor was in the file at `path`: line and byte.
    pub fn cursor_for(&self, path: &str) -> (r: Option<(usize, usize)>)
        ensures
            match (r, place_in(records(self.cursor@), path@)) {
                (Some(a), Some(b)) => (a.0 as int, a.1 as int) == b,
                (None, None) => true,
                _ => false,
            },
    {
        match self.find(path) {
            Some(i) => {
                proof {
                    assert(records(self.cursor@)[i as int] == self.cursor@[i as int]@);
                }
                Some((self.cursor[i].line, self.cursor[i].byte))
            },
            None => None,
        }
    }

    /// Record the cursor position for a file.
    pub fn save_cursor(&mut self, path: &str, line: usize, byte: usize)
        ensures
            records(final(self).cursor@) == recorded(
                records(old(self).cursor@),
                (CursorView { path: path@, line: line as int, byte: byte as int }),
            ),
            final(self).last_ai_prompt == old(self).last_ai_prompt,
    {
        let ghost before = records(self.cursor@);
        let ghost c = CursorView { path: path@, line: line as int, byte: byte as int };
        let rec = CursorRecord { path: path.to_owned(), line, byte };
        match self.find(path) {
            Some(i) => {
                self.cursor.set(i, rec);
                proof {
                    assert(records(self.cursor@) =~= before.update(i as int, c));
                }
            },
            None => {
                self.cursor.push(rec);
                proof {
                    assert(records(self.cursor@) =~= before.push(c));
                }
            },
        }
        let ghost all = records(self.cursor@);
        let ghost prompt = self.last_ai_prompt;
        proof {
            assert(all.subrange(0, all.len() as int) =~= all);
        }
        while self.cursor.len() > MAX_CURSORS
            invariant
                self.last_ai_prompt == prompt,
                self.cursor.len() <= all.len(),
                all.len() > MAX_CURSORS ==> self.cursor.len() >= MAX_CURSORS,
                all.len() <= MAX_CURSORS ==> self.cursor.len() == all.len(),
                records(self.cursor@) == all.subrange(
                    all.len() - self.cursor.len(),
                    all.len() as int,
                ),
            decreases self.cursor.len(),
        {
            let ghost now = records(self.cursor@);
            let _oldest = self.cursor.remove(0);
            proof {
                assert(records(self.cursor@) =~= now.subrange(1, now.len() as int));
                assert(records(self.cursor@) =~= all.subrange(
                    all.len() - self.cursor.len(),
                    all.len() as int,
                ));
            }
        }
        proof {
            assert(records(self.cursor@) =~= newest(all));
        }
    }
}

// ---------------------------------------------------------------------------
// Laws
// ---------------------------------------------------------------------------

/// No more positions are kept than the limit.
pub proof fn law_records_bounded(rs: Seq<CursorView>, c: CursorView)
    ensures
        recorded(rs, c).len() <= MAX_CURSORS,
{
}

/// The position that was recorded is the one that is found.
pub proof fn law_recorded_is_found(rs: Seq<CursorView>, c: CursorView)
    requires
        rs.len() <= MAX_CURSORS,
    ensures
        place_in(recorded(rs, c), c.path) == Some((c.line, c.byte)),
{
    let out = recorded(rs, c);
    lemma_record_of(rs, 0, c.path);
    match record_of(rs, 0, c.path) {
        Some(i) => {
            assert(out == rs.update(i, c));
            lemma_first(out, 0, i, c.path);
        },
        None => {
            let all = rs.push(c);
            let from = all.len() - out.len();
            assert(out =~= all.subrange(from, all.len() as int));
            lemma_first(out, 0, out.len() - 1, c.path);
        },
    }
}

/// Recording the cursor of a file changes the place of no other. Only where all records
/// are in use and the file has none, the oldest one goes.
pub proof fn law_other_records_stay(rs: Seq<CursorView>, c: CursorView, path: Seq<char>)
    requires
        path != c.path,
        rs.len() < MAX_CURSORS || (rs.len() == MAX_CURSORS && (exists|i: int|
            0 <= i < rs.len() && (#[trigger] rs[i]).path == c.path)) || (rs.len() == MAX_CURSORS
            && rs[0].path != path),
    ensures
        place_in(recorded(rs, c), path) == place_in(rs, path),
{
    let out = recorded(rs, c);
    lemma_record_of(rs, 0, c.path);
    lemma_record_of(rs, 0, path);
    let drop: int = if record_of(rs, 0, c.path) is None && rs.len() == MAX_CURSORS {
        1
    } else {
        0
    };
    match record_of(rs, 0, c.path) {
        Some(i) => {
            assert(out == rs.update(i, c));
        },
        None => {
            let all = rs.push(c);
            assert(out =~= all.subrange(drop, all.len() as int));
        },
    }
    assert forall|j: int| 0 <= j < out.len() && j + drop < rs.len() implies ((
    #[trigger] out[j]).path == path <==> rs[j + drop].path == path) && (rs[j + drop].path == path
        ==> out[j] == rs[j + drop]) by {}
    match record_of(rs, 0, path) {
        Some(k) => {
            assert(k >= drop);
            assert forall|j: int| 0 <= j < k - drop implies (#[trigger] out[j]).path != path by {
                assert(rs[j + drop].path != path);
            }
            lemma_first(out, 0, k - drop, path);
        },
        None => {
            lemma_record_of(out, 0, path);
            if let Some(k) = record_of(out, 0, path) {
                if k + drop < rs.len() {
                    assert(rs[k + drop].path != path);
                }
            }
        },
    }
}

proof fn lemma_record_of(rs: Seq<CursorView>, i: int, path: Seq<char>)
    requires
        0 <= i,
    ensures
        match record_of(rs, i, path) {
            Some(k) => i <= k < rs.len() && rs[k].path == path && forall|j: int|
                i <= j < k ==> (#[trigger] rs[j]).path != path,
            None => forall|j: int| i <= j < rs.len() ==> (#[trigger] rs[j]).path != path,
        },
    decreases rs.len() - i,
{
    if i < rs.len() && rs[i].path != path {
        lemma_record_of(rs, i + 1, path);
    }
}

proof fn lemma_first(rs: Seq<CursorView>, i: int, k: int, path: Seq<char>)
    requires
        0 <= i <= k < rs.len(),
        rs[k].path == path,
        forall|j: int| i <= j < k ==> (#[trigger] rs[j]).path != path,
    ensures
        record_of(rs, i, path) == Some(k),
    decreases k - i,
{
    if i < k {
        assert(rs[i].path != path);
        lemma_first(rs, i + 1, k, path);
    }
}

} // verus!
