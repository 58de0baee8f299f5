//! Undo and redo.

use vstd::prelude::*;
use vstd::utf8::*;

verus! {

/// Edits of one kind in a row share an undo entry.
#[derive(Debug, Clone, Copy, PartialEq, Eq, Structural)]
pub enum BatchKind {
    /// Letters, digits and `_`.
    Word,
    /// Spaces and tabs.
    Space,
    /// Consecutive Backspace presses.
    DeleteBack,
    /// Consecutive Delete presses.
    DeleteFwd,
    /// Several queued events processed in one render cycle (paste).
    Burst,
}

/// Undo entries that are kept.
pub const MAX_ENTRIES: usize = 1000;

/// The text and the cursor before an edit.
pub struct HistoryEntry {
    pub content: String,
    pub cursor_line: usize,
    pub cursor_byte: usize,
}

/// The text and the cursor before an edit.
#[verifier::ext_equal]
pub struct Snap {
    pub bytes: Seq<u8>,
    pub line: int,
    pub byte: int,
}

impl View for HistoryEntry {
    type V = Snap;

    open spec fn view(&self) -> Snap {
        Snap {
            bytes: encode_utf8(self.content@),
            line: self.cursor_line as int,
            byte: self.cursor_byte as int,
        }
    }
}

/// The undo and redo stacks.
pub struct UndoHistory {
    pub undo: Vec<HistoryEntry>,
    pub redo: Vec<HistoryEntry>,
    pub last_batch: Option<BatchKind>,
}

/// The undo and redo stacks, their newest entries last.
#[verifier::ext_equal]
pub struct Stacks {
    pub undo: Seq<Snap>,
    pub redo: Seq<Snap>,
    pub batch: Option<BatchKind>,
}

pub open spec fn snaps(v: Seq<HistoryEntry>) -> Seq<Snap> {
    v.map_values(|e: HistoryEntry| e@)
}

impl View for UndoHistory {
    type V = Stacks;

    open spec fn view(&self) -> Stacks {
        Stacks { undo: snaps(self.undo@), redo: snaps(self.redo@), batch: self.last_batch }
    }
}

/// The newest entries, as many as are kept.
pub open spec fn newest(s: Seq<Snap>) -> Seq<Snap> {
    if s.len() > MAX_ENTRIES {
        s.subrange(s.len() - MAX_ENTRIES, s.len() as int)
    } else {
        s
    }
}

impl Stacks {
    pub open spec fn none() -> Stacks {
        Stacks { undo: Seq::empty(), redo: Seq::empty(), batch: None }
    }

    /// No more entries than are kept, on both stacks together.
    pub open spec fn bounded(self) -> bool {
        self.undo.len() + self.redo.len() <= MAX_ENTRIES
    }

    /// After an edit with an entry of its own: nothing can be redone.
    pub open spec fn pushed(self, s: Snap) -> Stacks {
        Stacks { undo: newest(self.undo.push(s)), redo: Seq::empty(), batch: None }
    }

    /// After an edit of kind `kind`: it has an entry of its own only if the edit
    /// before was of another kind.
    pub open spec fn batched(self, s: Snap, kind: BatchKind) -> Stacks {
        if self.batch == Some(kind) {
            self
        } else {
            Stacks { undo: newest(self.undo.push(s)), redo: Seq::empty(), batch: Some(kind) }
        }
    }

    /// The next edit starts an entry of its own.
    pub open spec fn broken(self) -> Stacks {
        Stacks { batch: None, ..self }
    }

    /// After an undo of the newest entry, with what it replaced.
    pub open spec fn undone(self, current: Snap) -> Stacks {
        if self.undo.len() == 0 {
            self
        } else {
            Stacks { undo: self.undo.drop_last(), redo: self.redo.push(current), batch: None }
        }
    }

    /// After a redo of the newest undone entry, with what it replaced.
    pub open spec fn redone(self, current: Snap) -> Stacks {
        if self.redo.len() == 0 {
            self
        } else {
            Stacks { undo: self.undo.push(current), redo: self.redo.drop_last(), batch: None }
        }
    }
}

impl UndoHistory {
    pub fn new() -> (r: Self)
        ensures
            r@ == Stacks::none(),
    {
        let r = UndoHistory { undo: Vec::new(), redo: Vec::new(), last_batch: None };
        proof {
            assert(r@ =~= Stacks::none());
        }
        r
    }

    /// Always start a new undo entry (non-batchable edit, e.g. Enter).
    pub fn push(&mut self, snap: HistoryEntry)
        ensures
            final(self)@ == old(self)@.pushed(snap@),
    {
        let ghost before = self@;
        self.undo.push(snap);
        proof {
            assert(snaps(self.undo@) =~= before.undo.push(snap@));
        }
        self.trim();
        self.redo.clear();
        self.last_batch = None;
        proof {
            assert(self@ =~= before.pushed(snap@));
        }
    }

    /// Start a new undo entry only when the batch kind changes.
    pub fn push_batch(&mut self, snap: HistoryEntry, kind: BatchKind)
        ensures
            final(self)@ == old(self)@.batched(snap@, kind),
    {
        let same = match self.last_batch {
            Some(k) => k == kind,
            None => false,
        };
        if !same {
            self.push(snap);
        }
        self.last_batch = Some(kind);
    }

    /// Navigation breaks the current batch so the next edit starts fresh.
    pub fn break_batch(&mut self)
        ensures
            final(self)@ == old(self)@.broken(),
    {
        self.last_batch = None;
    }

    pub fn undo(&mut self, current: HistoryEntry) -> (r: Option<HistoryEntry>)
        ensures
            r is Some <==> old(self)@.undo.len() > 0,
            r matches Some(e) ==> e@ == old(self)@.undo.last(),
            final(self)@ == old(self)@.undone(current@),
    {
        let ghost before = self@;
        match self.undo.pop() {
            None => None,
            Some(entry) => {
                self.redo.push(current);
                self.last_batch = None;
                proof {
                    assert(self@ =~= before.undone(current@));
                }
                Some(entry)
            },
        }
    }

    pub fn redo(&mut self, current: HistoryEntry) -> (r: Option<HistoryEntry>)
        ensures
            r is Some <==> old(self)@.redo.len() > 0,
            r matches Some(e) ==> e@ == old(self)@.redo.last(),
            final(self)@ == old(self)@.redone(current@),
    {
        let ghost before = self@;
        match self.redo.pop() {
            None => None,
            Some(entry) => {
                self.undo.push(current);
                self.last_batch = None;
                proof {
                    assert(self@ =~= before.redone(current@));
                }
                Some(entry)
            },
        }
    }

    pub fn clear(&mut self)
        ensures
            final(self)@ == Stacks::none(),
    {
        self.undo.clear();
        self.redo.clear();
        self.last_batch = None;
        proof {
            assert(self@ =~= Stacks::none());
        }
    }

    fn trim(&mut self)
        ensures
            final(self)@ == (Stacks { undo: newest(old(self)@.undo), ..old(self)@ }),
    {
        let ghost all = self@.undo;
        let ghost start = *self;
        proof {
            assert(all.subrange(0, all.len() as int) =~= all);
        }
        while self.undo.len() > MAX_ENTRIES
            invariant
                self.redo == start.redo,
                self.last_batch == start.last_batch,
                self.undo.len() <= all.len(),
                all.len() > MAX_ENTRIES ==> self.undo.len() >= MAX_ENTRIES,
                all.len() <= MAX_ENTRIES ==> self.undo.len() == all.len(),
                snaps(self.undo@) == all.subrange(all.len() - self.undo.len(), all.len() as int),
            decreases self.undo.len(),
        {
            let ghost now = snaps(self.undo@);
            let _oldest = self.undo.remove(0);
            proof {
                assert(snaps(self.undo@) =~= now.subrange(1, now.len() as int));
                assert(snaps(self.undo@) =~= all.subrange(
                    all.len() - self.undo.len(),
                    all.len() as int,
                ));
            }
        }
        proof {
            assert(self@.undo =~= newest(all));
        }
    }
}

// ---------------------------------------------------------------------------
// Laws
// ---------------------------------------------------------------------------

/// A redo after an undo, and an undo after a redo, brings both stacks back, but
/// for the batch, which every undo and redo ends.
pub proof fn law_undo_redo_inverse(h: Stacks, current: Snap)
    ensures
        h.undo.len() > 0 ==> h.undone(current).redone(h.undo.last()) == h.broken(),
        h.redo.len() > 0 ==> h.redone(current).undone(h.redo.last()) == h.broken(),
        h.undo.len() > 0 ==> h.undone(current).redo.last() == current,
        h.redo.len() > 0 ==> h.redone(current).undo.last() == current,
{
    if h.undo.len() > 0 {
        assert(h.undone(current).redone(h.undo.last()) =~= h.broken());
    }
    if h.redo.len() > 0 {
        assert(h.redone(current).undone(h.redo.last()) =~= h.broken());
    }
}

/// No sequence of operations keeps more than the allowed number of entries.
pub proof fn law_history_bounded(h: Stacks, s: Snap, kind: BatchKind)
    requires
        h.bounded(),
    ensures
        Stacks::none().bounded(),
        h.pushed(s).bounded(),
        h.batched(s, kind).bounded(),
        h.broken().bounded(),
        h.undone(s).bounded(),
        h.redone(s).bounded(),
{
}

/// What was pushed last is what an undo gives back.
pub proof fn law_push_then_undo(h: Stacks, s: Snap)
    ensures
        h.pushed(s).undo.len() > 0,
        h.pushed(s).undo.last() == s,
{
}

/// Where all entries are in use, the oldest one goes for the new one, and the others stay
/// in order.
pub proof fn law_oldest_goes(v: Stacks, s: Snap)
    ensures
        v.undo.len() < MAX_ENTRIES ==> v.pushed(s).undo == v.undo.push(s),
        v.undo.len() == MAX_ENTRIES ==> v.pushed(s).undo == v.undo.subrange(
            1,
            v.undo.len() as int,
        ).push(s),
        v.pushed(s).redo.len() == 0,
{
    if v.undo.len() == MAX_ENTRIES {
        assert(v.pushed(s).undo =~= v.undo.subrange(1, v.undo.len() as int).push(s));
    }
}

} // verus!
