//! The note under the cursor.

use vstd::prelude::*;
use vstd::utf8::*;

use crate::editing;
use crate::editing::EditorView;
use crate::editor::Editor;
use crate::index::FileIndex;
use crate::note_laws;
use crate::parser;
use crate::spans::{NoteSpan, Span};
use crate::text;

verus! {

/// Note `i` holds offset `c`. The end of the file belongs to the last note.
pub open spec fn holds(notes: Seq<NoteSpan>, i: int, c: int) -> bool {
    notes[i].span.start <= c && (c < notes[i].span.end || (i == notes.len() - 1 && c
        == notes[i].span.end))
}

/// The first note from `i` on that holds offset `c`.
pub open spec fn note_at(notes: Seq<NoteSpan>, i: int, c: int) -> Option<int>
    decreases notes.len() - i,
{
    if i < 0 || i >= notes.len() {
        None
    } else if holds(notes, i, c) {
        Some(i)
    } else {
        note_at(notes, i + 1, c)
    }
}

/// The body of the note under the cursor; the whole file if there is none.
pub open spec fn body_at(b: Seq<u8>, c: int) -> (int, int) {
    match note_at(parser::notes_of(b), 0, c) {
        Some(i) => (
            parser::notes_of(b)[i].body.start as int,
            parser::notes_of(b)[i].body.end as int,
        ),
        None => (0, b.len() as int),
    }
}

/// What a command works on: the selection, or else the body of the current note.
pub open spec fn target_of(e: EditorView) -> (int, int) {
    match editing::selection(e) {
        Some(r) => r,
        None => body_at(e.bytes, editing::cursor(e)),
    }
}

/// The body of the note under the cursor.
pub fn current_body(editor: &Editor) -> (r: Span)
    requires
        editor.wf(),
    ensures
        (r.start as int, r.end as int) == body_at(editor@.bytes, editing::cursor(editor@)),
        r.lies_in(editor@.bytes),
{
    let c = editor.cursor_abs_pos();
    let n = editor.buffer.len();
    let index = FileIndex::build(&editor.buffer);
    let ghost notes = parser::notes_of(editor@.bytes);
    proof {
        text::lemma_boundary_ends(editor.buffer@);
    }
    let mut i: usize = 0;
    while i < index.result.notes.len()
        invariant
            i <= index.result.notes.len(),
            index.result.notes@ == notes,
            notes == parser::notes_of(editor@.bytes),
            editor@.bytes == encode_utf8(editor.buffer@),
            editor@.bytes.len() <= usize::MAX,
            c == editing::cursor(editor@),
            note_at(notes, i as int, c as int) == note_at(notes, 0, c as int),
        decreases index.result.notes.len() - i,
    {
        let note = index.result.notes[i];
        let last = i == index.result.notes.len() - 1;
        if note.span.start <= c && (c < note.span.end || (last && c == note.span.end)) {
            proof {
                note_laws::law_note_spans_lie_in_file(editor.buffer@, i as int);
            }
            return note.body;
        }
        i += 1;
    }
    Span::new(0, n)
}

/// The selection, or else the body of the current note.
pub fn current_target(editor: &Editor) -> (r: Span)
    requires
        editor.wf(),
    ensures
        (r.start as int, r.end as int) == target_of(editor@),
        r.lies_in(editor@.bytes),
{
    match editor.selection_span() {
        Some(s) => s,
        None => current_body(editor),
    }
}

/// The cursor always lies in a note: the notes cover the file. On a delimiter line it
/// lies in the note that the line opens.
pub proof fn law_cursor_in_a_note(b: Seq<u8>, c: int)
    requires
        b.len() <= usize::MAX,
        0 <= c <= b.len(),
    ensures
        ({
            let notes = parser::notes_of(b);
            &&& note_at(notes, 0, c) matches Some(i)
            &&& 0 <= i < notes.len()
            &&& notes[i].span.start <= c <= notes[i].span.end
            &&& c == notes[i].span.end ==> c == b.len() && i == notes.len() - 1
        }),
{
    note_laws::law_notes_tile(b);
    let notes = parser::notes_of(b);
    lemma_some_note(notes, 0, c);
}

/// What a command works on without a selection: the body of the note whose bytes the cursor
/// is among.
#[verifier::spinoff_prover]
pub proof fn law_body_of_note(s: Seq<char>, c: int, i: int)
    requires
        encode_utf8(s).len() <= usize::MAX,
        0 <= i < parser::notes_of(encode_utf8(s)).len(),
        parser::notes_of(encode_utf8(s))[i].span.start <= c < parser::notes_of(
            encode_utf8(s),
        )[i].span.end,
    ensures
        body_at(encode_utf8(s), c) == (
            parser::notes_of(encode_utf8(s))[i].body.start as int,
            parser::notes_of(encode_utf8(s))[i].body.end as int,
        ),
{
    let notes = parser::notes_of(encode_utf8(s));
    assert forall|k: int| 0 <= k < notes.len() implies (#[trigger] notes[k]).span.start
        <= notes[k].span.end by {
        note_laws::law_note_spans_lie_in_file(s, k);
    }
    assert forall|k: int| 0 <= k < notes.len() - 1 implies (#[trigger] notes[k]).span.end == notes[k
        + 1].span.start by {
        note_laws::law_notes_tile(encode_utf8(s));
    }
    lemma_only_note(notes, 0, i, c);
}

proof fn lemma_only_note(notes: Seq<NoteSpan>, j: int, i: int, c: int)
    requires
        0 <= j <= i < notes.len(),
        notes[i].span.start <= c < notes[i].span.end,
        forall|k: int|
            0 <= k < notes.len() ==> (#[trigger] notes[k]).span.start <= notes[k].span.end,
        forall|k: int|
            0 <= k < notes.len() - 1 ==> (#[trigger] notes[k]).span.end == notes[k + 1].span.start,
    ensures
        note_at(notes, j, c) == Some(i),
    decreases i - j,
{
    if j < i {
        lemma_spans_grow(notes, j, i);
        lemma_only_note(notes, j + 1, i, c);
    }
}

proof fn lemma_spans_grow(notes: Seq<NoteSpan>, j: int, i: int)
    requires
        0 <= j < i < notes.len(),
        forall|k: int|
            0 <= k < notes.len() ==> (#[trigger] notes[k]).span.start <= notes[k].span.end,
        forall|k: int|
            0 <= k < notes.len() - 1 ==> (#[trigger] notes[k]).span.end == notes[k + 1].span.start,
    ensures
        notes[j].span.end <= notes[i].span.start,
    decreases i - j,
{
    assert(notes[j].span.end == notes[j + 1].span.start);
    if j + 1 < i {
        lemma_spans_grow(notes, j + 1, i);
        assert(notes[j + 1].span.start <= notes[j + 1].span.end);
    }
}

proof fn lemma_some_note(notes: Seq<NoteSpan>, i: int, c: int)
    requires
        0 <= i < notes.len(),
        notes[i].span.start <= c,
        c <= notes.last().span.end,
        forall|k: int|
            0 <= k < notes.len() - 1 ==> (#[trigger] notes[k]).span.end == notes[k + 1].span.start,
    ensures
        note_at(notes, i, c) matches Some(k) && i <= k < notes.len() && holds(notes, k, c),
    decreases notes.len() - i,
{
    if !holds(notes, i, c) {
        lemma_some_note(notes, i + 1, c);
    }
}

} // verus!
