//! What the editor does, as functions from state to state.

use vstd::prelude::*;
use vstd::utf8::*;

use crate::delimiter;
use crate::highlight;
use crate::history::{BatchKind, Snap, Stacks};
use crate::persistence;
use crate::positions;
use crate::spans;
use crate::text;
use crate::unicode;
use crate::wrap;

verus! {

/// The state of the editor.
#[verifier::ext_equal]
pub struct EditorView {
    /// The text of the file.
    pub bytes: Seq<u8>,
    /// Line of the cursor.
    pub line: int,
    /// Byte of the cursor, counted from the start of its line.
    pub byte: int,
    /// The visual column that moving up and down aims at.
    pub col: int,
    /// The first line shown.
    pub scroll: int,
    /// Rows and cells of the text area.
    pub height: int,
    pub width: int,
    pub stacks: Stacks,
    /// Where the selection was begun: line and byte.
    pub anchor: Option<(int, int)>,
    pub wrap: bool,
    /// Several queued events are being processed at once.
    pub burst: bool,
    pub dirty: bool,
    /// Hash of the text as it is on disk.
    pub saved: Option<u64>,
}

pub open spec fn snap_ok(s: Snap) -> bool {
    valid_utf8(s.bytes) && positions::place_ok(s.bytes, s.line, s.byte)
}

pub open spec fn snaps_ok(s: Seq<Snap>) -> bool {
    forall|i: int| 0 <= i < s.len() ==> snap_ok(#[trigger] s[i])
}

/// The text is text, the cursor is a place in it, and so it was in every state
/// that can be brought back.
pub open spec fn state_ok(v: EditorView) -> bool {
    &&& valid_utf8(v.bytes)
    &&& positions::place_ok(v.bytes, v.line, v.byte)
    &&& snaps_ok(v.stacks.undo)
    &&& snaps_ok(v.stacks.redo)
    &&& v.stacks.bounded()
}

/// Number of lines.
pub open spec fn line_count(v: EditorView) -> int {
    spans::line_starts(v.bytes).len() as int
}

/// The offset of the cursor.
pub open spec fn cursor(v: EditorView) -> int {
    spans::line_starts(v.bytes)[v.line] + v.byte
}

/// The text of the cursor's line, without its newline.
pub open spec fn cursor_line(v: EditorView) -> Seq<char> {
    wrap::line_chars(v.bytes, v.line)
}

pub open spec fn snap_of(v: EditorView) -> Snap {
    Snap { bytes: v.bytes, line: v.line, byte: v.byte }
}

// ---------------------------------------------------------------------------
// Columns and rows
// ---------------------------------------------------------------------------

/// The rows of a line at the given width, as byte ranges.
pub open spec fn byte_rows(content: Seq<char>, width: int) -> Seq<(int, int)> {
    wrap::rows(content, width).map_values(
        |r: (int, int)| (text::byte_offset(content, r.0), text::byte_offset(content, r.1)),
    )
}

/// The first row from `k` on that holds byte `byte`, ends included.
pub open spec fn row_holding(rows: Seq<(int, int)>, k: int, byte: int) -> Option<int>
    decreases rows.len() - k,
{
    if k < 0 || k >= rows.len() {
        None
    } else if rows[k].0 <= byte <= rows[k].1 {
        Some(k)
    } else {
        row_holding(rows, k + 1, byte)
    }
}

/// The row of a line that holds byte `byte`; the last row for bytes that none
/// holds.
pub open spec fn row_of(rows: Seq<(int, int)>, byte: int) -> int {
    match row_holding(rows, 0, byte) {
        Some(k) => k,
        None => rows.len() - 1,
    }
}

/// Width of a row.
pub open spec fn row_width(v: EditorView) -> int {
    if v.width > 1 {
        v.width
    } else {
        1
    }
}

/// The piece of a line that a row shows.
pub open spec fn row_text(content: Seq<char>, row: (int, int)) -> Seq<char> {
    decode_utf8(encode_utf8(content).subrange(row.0, row.1))
}

/// The visual column of the cursor in its line.
pub open spec fn line_column(v: EditorView) -> int {
    wrap::column_of(decode_utf8(wrap::line_of(v.bytes, v.line)), v.byte)
}

/// The visual column of the cursor, in its row where lines are wrapped.
pub open spec fn column(v: EditorView) -> int {
    if v.wrap {
        let content = cursor_line(v);
        let rows = byte_rows(content, row_width(v));
        let row = match row_holding(rows, 0, v.byte) {
            Some(k) => rows[k],
            None => (0, encode_utf8(content).len() as int),
        };
        wrap::column_of(
            row_text(content, row),
            if v.byte > row.0 {
                v.byte - row.0
            } else {
                0
            },
        )
    } else {
        line_column(v)
    }
}

/// Moving up and down aims at the cursor's column from now on.
pub open spec fn with_column(v: EditorView) -> EditorView {
    EditorView { col: column(v), ..v }
}

/// The byte of a line's text at the visual column `col`.
pub open spec fn byte_at_column(line: Seq<char>, col: int) -> int {
    let content = wrap::content_chars(line);
    text::byte_offset(content, wrap::fitting(content, 0, col))
}

/// The cursor at the wanted column of its line.
pub open spec fn at_column(v: EditorView) -> EditorView {
    EditorView {
        byte: byte_at_column(decode_utf8(wrap::line_of(v.bytes, v.line)), v.col),
        ..v
    }
}

// ---------------------------------------------------------------------------
// Scrolling
// ---------------------------------------------------------------------------

/// Rows that are kept free below the cursor.
pub const MARGIN: usize = 3;

/// Rows that the lines from `s` up to `l` take.
pub open spec fn rows_between(b: Seq<u8>, width: int, s: int, l: int) -> int
    decreases l - s,
{
    if s >= l {
        0
    } else {
        wrap::rows(wrap::line_chars(b, s), width).len() + rows_between(b, width, s + 1, l)
    }
}

/// The row of the cursor where line `s` is the first one shown.
pub open spec fn cursor_row(v: EditorView, s: int) -> int {
    rows_between(v.bytes, row_width(v), s, v.line) + row_of(
        byte_rows(cursor_line(v), row_width(v)),
        v.byte,
    )
}

/// The first line shown, from `s` on, with which the cursor's row is in view.
pub open spec fn first_shown(v: EditorView, s: int) -> int
    decreases v.line - s,
{
    if s < v.line && v.height > MARGIN && cursor_row(v, s) + MARGIN >= v.height {
        first_shown(v, s + 1)
    } else {
        s
    }
}

/// The first line shown so that the cursor is in view.
pub open spec fn scroll_for(v: EditorView) -> int {
    let top = if v.line < v.scroll {
        v.line
    } else {
        v.scroll
    };
    if v.wrap {
        first_shown(v, top)
    } else if v.height > MARGIN && v.line + MARGIN >= top + v.height {
        v.line + MARGIN + 1 - v.height
    } else {
        top
    }
}

/// The cursor in view.
pub open spec fn in_view(v: EditorView) -> EditorView {
    EditorView { scroll: scroll_for(v), ..v }
}

/// The view moved down or up by three lines. The cursor stays put.
pub open spec fn wheeled(v: EditorView, down: bool) -> EditorView {
    let last = line_count(v) - 1;
    EditorView {
        scroll: if down {
            if v.scroll + 3 <= last {
                v.scroll + 3
            } else {
                last
            }
        } else if v.scroll > 3 {
            v.scroll - 3
        } else {
            0
        },
        ..v
    }
}

// ---------------------------------------------------------------------------
// Movement
// ---------------------------------------------------------------------------

/// The cursor at byte `byte` of line `line`.
pub open spec fn at(v: EditorView, line: int, byte: int) -> EditorView {
    EditorView { line, byte, ..v }
}

/// The cursor at offset `off`.
pub open spec fn at_offset(v: EditorView, off: int) -> EditorView {
    let line = positions::line_at(v.bytes, off);
    at(v, line, off - spans::line_starts(v.bytes)[line])
}

/// The cursor at offset `off`, in view.
pub open spec fn jumped(v: EditorView, off: int) -> EditorView {
    in_view(with_column(at_offset(v, off)))
}

/// The cursor at offset `off`, whose line is the first one shown.
pub open spec fn on_top(v: EditorView, off: int) -> EditorView {
    EditorView { scroll: positions::line_at(v.bytes, off), ..with_column(at_offset(v, off)) }
}

/// Where the row below or above the cursor's row lies: its line and its bytes.
pub open spec fn next_row(v: EditorView, down: bool) -> Option<(int, (int, int))> {
    let w = row_width(v);
    let rows = byte_rows(cursor_line(v), w);
    let k = row_of(rows, v.byte);
    if down {
        if k + 1 < rows.len() {
            Some((v.line, rows[k + 1]))
        } else if v.line + 1 < line_count(v) {
            Some((v.line + 1, byte_rows(wrap::line_chars(v.bytes, v.line + 1), w)[0]))
        } else {
            None
        }
    } else if k > 0 {
        Some((v.line, rows[k - 1]))
    } else if v.line > 0 {
        Some((v.line - 1, byte_rows(wrap::line_chars(v.bytes, v.line - 1), w).last()))
    } else {
        None
    }
}

/// The cursor one row down or up, at the wanted column; nothing at the edge.
pub open spec fn stepped(v: EditorView, down: bool) -> Option<EditorView> {
    match next_row(v, down) {
        None => None,
        Some((line, row)) => Some(
            at(
                v,
                line,
                row.0 + byte_at_column(row_text(wrap::line_chars(v.bytes, line), row), v.col),
            ),
        ),
    }
}

/// The cursor `n` rows down or up, as far as there are rows.
pub open spec fn steps(v: EditorView, down: bool, n: int) -> EditorView
    decreases n,
{
    if n <= 0 {
        v
    } else {
        match stepped(v, down) {
            None => v,
            Some(w) => steps(w, down, n - 1),
        }
    }
}

/// The cursor `n` lines down (rows, where lines are wrapped).
pub open spec fn moved_down(v: EditorView, n: int) -> EditorView {
    if v.wrap {
        in_view(steps(v, true, n))
    } else {
        let last = line_count(v) - 1;
        in_view(
            at_column(
                EditorView {
                    line: if v.line + n <= last {
                        v.line + n
                    } else {
                        last
                    },
                    ..v
                },
            ),
        )
    }
}

/// The first line shown is at most the cursor's.
pub open spec fn top_in_view(v: EditorView) -> EditorView {
    if v.line < v.scroll {
        EditorView { scroll: v.line, ..v }
    } else {
        v
    }
}

/// The cursor `n` lines up (rows, where lines are wrapped).
pub open spec fn moved_up(v: EditorView, n: int) -> EditorView {
    if v.wrap {
        in_view(steps(v, false, n))
    } else {
        top_in_view(
            at_column(
                EditorView {
                    line: if v.line > n {
                        v.line - n
                    } else {
                        0
                    },
                    ..v
                },
            ),
        )
    }
}

/// The cursor one character to the left, or at the end of the line above.
pub open spec fn moved_left(v: EditorView) -> EditorView {
    if v.byte > 0 {
        at(v, v.line, positions::prev_bound(wrap::line_of(v.bytes, v.line), v.byte))
    } else if v.line > 0 {
        top_in_view(at(v, v.line - 1, positions::line_len(v.bytes, v.line - 1)))
    } else {
        v
    }
}

/// The cursor one character to the right, or at the start of the line below.
pub open spec fn moved_right(v: EditorView) -> EditorView {
    if v.byte < positions::line_len(v.bytes, v.line) {
        at(v, v.line, positions::next_bound(wrap::line_of(v.bytes, v.line), v.byte))
    } else if v.line + 1 < line_count(v) {
        in_view(at(v, v.line + 1, 0))
    } else {
        v
    }
}

/// The first note delimiter below line `l`, or from it on.
pub open spec fn delimiter_from(b: Seq<u8>, l: int) -> Option<int>
    decreases spans::line_starts(b).len() - l,
{
    if l < 0 || l >= spans::line_starts(b).len() {
        None
    } else if highlight::delimiter_line(wrap::line_chars(b, l)) {
        Some(l)
    } else {
        delimiter_from(b, l + 1)
    }
}

/// The last note delimiter above line `l`.
pub open spec fn delimiter_before(b: Seq<u8>, l: int) -> Option<int>
    decreases l,
{
    if l <= 0 {
        None
    } else if highlight::delimiter_line(wrap::line_chars(b, l - 1)) {
        Some(l - 1)
    } else {
        delimiter_before(b, l - 1)
    }
}

// ---------------------------------------------------------------------------
// Selection
// ---------------------------------------------------------------------------

/// The offset of the selection's anchor. A line that is gone counts as the first.
pub open spec fn anchor_offset(v: EditorView, anchor: (int, int)) -> int {
    let starts = spans::line_starts(v.bytes);
    (if 0 <= anchor.0 < starts.len() {
        starts[anchor.0]
    } else {
        0
    }) + anchor.1
}

/// The bytes between the anchor and the cursor. An empty range is no selection,
/// nor is one whose anchor no longer lies between characters of the text.
pub open spec fn selection(v: EditorView) -> Option<(int, int)> {
    match v.anchor {
        None => None,
        Some(a) => {
            let p = anchor_offset(v, a);
            let c = cursor(v);
            if p == c || !text::on_boundary(v.bytes, p) {
                None
            } else if p < c {
                Some((p, c))
            } else {
                Some((c, p))
            }
        },
    }
}

// ---------------------------------------------------------------------------
// Editing
// ---------------------------------------------------------------------------

/// `b` with the bytes `[from, to)` replaced.
pub open spec fn spliced(b: Seq<u8>, from: int, to: int, s: Seq<char>) -> Seq<u8> {
    b.subrange(0, from) + encode_utf8(s) + b.subrange(to, b.len() as int)
}

/// The bytes `[from, to)` replaced. The cursor keeps its line and byte.
pub open spec fn edited(v: EditorView, from: int, to: int, s: Seq<char>) -> EditorView {
    EditorView { bytes: spliced(v.bytes, from, to, s), dirty: true, ..v }
}

/// The cursor at its place, or at the nearest one where the text no longer has it.
pub open spec fn settled(v: EditorView) -> EditorView {
    let (line, byte) = positions::kept_place(v.bytes, v.line, v.byte);
    EditorView { line, byte, ..v }
}

/// An undo entry of its own for what comes next.
pub open spec fn entered(v: EditorView) -> EditorView {
    EditorView { stacks: v.stacks.pushed(snap_of(v)), ..v }
}

/// An undo entry for what comes next, shared by edits of one kind in a row.
pub open spec fn entered_as(v: EditorView, kind: BatchKind) -> EditorView {
    EditorView { stacks: v.stacks.batched(snap_of(v), kind), ..v }
}

/// The kind of an insertion: by its first character.
pub open spec fn batch_kind(s: Seq<char>) -> Option<BatchKind> {
    if s.len() == 0 {
        None
    } else if unicode::letter_or_number(s[0]) || s[0] == '_' {
        Some(BatchKind::Word)
    } else if s[0] == ' ' || s[0] == '\t' {
        Some(BatchKind::Space)
    } else {
        None
    }
}

/// The selection replaced by `s`, as one undo entry; the cursor after it. Without
/// a selection nothing happens.
pub open spec fn replaced(v: EditorView, s: Seq<char>) -> EditorView {
    match selection(v) {
        None => v,
        Some((from, to)) => jumped(
            EditorView { anchor: None, ..edited(entered(v), from, to, s) },
            from + encode_utf8(s).len(),
        ),
    }
}

/// Without a selection, and without one begun.
pub open spec fn unselected(v: EditorView) -> EditorView {
    EditorView { anchor: None, ..v }
}

/// `s` typed at the cursor, or over the selection.
pub open spec fn typed(v: EditorView, s: Seq<char>) -> EditorView {
    if selection(v) is Some {
        replaced(v, s)
    } else {
        let u = unselected(v);
        let w = if v.burst {
            entered_as(u, BatchKind::Burst)
        } else {
            match batch_kind(s) {
                Some(k) => entered_as(u, k),
                None => entered(u),
            }
        };
        let e = edited(w, cursor(v), cursor(v), s);
        with_column(EditorView { byte: v.byte + encode_utf8(s).len(), ..e })
    }
}

/// `s` inserted at the cursor as one undo entry.
pub open spec fn inserted(v: EditorView, s: Seq<char>) -> EditorView {
    jumped(
        edited(entered(unselected(v)), cursor(v), cursor(v), s),
        cursor(v) + encode_utf8(s).len(),
    )
}

/// `s` pasted: over the selection, if there is one.
pub open spec fn pasted(v: EditorView, s: Seq<char>) -> EditorView {
    if selection(v) is Some {
        replaced(v, s)
    } else {
        inserted(v, s)
    }
}

/// The line ending that the text uses.
pub open spec fn newline_of(v: EditorView) -> Seq<char> {
    persistence::line_ending(decode_utf8(v.bytes))
}

/// The cursor at the start of the next line, in view.
pub open spec fn on_next_line(v: EditorView) -> EditorView {
    in_view(EditorView { line: v.line + 1, byte: 0, col: 0, ..v })
}

/// The line broken at the cursor.
pub open spec fn newline_typed(v: EditorView) -> EditorView {
    if selection(v) is Some {
        replaced(v, newline_of(v))
    } else {
        let u = unselected(v);
        let w = if v.burst {
            entered_as(u, BatchKind::Burst)
        } else {
            entered(u)
        };
        on_next_line(edited(w, cursor(v), cursor(v), newline_of(v)))
    }
}

/// The title on a delimiter line.
pub open spec fn bare_title(content: Seq<char>) -> Seq<char> {
    delimiter::header_text(content)
}

/// A delimiter line with neither a date nor a `|`.
pub open spec fn unstamped(content: Seq<char>) -> bool {
    &&& highlight::delimiter_line(content)
    &&& !content.contains('|')
    &&& !delimiter::starts_with_date(bare_title(content))
}

/// The stamped form of a delimiter line.
pub open spec fn stamped(title: Seq<char>, stamp: Seq<char>) -> Seq<char> {
    if title.len() == 0 {
        "=== "@ + stamp
    } else {
        "=== "@ + title + " | "@ + stamp
    }
}

/// The delimiter line under the cursor stamped, and a line begun below it.
pub open spec fn expanded(v: EditorView, stamp: Seq<char>) -> EditorView {
    let content = cursor_line(v);
    let from = spans::line_starts(v.bytes)[v.line];
    on_next_line(
        edited(
            entered(v),
            from,
            from + positions::line_len(v.bytes, v.line),
            stamped(bare_title(content), stamp) + newline_of(v),
        ),
    )
}

/// The character before the cursor deleted, or the line joined to the one above.
pub open spec fn deleted_back(v: EditorView) -> EditorView {
    let starts = spans::line_starts(v.bytes);
    let u = unselected(v);
    if selection(v) is Some {
        replaced(v, Seq::empty())
    } else if v.byte > 0 {
        let prev = positions::prev_bound(wrap::line_of(v.bytes, v.line), v.byte);
        let e = edited(
            entered_as(u, BatchKind::DeleteBack),
            starts[v.line] + prev,
            cursor(v),
            Seq::empty(),
        );
        with_column(EditorView { byte: prev, ..e })
    } else if v.line > 0 {
        let end = positions::line_len(v.bytes, v.line - 1);
        let e = edited(entered(u), starts[v.line - 1] + end, starts[v.line], Seq::empty());
        with_column(top_in_view(at(e, v.line - 1, end)))
    } else {
        u
    }
}

/// The character after the cursor deleted, or the line below joined to this one.
pub open spec fn deleted_forward(v: EditorView) -> EditorView {
    let starts = spans::line_starts(v.bytes);
    let n = positions::line_len(v.bytes, v.line);
    let u = unselected(v);
    if selection(v) is Some {
        replaced(v, Seq::empty())
    } else if v.byte < n {
        with_column(
            edited(
                entered_as(u, BatchKind::DeleteFwd),
                cursor(v),
                starts[v.line] + positions::next_bound(wrap::line_of(v.bytes, v.line), v.byte),
                Seq::empty(),
            ),
        )
    } else if v.line + 1 < line_count(v) {
        let e = edited(entered(u), starts[v.line] + n, starts[v.line + 1], Seq::empty());
        with_column(EditorView { byte: n, ..e })
    } else {
        u
    }
}

// ---------------------------------------------------------------------------
// Undo, redo, reload
// ---------------------------------------------------------------------------

/// The text and the cursor of an earlier state; dirty unless the text is the one
/// on disk.
pub open spec fn restored(v: EditorView, s: Snap) -> EditorView {
    let (line, byte) = positions::nearest_place(s.bytes, s.line, s.byte);
    in_view(
        with_column(
            EditorView {
                bytes: s.bytes,
                line,
                byte,
                dirty: v.saved != Some(persistence::content_hash(s.bytes)),
                ..v
            },
        ),
    )
}

/// The last edit taken back.
pub open spec fn undone(v: EditorView) -> EditorView {
    if v.stacks.undo.len() == 0 {
        v
    } else {
        restored(
            EditorView { stacks: v.stacks.undone(snap_of(v)), ..v },
            v.stacks.undo.last(),
        )
    }
}

/// The last edit taken back made again.
pub open spec fn redone(v: EditorView) -> EditorView {
    if v.stacks.redo.len() == 0 {
        v
    } else {
        restored(
            EditorView { stacks: v.stacks.redone(snap_of(v)), ..v },
            v.stacks.redo.last(),
        )
    }
}

/// The text as it is on disk; what was done before cannot be undone.
pub open spec fn reloaded(v: EditorView, text: Seq<char>) -> EditorView {
    let b = encode_utf8(text);
    let (line, byte) = positions::nearest_place(b, v.line, v.byte);
    with_column(
        EditorView {
            bytes: b,
            line,
            byte,
            dirty: false,
            saved: Some(persistence::content_hash(b)),
            stacks: Stacks::none(),
            ..v
        },
    )
}

/// New text from a background pull: the cursor goes to the start of its line.
pub open spec fn refreshed(v: EditorView, text: Seq<char>) -> EditorView {
    let b = encode_utf8(text);
    let n = spans::line_starts(b).len() as int;
    in_view(
        with_column(
            EditorView {
                bytes: b,
                line: if v.line < n {
                    v.line
                } else {
                    n - 1
                },
                byte: 0,
                saved: Some(persistence::content_hash(b)),
                ..v
            },
        ),
    )
}

/// Another file opened, with the cursor near a remembered place.
pub open spec fn opened(v: EditorView, text: Seq<char>, place: Option<(int, int)>) -> EditorView {
    let b = encode_utf8(text);
    let (line, byte) = match place {
        Some(p) => positions::nearest_place(b, p.0, p.1),
        None => (0, 0),
    };
    in_view(
        with_column(
            EditorView {
                bytes: b,
                line,
                byte,
                scroll: 0,
                dirty: false,
                saved: Some(persistence::content_hash(b)),
                stacks: Stacks::none(),
                ..v
            },
        ),
    )
}

// ---------------------------------------------------------------------------
// Facts
// ---------------------------------------------------------------------------

/// An edit between characters gives text again; what was a boundary before the
/// edit is one, and so are both ends of what was put in.
pub proof fn lemma_spliced(b: Seq<u8>, from: int, to: int, s: Seq<char>)
    requires
        valid_utf8(b),
        0 <= from <= to <= b.len(),
        text::on_boundary(b, from),
        text::on_boundary(b, to),
    ensures
        valid_utf8(spliced(b, from, to, s)),
        text::on_boundary(spliced(b, from, to, s), from),
        text::on_boundary(spliced(b, from, to, s), from + encode_utf8(s).len()),
        forall|p: int|
            0 <= p <= from && text::on_boundary(b, p) ==> #[trigger] text::on_boundary(
                spliced(b, from, to, s),
                p,
            ),
{
    let t = decode_utf8(b);
    decode_utf8_encode_utf8(b);
    text::lemma_boundary_ends(t);
    text::lemma_piece_decodes(t, 0, from);
    text::lemma_piece_decodes(t, to, b.len() as int);
    let x = decode_utf8(b.subrange(0, from));
    let z = decode_utf8(b.subrange(to, b.len() as int));
    text::lemma_encode_concat(x, s);
    text::lemma_encode_concat(x + s, z);
    let all = x + s + z;
    assert(encode_utf8(all) == spliced(b, from, to, s));
    encode_utf8_valid_utf8(all);
    assert(all.subrange(0, x.len() as int) =~= x);
    assert(all.subrange(0, (x + s).len() as int) =~= x + s);
    text::lemma_offset_on_boundary(all, x.len() as int);
    text::lemma_offset_on_boundary(all, (x + s).len() as int);
    assert forall|p: int| 0 <= p <= from && text::on_boundary(b, p) implies
        #[trigger] text::on_boundary(spliced(b, from, to, s), p) by {
        if p < from {
            assert(spliced(b, from, to, s)[p] == b[p]);
        }
    }
}

/// Bytes that are neither a newline nor part of a longer character.
pub open spec fn plain_bytes(b: Seq<u8>, from: int, to: int) -> bool {
    forall|i: int| from <= i < to ==> (#[trigger] b[i]) < 0x80 && b[i] != 10u8
}

/// Two texts with newlines in the same places have the same lines.
pub proof fn lemma_same_lines(b: Seq<u8>, c: Seq<u8>)
    requires
        b.len() == c.len(),
        forall|i: int| 0 <= i < b.len() ==> (#[trigger] b[i] == 10u8 <==> c[i] == 10u8),
    ensures
        spans::line_starts(b) == spans::line_starts(c),
    decreases b.len(),
{
    if b.len() > 0 {
        let x = b.drop_last();
        let y = c.drop_last();
        assert forall|i: int| 0 <= i < x.len() implies (#[trigger] x[i] == 10u8 <==> y[i]
            == 10u8) by {
            assert(x[i] == b[i]);
            assert(y[i] == c[i]);
        }
        lemma_same_lines(x, y);
        assert(b[b.len() - 1] == 10u8 <==> c[b.len() - 1] == 10u8);
    }
}

/// Plain bytes overwritten by as many plain bytes: the lines stay where they are,
/// and every place stays a place.
pub proof fn lemma_overwritten(b: Seq<u8>, from: int, s: Seq<char>)
    requires
        valid_utf8(b),
        0 <= from,
        s.len() > 0,
        from + encode_utf8(s).len() <= b.len(),
        plain_bytes(b, from, from + encode_utf8(s).len()),
        plain_bytes(encode_utf8(s), 0, encode_utf8(s).len() as int),
    ensures
        spans::line_starts(spliced(b, from, from + encode_utf8(s).len(), s)) == spans::line_starts(
            b,
        ),
        text::on_boundary(b, from),
        text::on_boundary(b, from + encode_utf8(s).len()),
        valid_utf8(spliced(b, from, from + encode_utf8(s).len(), s)),
        forall|line: int, byte: int|
            positions::place_ok(b, line, byte) ==> #[trigger] positions::place_ok(
                spliced(b, from, from + encode_utf8(s).len(), s),
                line,
                byte,
            ),
{
    let e = encode_utf8(s);
    let to = from + e.len();
    let c = spliced(b, from, to, s);
    text::lemma_byte_offset_monotone(s, 0, s.len() as int);
    text::lemma_byte_offset_ends(s);
    assert(b[from] < 0x80);
    assert(b[to - 1] < 0x80);
    text::lemma_after_ascii(b, from);
    text::lemma_after_ascii(b, to - 1);
    lemma_spliced(b, from, to, s);
    assert forall|i: int| 0 <= i < b.len() implies (#[trigger] b[i] == 10u8 <==> c[i] == 10u8) by {
        if from <= i < to {
            assert(c[i] == e[i - from]);
            assert(e[i - from] != 10u8);
        } else {
            assert(c[i] == b[i]);
        }
    }
    lemma_same_lines(b, c);
    assert forall|line: int, byte: int| positions::place_ok(b, line, byte) implies
        #[trigger] positions::place_ok(c, line, byte) by {
        let p = spans::line_starts(b)[line] + byte;
        if from <= p < to {
            assert(c[p] == e[p - from]);
            assert(e[p - from] < 0x80);
            text::lemma_after_ascii(c, p);
        } else if p < b.len() {
            assert(c[p] == b[p]);
        }
    }
}

/// The rows of a line lie in it, between characters.
pub proof fn lemma_byte_rows(content: Seq<char>, width: int)
    requires
        width >= 0,
    ensures
        byte_rows(content, width).len() >= 1,
        byte_rows(content, width).len() == wrap::rows(content, width).len(),
        forall|k: int|
            0 <= k < byte_rows(content, width).len() ==> 0 <= (#[trigger] byte_rows(
                content,
                width,
            )[k]).0 <= byte_rows(content, width)[k].1 <= encode_utf8(content).len()
                && text::on_boundary(encode_utf8(content), byte_rows(content, width)[k].0)
                && text::on_boundary(encode_utf8(content), byte_rows(content, width)[k].1),
{
    wrap::law_wrap_keeps_text(content, width);
    let r = wrap::rows(content, width);
    let rows = byte_rows(content, width);
    assert forall|k: int| 0 <= k < rows.len() implies 0 <= (#[trigger] rows[k]).0 <= rows[k].1
        <= encode_utf8(content).len() && text::on_boundary(encode_utf8(content), rows[k].0)
        && text::on_boundary(encode_utf8(content), rows[k].1) by {
        assert(0 <= r[k].0 <= r[k].1 <= content.len());
        text::lemma_byte_subrange(content, r[k].0, r[k].1);
        text::lemma_offset_on_boundary(content, r[k].0);
        text::lemma_offset_on_boundary(content, r[k].1);
    }
}

pub proof fn lemma_row_holding(rows: Seq<(int, int)>, k: int, byte: int)
    requires
        0 <= k,
    ensures
        row_holding(rows, k, byte) matches Some(i) ==> k <= i < rows.len() && rows[i].0 <= byte
            <= rows[i].1,
    decreases rows.len() - k,
{
    if k < rows.len() && !(rows[k].0 <= byte <= rows[k].1) {
        lemma_row_holding(rows, k + 1, byte);
    }
}

/// The row of a byte is one of the rows.
pub proof fn lemma_row_of(rows: Seq<(int, int)>, byte: int)
    requires
        rows.len() >= 1,
    ensures
        0 <= row_of(rows, byte) < rows.len(),
{
    lemma_row_holding(rows, 0, byte);
}

/// The byte at a column lies in the line's text, between characters.
pub proof fn lemma_byte_at_column(line: Seq<char>, col: int)
    ensures
        0 <= byte_at_column(line, col) <= text::content_len(encode_utf8(line)),
        byte_at_column(line, col) <= encode_utf8(line).len(),
        text::on_boundary(encode_utf8(line), byte_at_column(line, col)),
{
    let b = encode_utf8(line);
    encode_utf8_valid_utf8(line);
    text::lemma_content_len(b);
    text::lemma_boundary_ends(line);
    let n = text::content_len(b);
    if n < b.len() {
        assert(text::is_newline(b[n]));
    }
    text::lemma_piece_decodes(line, 0, n);
    let content = wrap::content_chars(line);
    let k = wrap::fitting(content, 0, col);
    wrap::lemma_fitting(content, 0, col);
    text::lemma_byte_offset_monotone(content, k, content.len() as int);
    text::lemma_offset_on_boundary(content, k);
    let o = text::byte_offset(content, k);
    if o < n {
        assert(encode_utf8(content)[o] == b[o]);
    }
}

/// A place at the start of a line that exists.
pub proof fn lemma_line_start_ok(b: Seq<u8>, l: int)
    requires
        valid_utf8(b),
        0 <= l < spans::line_starts(b).len(),
    ensures
        positions::place_ok(b, l, 0),
{
    positions::lemma_line_end_ok(b, l);
}

/// The place of an offset between characters.
pub proof fn lemma_at_offset(b: Seq<u8>, off: int)
    requires
        text::on_boundary(b, off),
        0 <= off <= b.len(),
    ensures
        positions::place_ok(
            b,
            positions::line_at(b, off),
            off - spans::line_starts(b)[positions::line_at(b, off)],
        ),
{
    positions::lemma_line_at(b, off);
}

/// The states that edits leave behind are states.
pub proof fn lemma_entered(v: EditorView, kind: BatchKind)
    requires
        state_ok(v),
    ensures
        state_ok(entered(v)),
        state_ok(entered_as(v, kind)),
{
    let s = v.stacks.undo.push(snap_of(v));
    assert(snap_ok(snap_of(v)));
    assert(snaps_ok(s));
}

/// What holds of the row that the cursor steps to.
pub proof fn lemma_stepped(v: EditorView, down: bool)
    requires
        state_ok(v),
    ensures
        stepped(v, down) matches Some(w) ==> state_ok(w),
        next_row(v, down) matches Some((line, row)) ==> 0 <= line < line_count(v) && 0 <= row.0
            <= row.1 <= encode_utf8(wrap::line_chars(v.bytes, line)).len() && text::on_boundary(
            encode_utf8(wrap::line_chars(v.bytes, line)),
            row.0,
        ) && text::on_boundary(encode_utf8(wrap::line_chars(v.bytes, line)), row.1),
{
    let w = row_width(v);
    let rows = byte_rows(cursor_line(v), w);
    lemma_byte_rows(cursor_line(v), w);
    lemma_row_of(rows, v.byte);
    if v.line + 1 < line_count(v) {
        lemma_byte_rows(wrap::line_chars(v.bytes, v.line + 1), w);
    }
    if v.line > 0 {
        let up = wrap::line_chars(v.bytes, v.line - 1);
        lemma_byte_rows(up, w);
        assert(byte_rows(up, w).last() == byte_rows(up, w)[byte_rows(up, w).len() - 1]);
    }
    if let Some((line, row)) = next_row(v, down) {
        let content = wrap::line_chars(v.bytes, line);
        let piece = row_text(content, row);
        text::lemma_piece_decodes(content, row.0, row.1);
        lemma_byte_at_column(piece, v.col);
        let byte = row.0 + byte_at_column(piece, v.col);
        lemma_row_place(v.bytes, line, row, byte_at_column(piece, v.col));
    }
}

/// A boundary of a row is a place of the file.
pub proof fn lemma_row_place(b: Seq<u8>, line: int, row: (int, int), i: int)
    requires
        valid_utf8(b),
        0 <= line < spans::line_starts(b).len(),
        0 <= row.0 <= row.1 <= encode_utf8(wrap::line_chars(b, line)).len(),
        text::on_boundary(encode_utf8(wrap::line_chars(b, line)), row.0),
        text::on_boundary(encode_utf8(wrap::line_chars(b, line)), row.1),
        0 <= i <= row.1 - row.0,
        text::on_boundary(encode_utf8(wrap::line_chars(b, line)).subrange(row.0, row.1), i),
    ensures
        positions::place_ok(b, line, row.0 + i),
{
    wrap::lemma_line_valid(b, line);
    let content = encode_utf8(wrap::line_chars(b, line));
    let full = wrap::line_of(b, line);
    text::lemma_boundary_piece(content, row.0, row.1, i);
    lemma_content_boundary(b, line, row.0 + i);
}

/// A boundary of a line's text is a place of the file.
pub proof fn lemma_content_boundary(b: Seq<u8>, line: int, i: int)
    requires
        valid_utf8(b),
        0 <= line < spans::line_starts(b).len(),
        0 <= i <= encode_utf8(wrap::line_chars(b, line)).len(),
        text::on_boundary(encode_utf8(wrap::line_chars(b, line)), i),
    ensures
        positions::place_ok(b, line, i),
{
    wrap::lemma_line_valid(b, line);
    let content = encode_utf8(wrap::line_chars(b, line));
    let full = wrap::line_of(b, line);
    positions::lemma_line_end_ok(b, line);
    if i < content.len() {
        assert(content[i] == full[i]);
        positions::lemma_line_boundary(b, line, i);
    }
}

} // verus!
