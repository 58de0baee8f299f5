//! The editor: text, cursor, selection, undo history and view.

use vstd::prelude::*;
use vstd::utf8::*;

use crate::buffer::TextBuffer;
use crate::delimiter;
use crate::editing;
use crate::editing::EditorView;
use crate::highlight;
use crate::history::{BatchKind, HistoryEntry, Stacks, UndoHistory};
use crate::persistence;
use crate::positions;
use crate::spans;
use crate::spans::Span;
use crate::text;
use crate::unicode;
use crate::words;
use crate::wrap;

verus! {

/// The text of a file with everything that editing it takes.
pub struct Editor {
    pub buffer: TextBuffer,
    pub cursor_line: usize,
    /// Byte offset of cursor within the current line.
    pub cursor_byte: usize,
    /// Desired visual column; preserved across up/down for sticky-column behaviour.
    pub preferred_col: usize,
    pub scroll: usize,
    pub viewport_height: usize,
    pub viewport_width: usize,
    pub history: UndoHistory,
    /// `(line, byte)` anchor when a selection is active; `None` when no
    /// selection. Selection range is from this point to the cursor.
    pub selection_anchor: Option<(usize, usize)>,
    pub line_wrap: bool,
    /// True while draining a burst of queued input events (e.g. a paste).
    /// Insert operations during a burst form a single undo entry.
    pub in_burst: bool,
    pub dirty: bool,
    /// Hash of the buffer content as it exists on disk (last open/save/reload).
    /// Used to detect whether undo brought us back to the clean saved state.
    pub saved_hash: Option<u64>,
}

pub open spec fn anchor_view(a: Option<(usize, usize)>) -> Option<(int, int)> {
    match a {
        Some(p) => Some((p.0 as int, p.1 as int)),
        None => None,
    }
}

/// An editor before a file is opened.
pub open spec fn blank_view(line_wrap: bool) -> EditorView {
    EditorView {
        bytes: Seq::empty(),
        line: 0,
        byte: 0,
        col: 0,
        scroll: 0,
        height: 24,
        width: 80,
        stacks: Stacks::none(),
        anchor: None,
        wrap: line_wrap,
        burst: false,
        dirty: false,
        saved: None,
    }
}

impl View for Editor {
    type V = EditorView;

    open spec fn view(&self) -> EditorView {
        EditorView {
            bytes: self.buffer.bytes(),
            line: self.cursor_line as int,
            byte: self.cursor_byte as int,
            col: self.preferred_col as int,
            scroll: self.scroll as int,
            height: self.viewport_height as int,
            width: self.viewport_width as int,
            stacks: self.history@,
            anchor: anchor_view(self.selection_anchor),
            wrap: self.line_wrap,
            burst: self.in_burst,
            dirty: self.dirty,
            saved: self.saved_hash,
        }
    }
}

/// The first row from 0 on that holds `byte`.
fn find_row(content: &str, width: usize, segs: &Vec<(usize, usize)>, byte: usize) -> (r: Option<
    usize,
>)
    requires
        segs.len() == wrap::rows(content@, width as int).len(),
        forall|k: int|
            0 <= k < segs.len() ==> (#[trigger] segs@[k]).0 == text::byte_offset(
                content@,
                wrap::rows(content@, width as int)[k].0,
            ) && segs@[k].1 == text::byte_offset(
                content@,
                wrap::rows(content@, width as int)[k].1,
            ),
    ensures
        match (r, editing::row_holding(editing::byte_rows(content@, width as int), 0, byte as int)) {
            (Some(i), Some(j)) => i == j && i < segs.len(),
            (None, None) => true,
            _ => false,
        },
{
    let ghost rows = editing::byte_rows(content@, width as int);
    let mut k: usize = 0;
    while k < segs.len()
        invariant
            k <= segs.len(),
            rows == editing::byte_rows(content@, width as int),
            rows.len() == segs.len(),
            forall|i: int|
                0 <= i < segs.len() ==> (#[trigger] segs@[i]).0 == rows[i].0 && segs@[i].1
                    == rows[i].1,
            editing::row_holding(rows, k as int, byte as int) == editing::row_holding(
                rows,
                0,
                byte as int,
            ),
        decreases segs.len() - k,
    {
        if segs[k].0 <= byte && byte <= segs[k].1 {
            return Some(k);
        }
        k += 1;
    }
    None
}

/// The row that holds `byte`, or the last one.
fn find_row_or_last(content: &str, width: usize, segs: &Vec<(usize, usize)>, byte: usize) -> (r:
    usize)
    requires
        segs.len() == wrap::rows(content@, width as int).len(),
        forall|k: int|
            0 <= k < segs.len() ==> (#[trigger] segs@[k]).0 == text::byte_offset(
                content@,
                wrap::rows(content@, width as int)[k].0,
            ) && segs@[k].1 == text::byte_offset(
                content@,
                wrap::rows(content@, width as int)[k].1,
            ),
    ensures
        r == editing::row_of(editing::byte_rows(content@, width as int), byte as int),
        r < segs.len(),
{
    proof {
        editing::lemma_byte_rows(content@, width as int);
    }
    match find_row(content, width, segs, byte) {
        Some(k) => k,
        None => segs.len() - 1,
    }
}

/// Determine whether successive insertions of `s` should be batched together
/// for undo purposes. Returns `None` for non-batchable edits (punctuation etc.).
pub fn str_batch_kind(s: &str) -> (r: Option<BatchKind>)
    ensures
        r == editing::batch_kind(s@),
{
    let cs = text::chars_of(s);
    if cs.len() == 0 {
        return None;
    }
    let c = cs[0];
    if unicode::is_letter(c) || unicode::is_number(c) || c == '_' {
        Some(BatchKind::Word)
    } else if c == ' ' || c == '\t' {
        Some(BatchKind::Space)
    } else {
        None
    }
}

impl Editor {
    /// The state is a state of an editor.
    pub open spec fn wf(&self) -> bool {
        self.buffer.wf() && editing::state_ok(self@)
    }

    /// An editor on a text, with the cursor near a remembered place.
    pub fn open(buffer: TextBuffer, place: Option<(usize, usize)>, line_wrap: bool) -> (r: Self)
        requires
            buffer.wf(),
        ensures
            r.wf(),
            r@ == editing::opened(
                blank_view(line_wrap),
                buffer@,
                anchor_view(place),
            ),
    {
        let (line, byte) = match place {
            Some(p) => positions::clamp_place(&buffer, p.0, p.1),
            None => (0, 0),
        };
        let saved = persistence::hash_content(buffer.as_str());
        proof {
            encode_utf8_valid_utf8(buffer@);
            spans::lemma_line_starts(buffer.bytes());
            editing::lemma_line_start_ok(buffer.bytes(), 0);
        }
        let mut e = Editor {
            buffer,
            cursor_line: line,
            cursor_byte: byte,
            preferred_col: 0,
            scroll: 0,
            viewport_height: 24,
            viewport_width: 80,
            history: UndoHistory::new(),
            selection_anchor: None,
            line_wrap,
            in_burst: false,
            dirty: false,
            saved_hash: Some(saved),
        };
        e.update_preferred_col();
        e.scroll_to_cursor();
        e
    }

    // -------------------------------------------------------------------------
    // Where the cursor is
    // -------------------------------------------------------------------------

    pub fn cursor_abs_pos(&self) -> (r: usize)
        requires
            self.wf(),
        ensures
            r == editing::cursor(self@),
            r <= self.buffer.bytes().len(),
    {
        let n = self.buffer.len();
        positions::start_of_line(&self.buffer, self.cursor_line) + self.cursor_byte
    }

    /// The visual column of the cursor in its line.
    pub fn cursor_visual_col(&self) -> (r: usize)
        requires
            self.wf(),
        ensures
            r == editing::line_column(self@),
    {
        let line = positions::text_of_line(&self.buffer, self.cursor_line);
        proof {
            encode_utf8_valid_utf8(self.buffer@);
            if self.cursor_byte < encode_utf8(line@).len() {
                positions::lemma_line_boundary(
                    self.buffer.bytes(),
                    self.cursor_line as int,
                    self.cursor_byte as int,
                );
            }
        }
        wrap::visual_col_for_byte(line, self.cursor_byte)
    }

    /// Width of a row where lines are wrapped.
    fn row_width(&self) -> (r: usize)
        ensures
            r == editing::row_width(self@),
            r >= 1,
    {
        if self.viewport_width > 1 {
            self.viewport_width
        } else {
            1
        }
    }

    fn current_col(&self) -> (r: usize)
        requires
            self.wf(),
        ensures
            r == editing::column(self@),
    {
        if !self.line_wrap {
            return self.cursor_visual_col();
        }
        let content = positions::content_of_line(&self.buffer, self.cursor_line);
        let width = self.row_width();
        let segs = wrap::wrap_segments(content, width);
        let ghost rows = editing::byte_rows(content@, width as int);
        proof {
            editing::lemma_byte_rows(content@, width as int);
            text::lemma_boundary_ends(content@);
            editing::lemma_row_holding(rows, 0, self.cursor_byte as int);
        }
        let found = find_row(content, width, &segs, self.cursor_byte);
        let (from, to): (usize, usize) = match found {
            Some(k) => {
                proof {
                    assert(segs@[k as int].0 == rows[k as int].0);
                    assert(segs@[k as int].1 == rows[k as int].1);
                }
                segs[k]
            },
            None => (0, text::byte_len(content)),
        };
        let piece = text::slice(content, from, to);
        let at = if self.cursor_byte > from {
            self.cursor_byte - from
        } else {
            0
        };
        proof {
            encode_utf8_decode_utf8(piece@);
            encode_utf8_valid_utf8(self.buffer@);
            let b = self.buffer.bytes();
            let l = self.cursor_line as int;
            if at < encode_utf8(piece@).len() {
                wrap::lemma_line_valid(b, l);
                let c = encode_utf8(content@);
                if from <= self.cursor_byte {
                    positions::lemma_line_boundary(b, l, self.cursor_byte as int);
                    assert(wrap::line_of(b, l)[self.cursor_byte as int]
                        == c[self.cursor_byte as int]);
                    text::lemma_boundary_piece(c, from as int, to as int, at as int);
                } else {
                    text::lemma_boundary_piece(c, from as int, to as int, 0);
                }
            }
        }
        wrap::visual_col_for_byte(piece, at)
    }

    pub fn update_preferred_col(&mut self)
        requires
            old(self).wf(),
        ensures
            final(self).wf(),
            final(self)@ == editing::with_column(old(self)@),
    {
        self.preferred_col = self.current_col();
    }

    /// Rows of the lines from `from` up to the cursor's, and of the cursor in its
    /// line.
    fn cursor_visual_row_from(&self, from: usize) -> (r: u128)
        requires
            self.wf(),
            from <= self.cursor_line,
        ensures
            r == editing::cursor_row(self@, from as int),
            r + editing::MARGIN <= u128::MAX,
    {
        let width = self.row_width();
        let n = self.buffer.line_count();
        let mut rows: u128 = 0;
        let mut l: usize = self.cursor_line;
        while l > from
            invariant
                from <= l <= self.cursor_line,
                self.wf(),
                n == self.buffer.lines(),
                width >= 1,
                rows == editing::rows_between(
                    self.buffer.bytes(),
                    width as int,
                    l as int,
                    self.cursor_line as int,
                ),
                rows <= (self.cursor_line - l) * usize::MAX,
            decreases l - from,
        {
            l -= 1;
            let content = positions::content_of_line(&self.buffer, l);
            let segs = wrap::wrap_segments(content, width);
            proof {
                assert((self.cursor_line - l) * usize::MAX == (self.cursor_line - l - 1)
                    * usize::MAX + usize::MAX) by (nonlinear_arith)
                    requires
                        l < self.cursor_line,
                ;
                assert((self.cursor_line - l) * usize::MAX <= usize::MAX * usize::MAX)
                    by (nonlinear_arith)
                    requires
                        0 <= self.cursor_line - l <= usize::MAX,
                ;
                assert(usize::MAX * usize::MAX + usize::MAX <= u128::MAX) by (nonlinear_arith)
                    requires
                        usize::MAX <= 0xffff_ffff_ffff_ffff,
                ;
            }
            rows = rows + segs.len() as u128;
        }
        let content = positions::content_of_line(&self.buffer, self.cursor_line);
        let segs = wrap::wrap_segments(content, width);
        let k = find_row_or_last(content, width, &segs, self.cursor_byte);
        proof {
            assert((self.cursor_line - from) * usize::MAX <= usize::MAX * usize::MAX)
                by (nonlinear_arith)
                requires
                    0 <= self.cursor_line - from <= usize::MAX,
            ;
            assert(usize::MAX * usize::MAX + usize::MAX + 3 <= u128::MAX) by (nonlinear_arith)
                requires
                    usize::MAX <= 0xffff_ffff_ffff_ffff,
            ;
        }
        rows + k as u128
    }

    pub fn scroll_to_cursor(&mut self)
        requires
            old(self).wf(),
        ensures
            final(self).wf(),
            final(self)@ == editing::in_view(old(self)@),
    {
        // Top edge: pull the cursor file line into view.
        let top = if self.cursor_line < self.scroll {
            self.cursor_line
        } else {
            self.scroll
        };
        if !self.line_wrap {
            // Without wrap, every file line is one visual row.
            let line = self.cursor_line as u128;
            let height = self.viewport_height as u128;
            self.scroll =
            if self.viewport_height > editing::MARGIN && line + editing::MARGIN as u128 >= top as u128
                + height {
                (line + editing::MARGIN as u128 + 1 - height) as usize
            } else {
                top
            };
            return;
        }
        let height = self.viewport_height;
        let mut s = top;
        while s < self.cursor_line && height > editing::MARGIN && self.cursor_visual_row_from(s)
            + editing::MARGIN as u128 >= height as u128
            invariant
                self.wf(),
                *self == *old(self),
                height == self.viewport_height,
                s <= self.cursor_line || s == top,
                top <= s,
                editing::first_shown(self@, s as int) == editing::first_shown(self@, top as int),
            decreases self.cursor_line - s,
        {
            s += 1;
        }
        self.scroll = s;
    }

    /// Mouse scroll: the cursor intentionally stays put, like every other
    /// scrollable editor.
    pub fn wheel(&mut self, down: bool)
        requires
            old(self).wf(),
        ensures
            final(self).wf(),
            final(self)@ == editing::wheeled(old(self)@, down),
    {
        let last = self.buffer.line_count() - 1;
        self.scroll =
        if down {
            if last >= 3 && self.scroll <= last - 3 {
                self.scroll + 3
            } else {
                last
            }
        } else if self.scroll > 3 {
            self.scroll - 3
        } else {
            0
        };
    }

    // -------------------------------------------------------------------------
    // Cursor movement
    // -------------------------------------------------------------------------

    /// The cursor at offset `off`, in view.
    pub fn jump_cursor_to(&mut self, off: usize)
        requires
            old(self).wf(),
            off <= old(self).buffer.bytes().len(),
            text::on_boundary(old(self).buffer.bytes(), off as int),
        ensures
            final(self).wf(),
            final(self)@ == editing::jumped(old(self)@, off as int),
    {
        let (line, byte) = positions::locate(&self.buffer, off);
        proof {
            editing::lemma_at_offset(self.buffer.bytes(), off as int);
        }
        self.cursor_line = line;
        self.cursor_byte = byte;
        self.update_preferred_col();
        self.scroll_to_cursor();
    }

    /// The cursor at offset `off`, in view; the wanted column stays.
    pub fn go_to_offset(&mut self, off: usize)
        requires
            old(self).wf(),
            off <= old(self).buffer.bytes().len(),
            text::on_boundary(old(self).buffer.bytes(), off as int),
        ensures
            final(self).wf(),
            final(self)@ == editing::in_view(editing::at_offset(old(self)@, off as int)),
    {
        let (line, byte) = positions::locate(&self.buffer, off);
        proof {
            editing::lemma_at_offset(self.buffer.bytes(), off as int);
        }
        self.cursor_line = line;
        self.cursor_byte = byte;
        self.scroll_to_cursor();
    }

    /// The cursor at a place of the text, as far as it exists, in view.
    pub fn go_to_place(&mut self, line: usize, byte: usize)
        requires
            old(self).wf(),
        ensures
            final(self).wf(),
            final(self)@ == ({
                let (l, b) = positions::kept_place(old(self)@.bytes, line as int, byte as int);
                editing::in_view(editing::with_column(editing::at(old(self)@, l, b)))
            }),
    {
        let (l, b) = positions::keep_place(&self.buffer, line, byte);
        self.cursor_line = l;
        self.cursor_byte = b;
        self.update_preferred_col();
        self.scroll_to_cursor();
    }

    /// The cursor at the start of a line that exists.
    pub fn go_to_line(&mut self, line: usize)
        requires
            old(self).wf(),
            line < editing::line_count(old(self)@),
        ensures
            final(self).wf(),
            final(self)@ == editing::in_view(
                editing::with_column(editing::at(old(self)@, line as int, 0)),
            ),
    {
        proof {
            editing::lemma_line_start_ok(self.buffer.bytes(), line as int);
        }
        self.cursor_line = line;
        self.cursor_byte = 0;
        self.update_preferred_col();
        self.scroll_to_cursor();
    }

    /// The cursor at the start of a line, which becomes the first one shown.
    pub fn show_line_on_top(&mut self, line: usize)
        requires
            old(self).wf(),
            line < editing::line_count(old(self)@),
        ensures
            final(self).wf(),
            final(self)@ == (EditorView {
                scroll: line as int,
                ..editing::with_column(editing::at(old(self)@, line as int, 0))
            }),
    {
        proof {
            editing::lemma_line_start_ok(self.buffer.bytes(), line as int);
        }
        self.cursor_line = line;
        self.cursor_byte = 0;
        self.update_preferred_col();
        self.scroll = line;
    }

    /// The cursor at offset `off`, whose line becomes the first one shown.
    pub fn show_offset_on_top(&mut self, off: usize)
        requires
            old(self).wf(),
            off <= old(self).buffer.bytes().len(),
            text::on_boundary(old(self).buffer.bytes(), off as int),
        ensures
            final(self).wf(),
            final(self)@ == editing::on_top(old(self)@, off as int),
    {
        let (line, byte) = positions::locate(&self.buffer, off);
        proof {
            editing::lemma_at_offset(self.buffer.bytes(), off as int);
        }
        self.cursor_line = line;
        self.cursor_byte = byte;
        self.update_preferred_col();
        self.scroll = line;
    }

    /// The cursor and the view as they were, as far as that place still exists.
    pub fn restore_view(&mut self, line: usize, byte: usize, scroll: usize)
        requires
            old(self).wf(),
        ensures
            final(self).wf(),
            final(self)@ == ({
                let (l, b) = positions::kept_place(old(self)@.bytes, line as int, byte as int);
                editing::with_column(
                    (EditorView { scroll: scroll as int, ..editing::at(old(self)@, l, b) }),
                )
            }),
    {
        let (l, b) = positions::keep_place(&self.buffer, line, byte);
        self.cursor_line = l;
        self.cursor_byte = b;
        self.scroll = scroll;
        self.update_preferred_col();
    }

    fn apply_preferred_col(&mut self)
        requires
            old(self).buffer.wf(),
            old(self).cursor_line < old(self).buffer.lines(),
            editing::snaps_ok(old(self)@.stacks.undo),
            editing::snaps_ok(old(self)@.stacks.redo),
            old(self)@.stacks.bounded(),
        ensures
            final(self).wf(),
            final(self)@ == editing::at_column(old(self)@),
    {
        let line = positions::text_of_line(&self.buffer, self.cursor_line);
        let byte = wrap::byte_for_visual_col(line, self.preferred_col);
        proof {
            let b = self.buffer.bytes();
            encode_utf8_valid_utf8(self.buffer@);
            editing::lemma_byte_at_column(line@, self.preferred_col as int);
            positions::lemma_line_boundary(b, self.cursor_line as int, byte as int);
        }
        self.cursor_byte = byte;
    }

    /// Step the cursor one visual row in wrap mode. Returns `false` if we're
    /// already at the top/bottom edge.
    fn visual_step(&mut self, down: bool) -> (r: bool)
        requires
            old(self).wf(),
        ensures
            final(self).wf(),
            match editing::stepped(old(self)@, down) {
                Some(w) => r && final(self)@ == w,
                None => !r && final(self)@ == old(self)@,
            },
    {
        proof {
            editing::lemma_stepped(self@, down);
        }
        let width = self.row_width();
        let content = positions::content_of_line(&self.buffer, self.cursor_line);
        let segs = wrap::wrap_segments(content, width);
        let k = find_row_or_last(content, width, &segs, self.cursor_byte);
        let ghost rows = editing::byte_rows(content@, width as int);
        let n = self.buffer.line_count();
        let target: Option<(usize, usize, usize)> = if down {
            if k < segs.len() - 1 {
                Some((self.cursor_line, segs[k + 1].0, segs[k + 1].1))
            } else if self.cursor_line < n - 1 {
                let other = positions::content_of_line(&self.buffer, self.cursor_line + 1);
                let theirs = wrap::wrap_segments(other, width);
                proof {
                    editing::lemma_byte_rows(other@, width as int);
                }
                Some((self.cursor_line + 1, theirs[0].0, theirs[0].1))
            } else {
                None
            }
        } else if k > 0 {
            Some((self.cursor_line, segs[k - 1].0, segs[k - 1].1))
        } else if self.cursor_line > 0 {
            let other = positions::content_of_line(&self.buffer, self.cursor_line - 1);
            let theirs = wrap::wrap_segments(other, width);
            proof {
                editing::lemma_byte_rows(other@, width as int);
            }
            let last = theirs.len() - 1;
            Some((self.cursor_line - 1, theirs[last].0, theirs[last].1))
        } else {
            None
        };
        match target {
            None => false,
            Some((line, from, to)) => {
                let row_content = positions::content_of_line(&self.buffer, line);
                let piece = text::slice(row_content, from, to);
                let at = wrap::byte_for_visual_col(piece, self.preferred_col);
                proof {
                    encode_utf8_decode_utf8(piece@);
                    editing::lemma_byte_at_column(piece@, self.preferred_col as int);
                }
                let total = text::byte_len(row_content);
                self.cursor_line = line;
                self.cursor_byte = from + at;
                true
            },
        }
    }

    fn step_rows(&mut self, down: bool, n: usize)
        requires
            old(self).wf(),
        ensures
            final(self).wf(),
            final(self)@ == editing::steps(old(self)@, down, n as int),
        decreases n,
    {
        if n > 0 && self.visual_step(down) {
            self.step_rows(down, n - 1);
        }
    }

    pub fn move_down(&mut self, n: usize)
        requires
            old(self).wf(),
        ensures
            final(self).wf(),
            final(self)@ == editing::moved_down(old(self)@, n as int),
    {
        if self.line_wrap {
            self.step_rows(true, n);
            self.scroll_to_cursor();
            return;
        }
        let last = self.buffer.line_count() - 1;
        self.cursor_line =
        if n <= last - self.cursor_line {
            self.cursor_line + n
        } else {
            last
        };
        self.apply_preferred_col();
        self.scroll_to_cursor();
    }

    pub fn move_up(&mut self, n: usize)
        requires
            old(self).wf(),
        ensures
            final(self).wf(),
            final(self)@ == editing::moved_up(old(self)@, n as int),
    {
        if self.line_wrap {
            self.step_rows(false, n);
            self.scroll_to_cursor();
            return;
        }
        self.cursor_line =
        if self.cursor_line > n {
            self.cursor_line - n
        } else {
            0
        };
        self.apply_preferred_col();
        if self.cursor_line < self.scroll {
            self.scroll = self.cursor_line;
        }
    }

    pub fn move_left(&mut self)
        requires
            old(self).wf(),
        ensures
            final(self).wf(),
            final(self)@ == editing::moved_left(old(self)@),
    {
        let ghost b = self.buffer.bytes();
        proof {
            encode_utf8_valid_utf8(self.buffer@);
        }
        if self.cursor_byte > 0 {
            let line = positions::text_of_line(&self.buffer, self.cursor_line);
            let n = text::byte_len(line);
            let prev = positions::prev_char_boundary(line, self.cursor_byte);
            proof {
                lemma_prev_in_line(b, self.cursor_line as int, self.cursor_byte as int);
            }
            self.cursor_byte = prev;
        } else if self.cursor_line > 0 {
            self.cursor_line = self.cursor_line - 1;
            if self.cursor_line < self.scroll {
                self.scroll = self.cursor_line;
            }
            let line = positions::text_of_line(&self.buffer, self.cursor_line);
            proof {
                positions::lemma_line_end_ok(b, self.cursor_line as int);
            }
            self.cursor_byte = wrap::line_content_len(line);
        }
    }

    pub fn move_right(&mut self)
        requires
            old(self).wf(),
        ensures
            final(self).wf(),
            final(self)@ == editing::moved_right(old(self)@),
    {
        let ghost b = self.buffer.bytes();
        proof {
            encode_utf8_valid_utf8(self.buffer@);
            wrap::lemma_line_valid(b, self.cursor_line as int);
        }
        let line = positions::text_of_line(&self.buffer, self.cursor_line);
        let n = wrap::line_content_len(line);
        if self.cursor_byte < n {
            let next = positions::next_char_boundary(line, self.cursor_byte);
            proof {
                positions::lemma_line_boundary(b, self.cursor_line as int, next as int);
            }
            self.cursor_byte = next;
        } else if self.cursor_line < self.buffer.line_count() - 1 {
            self.cursor_line = self.cursor_line + 1;
            self.cursor_byte = 0;
            proof {
                editing::lemma_line_start_ok(b, self.cursor_line as int);
            }
            self.scroll_to_cursor();
        }
    }

    /// The cursor at the start of its line.
    pub fn move_home(&mut self)
        requires
            old(self).wf(),
        ensures
            final(self).wf(),
            final(self)@ == editing::with_column(editing::at(old(self)@, old(self)@.line, 0)),
    {
        proof {
            encode_utf8_valid_utf8(self.buffer@);
            editing::lemma_line_start_ok(self.buffer.bytes(), self.cursor_line as int);
        }
        self.cursor_byte = 0;
        self.update_preferred_col();
    }

    /// The cursor at the end of its line's text.
    pub fn move_end(&mut self)
        requires
            old(self).wf(),
        ensures
            final(self).wf(),
            final(self)@ == editing::with_column(
                editing::at(
                    old(self)@,
                    old(self)@.line,
                    positions::line_len(old(self)@.bytes, old(self)@.line),
                ),
            ),
    {
        let line = positions::text_of_line(&self.buffer, self.cursor_line);
        proof {
            encode_utf8_valid_utf8(self.buffer@);
            positions::lemma_line_end_ok(self.buffer.bytes(), self.cursor_line as int);
        }
        self.cursor_byte = wrap::line_content_len(line);
        self.update_preferred_col();
    }

    /// Return the line index of the next note delimiter after the cursor.
    pub fn next_note_delimiter(&self) -> (r: Option<usize>)
        requires
            self.wf(),
        ensures
            match (r, editing::delimiter_from(self@.bytes, self@.line + 1)) {
                (Some(a), Some(b)) => a == b && a < editing::line_count(self@),
                (None, None) => true,
                _ => false,
            },
    {
        let n = self.buffer.line_count();
        let mut l: usize = self.cursor_line + 1;
        while l < n
            invariant
                l <= n,
                n == self.buffer.lines(),
                self.wf(),
                editing::delimiter_from(self@.bytes, l as int) == editing::delimiter_from(
                    self@.bytes,
                    self@.line + 1,
                ),
            decreases n - l,
        {
            if highlight::is_delimiter(positions::content_of_line(&self.buffer, l)) {
                return Some(l);
            }
            l += 1;
        }
        None
    }

    /// Return the line index of the nearest note delimiter before the cursor.
    pub fn prev_note_delimiter(&self) -> (r: Option<usize>)
        requires
            self.wf(),
        ensures
            match (r, editing::delimiter_before(self@.bytes, self@.line)) {
                (Some(a), Some(b)) => a == b && a < editing::line_count(self@),
                (None, None) => true,
                _ => false,
            },
    {
        let mut l: usize = self.cursor_line;
        while l > 0
            invariant
                l <= self.cursor_line,
                self.wf(),
                editing::delimiter_before(self@.bytes, l as int) == editing::delimiter_before(
                    self@.bytes,
                    self@.line,
                ),
            decreases l,
        {
            l -= 1;
            if highlight::is_delimiter(positions::content_of_line(&self.buffer, l)) {
                return Some(l);
            }
        }
        None
    }

    // -------------------------------------------------------------------------
    // Selection
    // -------------------------------------------------------------------------

    /// Returns the active selection's absolute byte range (normalised so
    /// `start <= end`), or `None` if no selection is active or it's empty.
    pub fn selection_span(&self) -> (r: Option<Span>)
        requires
            self.wf(),
        ensures
            match (r, editing::selection(self@)) {
                (Some(s), Some((a, b))) => s.start == a && s.end == b && s.lies_in(
                    self.buffer.bytes(),
                ),
                (None, None) => true,
                _ => false,
            },
    {
        match self.selection_anchor {
            None => None,
            Some((al, ab)) => {
                let n = self.buffer.len();
                let start = if al < self.buffer.line_count() {
                    positions::start_of_line(&self.buffer, al)
                } else {
                    0
                };
                if ab > n - start {
                    return None;
                }
                let anchor = start + ab;
                let cursor = self.cursor_abs_pos();
                if anchor == cursor || !text::at_boundary(self.buffer.as_str(), anchor) {
                    None
                } else if anchor < cursor {
                    Some(Span::new(anchor, cursor))
                } else {
                    Some(Span::new(cursor, anchor))
                }
            },
        }
    }

    pub fn clear_selection(&mut self)
        requires
            old(self).wf(),
        ensures
            final(self).wf(),
            final(self)@ == (EditorView { anchor: None, ..old(self)@ }),
    {
        self.selection_anchor = None;
    }

    /// Shift+movement starts a selection at the cursor, unless one is active.
    pub fn begin_selection(&mut self)
        requires
            old(self).wf(),
        ensures
            final(self).wf(),
            final(self)@ == (EditorView {
                anchor: if old(self)@.anchor is Some {
                    old(self)@.anchor
                } else {
                    Some((old(self)@.line, old(self)@.byte))
                },
                ..old(self)@
            }),
    {
        if self.selection_anchor.is_none() {
            self.selection_anchor = Some((self.cursor_line, self.cursor_byte));
        }
    }

    /// The selected text.
    pub fn selected_text(&self) -> (r: Option<String>)
        requires
            self.wf(),
        ensures
            match (r, editing::selection(self@)) {
                (Some(s), Some((a, b))) => encode_utf8(s@) == self@.bytes.subrange(a, b),
                (None, None) => true,
                _ => false,
            },
    {
        match self.selection_span() {
            Some(span) => Some(self.buffer.span_text(span).to_owned()),
            None => None,
        }
    }

    // -------------------------------------------------------------------------
    // Editing operations
    // -------------------------------------------------------------------------

    pub fn make_snapshot(&self) -> (r: HistoryEntry)
        ensures
            r@ == editing::snap_of(self@),
    {
        HistoryEntry {
            content: self.buffer.as_str().to_owned(),
            cursor_line: self.cursor_line,
            cursor_byte: self.cursor_byte,
        }
    }

    fn enter(&mut self)
        requires
            old(self).wf(),
        ensures
            final(self).wf(),
            final(self)@ == editing::entered(old(self)@),
            final(self).buffer == old(self).buffer,
    {
        let snap = self.make_snapshot();
        proof {
            editing::lemma_entered(self@, BatchKind::Word);
        }
        self.history.push(snap);
    }

    fn enter_as(&mut self, kind: BatchKind)
        requires
            old(self).wf(),
        ensures
            final(self).wf(),
            final(self)@ == editing::entered_as(old(self)@, kind),
            final(self).buffer == old(self).buffer,
    {
        let snap = self.make_snapshot();
        proof {
            editing::lemma_entered(self@, kind);
        }
        self.history.push_batch(snap, kind);
    }

    /// Replace the active selection with `replacement` as a single undo entry,
    /// moving the cursor to just after the replacement. No-op if no selection.
    pub fn replace_selection(&mut self, replacement: &str) -> (r: bool)
        requires
            old(self).wf(),
        ensures
            final(self).wf(),
            final(self)@ == editing::replaced(old(self)@, replacement@),
            r == (editing::selection(old(self)@) is Some),
    {
        let span = match self.selection_span() {
            Some(s) => s,
            None => {
                return false;
            },
        };
        self.enter();
        proof {
            encode_utf8_valid_utf8(self.buffer@);
            editing::lemma_spliced(
                self.buffer.bytes(),
                span.start as int,
                span.end as int,
                replacement@,
            );
        }
        self.replace_and_jump(span, replacement);
        true
    }

    /// Replace `span`, drop the selection and put the cursor after the
    /// replacement.
    fn replace_and_jump(&mut self, span: Span, replacement: &str)
        requires
            old(self).wf(),
            span.lies_in(old(self).buffer.bytes()),
        ensures
            final(self).wf(),
            final(self)@ == editing::jumped(
                (EditorView {
                    anchor: None,
                    ..editing::edited(
                        old(self)@,
                        span.start as int,
                        span.end as int,
                        replacement@,
                    )
                }),
                span.start + encode_utf8(replacement@).len(),
            ),
    {
        proof {
            encode_utf8_valid_utf8(self.buffer@);
            editing::lemma_spliced(
                self.buffer.bytes(),
                span.start as int,
                span.end as int,
                replacement@,
            );
        }
        let m = text::byte_len(replacement);
        self.buffer.replace_span(span, replacement);
        let n = self.buffer.len();
        self.selection_anchor = None;
        self.dirty = true;
        let off = span.start + m;
        let (line, byte) = positions::locate(&self.buffer, off);
        proof {
            encode_utf8_valid_utf8(self.buffer@);
            editing::lemma_at_offset(self.buffer.bytes(), off as int);
        }
        self.cursor_line = line;
        self.cursor_byte = byte;
        self.update_preferred_col();
        self.scroll_to_cursor();
    }

    /// Replace a range of the text as a single undo entry, and put the cursor at
    /// its start.
    pub fn replace_range(&mut self, span: Span, replacement: &str)
        requires
            old(self).wf(),
            span.lies_in(old(self)@.bytes),
        ensures
            final(self).wf(),
            final(self)@ == editing::jumped(
                editing::edited(
                    editing::entered(old(self)@),
                    span.start as int,
                    span.end as int,
                    replacement@,
                ),
                span.start as int,
            ),
    {
        self.enter();
        proof {
            encode_utf8_valid_utf8(self.buffer@);
            editing::lemma_spliced(
                self.buffer.bytes(),
                span.start as int,
                span.end as int,
                replacement@,
            );
        }
        self.buffer.replace_span(span, replacement);
        self.dirty = true;
        let (line, byte) = positions::locate(&self.buffer, span.start);
        proof {
            encode_utf8_valid_utf8(self.buffer@);
            editing::lemma_at_offset(self.buffer.bytes(), span.start as int);
        }
        self.cursor_line = line;
        self.cursor_byte = byte;
        self.update_preferred_col();
        self.scroll_to_cursor();
    }

    /// Replace a range as a single undo entry. The cursor keeps its line and byte, as
    /// far as that place still exists.
    pub fn replace_span(&mut self, span: Span, replacement: &str)
        requires
            old(self).wf(),
            span.lies_in(old(self)@.bytes),
        ensures
            final(self).wf(),
            final(self)@ == editing::settled(
                editing::edited(
                    editing::entered(old(self)@),
                    span.start as int,
                    span.end as int,
                    replacement@,
                ),
            ),
    {
        self.enter();
        proof {
            encode_utf8_valid_utf8(self.buffer@);
            editing::lemma_spliced(
                self.buffer.bytes(),
                span.start as int,
                span.end as int,
                replacement@,
            );
        }
        self.buffer.replace_span(span, replacement);
        self.dirty = true;
        let (l, b) = positions::keep_place(&self.buffer, self.cursor_line, self.cursor_byte);
        self.cursor_line = l;
        self.cursor_byte = b;
        proof {
            encode_utf8_valid_utf8(self.buffer@);
        }
    }

    pub fn insert_char(&mut self, ch: char)
        requires
            old(self).wf(),
        ensures
            final(self).wf(),
            final(self)@ == editing::typed(old(self)@, seq![ch]),
    {
        let mut s = String::new();
        words::push_char(&mut s, ch);
        proof {
            assert(s@ =~= seq![ch]);
        }
        self.insert_str(s.as_str());
    }

    pub fn insert_str(&mut self, s: &str)
        requires
            old(self).wf(),
        ensures
            final(self).wf(),
            final(self)@ == editing::typed(old(self)@, s@),
    {
        if self.replace_selection(s) {
            return;
        }
        self.clear_selection();
        if self.in_burst {
            self.enter_as(BatchKind::Burst);
        } else {
            match str_batch_kind(s) {
                Some(k) => {
                    self.enter_as(k);
                },
                None => {
                    self.enter();
                },
            }
        }
        self.insert_on_line(s);
    }

    /// Insert at the cursor, which moves on by as many bytes.
    fn insert_on_line(&mut self, s: &str)
        requires
            old(self).wf(),
        ensures
            final(self).wf(),
            final(self)@ == ({
                let v = old(self)@;
                let e = editing::edited(v, editing::cursor(v), editing::cursor(v), s@);
                editing::with_column(
                    (EditorView { byte: v.byte + encode_utf8(s@).len(), ..e }),
                )
            }),
    {
        let at = self.cursor_abs_pos();
        let m = text::byte_len(s);
        let ghost b = self.buffer.bytes();
        proof {
            encode_utf8_valid_utf8(self.buffer@);
            spans::lemma_line_starts(b);
            editing::lemma_spliced(b, at as int, at as int, s@);
            let rest = encode_utf8(s@) + b.subrange(at as int, b.len() as int);
            assert(editing::spliced(b, at as int, at as int, s@) =~= b.subrange(0, at as int)
                + rest);
            positions::lemma_edit_keeps_line(b, at as int, rest, self.cursor_line as int);
        }
        self.buffer.replace_span(Span::new(at, at), s);
        let n = self.buffer.len();
        proof {
            assert(n == b.len() + m);
            encode_utf8_valid_utf8(self.buffer@);
        }
        self.cursor_byte = self.cursor_byte + m;
        self.dirty = true;
        self.update_preferred_col();
    }

    /// Insert `text` at the cursor as a single undo entry. Used by paste; the
    /// normal `insert_str` would batch char-by-char.
    pub fn insert_at_cursor(&mut self, text: &str)
        requires
            old(self).wf(),
        ensures
            final(self).wf(),
            final(self)@ == editing::inserted(old(self)@, text@),
    {
        self.enter();
        let at = self.cursor_abs_pos();
        self.replace_and_jump(Span::new(at, at), text);
    }

    /// Paste `text`, over the selection if there is one.
    pub fn paste(&mut self, text: &str)
        requires
            old(self).wf(),
        ensures
            final(self).wf(),
            final(self)@ == editing::pasted(old(self)@, text@),
    {
        if !self.replace_selection(text) {
            self.insert_at_cursor(text);
        }
    }

    pub fn insert_newline(&mut self)
        requires
            old(self).wf(),
        ensures
            final(self).wf(),
            final(self)@ == editing::newline_typed(old(self)@),
    {
        let le = persistence::detect_line_ending(self.buffer.as_str());
        proof {
            encode_utf8_decode_utf8(self.buffer@);
        }
        if self.replace_selection(le) {
            return;
        }
        self.clear_selection();
        if self.in_burst {
            self.enter_as(BatchKind::Burst);
        } else {
            self.enter();
        }
        let at = self.cursor_abs_pos();
        proof {
            lemma_newline_lines(old(self).buffer@, Seq::empty());
        }
        self.replace_and_descend(Span::new(at, at), le);
    }

    /// Replace `span` of the cursor's line by a text with a newline, and put the
    /// cursor at the start of the next line.
    fn replace_and_descend(&mut self, span: Span, replacement: &str)
        requires
            old(self).wf(),
            span.lies_in(old(self).buffer.bytes()),
            spans::line_starts(old(self).buffer.bytes())[old(self).cursor_line as int]
                <= span.start,
            spans::line_starts(encode_utf8(replacement@)).len() >= 2,
        ensures
            final(self).wf(),
            final(self)@ == editing::on_next_line(
                editing::edited(old(self)@, span.start as int, span.end as int, replacement@),
            ),
    {
        let ghost b = self.buffer.bytes();
        let ghost l = self.cursor_line as int;
        proof {
            let from = span.start as int;
            let to = span.end as int;
            encode_utf8_valid_utf8(self.buffer@);
            editing::lemma_spliced(b, from, to, replacement@);
            let tail = b.subrange(to, b.len() as int);
            let rest = encode_utf8(replacement@) + tail;
            assert(editing::spliced(b, from, to, replacement@) =~= b.subrange(0, from) + rest);
            positions::lemma_prefix_line(b, from, l);
            positions::lemma_edit_keeps_line(b, from, rest, l);
            positions::lemma_starts_concat(encode_utf8(replacement@), tail);
            spans::lemma_line_starts(tail);
        }
        self.buffer.replace_span(span, replacement);
        let n = self.buffer.line_count();
        self.cursor_line = self.cursor_line + 1;
        self.cursor_byte = 0;
        self.preferred_col = 0;
        self.dirty = true;
        proof {
            encode_utf8_valid_utf8(self.buffer@);
            editing::lemma_line_start_ok(self.buffer.bytes(), l + 1);
        }
        self.scroll_to_cursor();
    }

    /// If the current line is a delimiter (`===` or `=== <title>`) that does
    /// not yet have a date or a `|` separator, expand it: put `stamp` on it,
    /// separating it from any title with `|`. Drops the cursor onto
    /// the body line below. Returns `true` if the expansion happened.
    pub fn try_expand_delimiter(&mut self, stamp: &str) -> (r: bool)
        requires
            old(self).wf(),
        ensures
            final(self).wf(),
            r == editing::unstamped(editing::cursor_line(old(self)@)),
            final(self)@ == if r {
                editing::expanded(old(self)@, stamp@)
            } else {
                old(self)@
            },
    {
        let content = positions::content_of_line(&self.buffer, self.cursor_line);
        if !highlight::is_delimiter(content) {
            return false;
        }
        let cs = text::chars_of(content);
        let mut i: usize = 0;
        while i < cs.len()
            invariant
                i <= cs.len(),
                self.wf(),
                *self == *old(self),
                cs@ == editing::cursor_line(self@),
                forall|k: int| 0 <= k < i ==> #[trigger] cs@[k] != '|',
            decreases cs.len() - i,
        {
            if cs[i] == '|' {
                proof {
                    assert(cs@.contains('|'));
                }
                return false;
            }
            i += 1;
        }
        let title: &str = match words::strip_prefix(content, "===") {
            Some(rest) => words::trimmed(rest),
            None => "",
        };
        proof {
            reveal_strlit("");
            assert(""@ =~= Seq::<char>::empty());
            assert(title@ == editing::bare_title(content@));
        }
        if delimiter::looks_like_date_prefix(title) {
            return false;
        }
        let le = persistence::detect_line_ending(self.buffer.as_str());
        let mut line = String::from_str("=== ");
        if !title.is_empty() {
            line.append(title);
            line.append(" | ");
        }
        line.append(stamp);
        let ghost head = line@;
        line.append(le);
        let ghost b = self.buffer.bytes();
        proof {
            assert(head =~= editing::stamped(title@, stamp@));
            encode_utf8_decode_utf8(self.buffer@);
            encode_utf8_valid_utf8(self.buffer@);
            lemma_newline_lines(self.buffer@, head);
        }
        let len = text::byte_len(content);
        let start = positions::start_of_line(&self.buffer, self.cursor_line);
        proof {
            positions::lemma_line_end_ok(b, self.cursor_line as int);
            wrap::lemma_line_valid(b, self.cursor_line as int);
        }
        self.enter();
        let n = self.buffer.len();
        self.replace_and_descend(Span::new(start, start + len), line.as_str());
        true
    }

    /// Whether a span lies in the text, between characters.
    pub fn has_span(&self, s: Span) -> (r: bool)
        requires
            self.wf(),
        ensures
            r == s.lies_in(self@.bytes),
    {
        let t = self.buffer.as_str();
        s.start <= s.end && s.end <= self.buffer.len() && text::at_boundary(t, s.start)
            && text::at_boundary(t, s.end)
    }

    pub fn delete_backward(&mut self)
        requires
            old(self).wf(),
        ensures
            final(self).wf(),
            final(self)@ == editing::deleted_back(old(self)@),
    {
        let ghost b = self.buffer.bytes();
        proof {
            reveal_strlit("");
            assert(""@ =~= Seq::<char>::empty());
            encode_utf8_valid_utf8(self.buffer@);
        }
        if self.replace_selection("") {
            return;
        }
        self.clear_selection();
        if self.cursor_byte > 0 {
            let line = positions::text_of_line(&self.buffer, self.cursor_line);
            let prev = positions::prev_char_boundary(line, self.cursor_byte);
            let start = positions::start_of_line(&self.buffer, self.cursor_line);
            proof {
                lemma_prev_in_line(b, self.cursor_line as int, self.cursor_byte as int);
            }
            let at = self.cursor_abs_pos();
            self.enter_as(BatchKind::DeleteBack);
            self.cut_on_line(Span::new(start + prev, at));
            self.cursor_byte = prev;
            proof {
                encode_utf8_valid_utf8(self.buffer@);
            }
            self.update_preferred_col();
        } else if self.cursor_line > 0 {
            let up = self.cursor_line - 1;
            let end = wrap::line_content_len(positions::text_of_line(&self.buffer, up));
            let up_start = positions::start_of_line(&self.buffer, up);
            let start = positions::start_of_line(&self.buffer, self.cursor_line);
            proof {
                positions::lemma_line_end_ok(b, up as int);
                wrap::lemma_line_valid(b, up as int);
                spans::lemma_line_starts(b);
                editing::lemma_line_start_ok(b, self.cursor_line as int);
            }
            self.enter();
            self.cursor_line = up;
            self.cursor_byte = end;
            self.cut_on_line(Span::new(up_start + end, start));
            if self.cursor_line < self.scroll {
                self.scroll = self.cursor_line;
            }
            self.update_preferred_col();
        }
    }

    /// Delete `span`, which starts on the cursor's line.
    fn cut_on_line(&mut self, span: Span)
        requires
            old(self).wf(),
            span.lies_in(old(self).buffer.bytes()),
            spans::line_starts(old(self).buffer.bytes())[old(self).cursor_line as int]
                <= span.start,
        ensures
            final(self).buffer.wf(),
            final(self)@ == editing::edited(
                old(self)@,
                span.start as int,
                span.end as int,
                Seq::empty(),
            ),
            editing::state_ok(
                (EditorView {
                    byte: span.start - spans::line_starts(old(self).buffer.bytes())[old(
                        self,
                    ).cursor_line as int],
                    ..final(self)@
                }),
            ),
    {
        let ghost b = self.buffer.bytes();
        let ghost l = self.cursor_line as int;
        proof {
            reveal_strlit("");
            assert(""@ =~= Seq::<char>::empty());
            let from = span.start as int;
            let to = span.end as int;
            encode_utf8_valid_utf8(self.buffer@);
            editing::lemma_spliced(b, from, to, Seq::empty());
            let rest = encode_utf8(Seq::<char>::empty()) + b.subrange(to, b.len() as int);
            assert(editing::spliced(b, from, to, Seq::empty()) =~= b.subrange(0, from) + rest);
            positions::lemma_edit_keeps_line(b, from, rest, l);
        }
        self.buffer.replace_span(span, "");
        self.dirty = true;
        proof {
            encode_utf8_valid_utf8(self.buffer@);
        }
    }

    pub fn delete_forward(&mut self)
        requires
            old(self).wf(),
        ensures
            final(self).wf(),
            final(self)@ == editing::deleted_forward(old(self)@),
    {
        let ghost b = self.buffer.bytes();
        proof {
            reveal_strlit("");
            assert(""@ =~= Seq::<char>::empty());
            encode_utf8_valid_utf8(self.buffer@);
            positions::lemma_line_end_ok(b, self.cursor_line as int);
            wrap::lemma_line_valid(b, self.cursor_line as int);
            spans::lemma_line_starts(b);
        }
        if self.replace_selection("") {
            return;
        }
        self.clear_selection();
        let line = positions::text_of_line(&self.buffer, self.cursor_line);
        let len = wrap::line_content_len(line);
        let start = positions::start_of_line(&self.buffer, self.cursor_line);
        let n = self.buffer.len();
        if self.cursor_byte < len {
            let next = positions::next_char_boundary(line, self.cursor_byte);
            proof {
                positions::lemma_line_boundary(b, self.cursor_line as int, next as int);
            }
            let at = self.cursor_abs_pos();
            self.enter_as(BatchKind::DeleteFwd);
            self.cut_on_line(Span::new(at, start + next));
            self.update_preferred_col();
        } else if self.cursor_line < self.buffer.line_count() - 1 {
            let next_start = positions::start_of_line(&self.buffer, self.cursor_line + 1);
            proof {
                editing::lemma_line_start_ok(b, self.cursor_line + 1);
            }
            self.enter();
            self.cursor_byte = len;
            self.cut_on_line(Span::new(start + len, next_start));
            self.update_preferred_col();
        }
    }

    // -------------------------------------------------------------------------
    // Undo / redo
    // -------------------------------------------------------------------------

    fn restore_entry(&mut self, entry: HistoryEntry)
        requires
            old(self).wf(),
            editing::snap_ok(entry@),
        ensures
            final(self).wf(),
            final(self)@ == editing::restored(old(self)@, entry@),
    {
        let buffer = TextBuffer::new(entry.content);
        let (line, byte) = positions::clamp_place(&buffer, entry.cursor_line, entry.cursor_byte);
        let hash = persistence::hash_content(buffer.as_str());
        self.buffer = buffer;
        self.cursor_line = line;
        self.cursor_byte = byte;
        // Correctly clear dirty flag when undo brings us back to the saved state.
        self.dirty =
        match self.saved_hash {
            Some(h) => h != hash,
            None => true,
        };
        proof {
            encode_utf8_valid_utf8(self.buffer@);
        }
        self.update_preferred_col();
        self.scroll_to_cursor();
    }

    /// Take the last edit back. Returns how many more can be taken back, or
    /// `None` if there was nothing to undo.
    pub fn do_undo(&mut self) -> (r: Option<usize>)
        requires
            old(self).wf(),
        ensures
            final(self).wf(),
            final(self)@ == editing::undone(old(self)@),
            match r {
                Some(n) => old(self)@.stacks.undo.len() == n + 1,
                None => old(self)@.stacks.undo.len() == 0,
            },
    {
        let current = self.make_snapshot();
        let ghost before = self@;
        match self.history.undo(current) {
            Some(entry) => {
                let remaining = self.history.undo.len();
                proof {
                    assert(editing::snap_ok(before.stacks.undo[before.stacks.undo.len() - 1]));
                    assert(editing::snap_ok(current@));
                }
                self.restore_entry(entry);
                Some(remaining)
            },
            None => None,
        }
    }

    /// Make the last edit taken back again. Returns how many more can be made
    /// again, or `None` if there was nothing to redo.
    pub fn do_redo(&mut self) -> (r: Option<usize>)
        requires
            old(self).wf(),
        ensures
            final(self).wf(),
            final(self)@ == editing::redone(old(self)@),
            match r {
                Some(n) => old(self)@.stacks.redo.len() == n + 1,
                None => old(self)@.stacks.redo.len() == 0,
            },
    {
        let current = self.make_snapshot();
        let ghost before = self@;
        match self.history.redo(current) {
            Some(entry) => {
                let remaining = self.history.redo.len();
                proof {
                    assert(editing::snap_ok(before.stacks.redo[before.stacks.redo.len() - 1]));
                    assert(editing::snap_ok(current@));
                }
                self.restore_entry(entry);
                Some(remaining)
            },
            None => None,
        }
    }

    /// The next edit starts an undo entry of its own.
    pub fn break_batch(&mut self)
        requires
            old(self).wf(),
        ensures
            final(self).wf(),
            final(self)@ == (EditorView {
                stacks: old(self)@.stacks.broken(),
                ..old(self)@
            }),
    {
        self.history.break_batch();
    }

    // -------------------------------------------------------------------------
    // Reload, open
    // -------------------------------------------------------------------------

    /// The file as it is on disk.
    pub fn reload(&mut self, buffer: TextBuffer)
        requires
            old(self).wf(),
            buffer.wf(),
        ensures
            final(self).wf(),
            final(self)@ == editing::reloaded(old(self)@, buffer@),
    {
        let (line, byte) = positions::clamp_place(&buffer, self.cursor_line, self.cursor_byte);
        self.saved_hash = Some(persistence::hash_content(buffer.as_str()));
        self.buffer = buffer;
        self.history.clear();
        self.dirty = false;
        self.cursor_line = line;
        self.cursor_byte = byte;
        proof {
            encode_utf8_valid_utf8(self.buffer@);
        }
        self.update_preferred_col();
    }

    /// New content from a background pull.
    pub fn refresh(&mut self, buffer: TextBuffer)
        requires
            old(self).wf(),
            buffer.wf(),
        ensures
            final(self).wf(),
            final(self)@ == editing::refreshed(old(self)@, buffer@),
    {
        let n = buffer.line_count();
        self.saved_hash = Some(persistence::hash_content(buffer.as_str()));
        self.buffer = buffer;
        self.cursor_line =
        if self.cursor_line < n {
            self.cursor_line
        } else {
            n - 1
        };
        self.cursor_byte = 0;
        proof {
            encode_utf8_valid_utf8(self.buffer@);
            editing::lemma_line_start_ok(self.buffer.bytes(), self.cursor_line as int);
        }
        self.update_preferred_col();
        self.scroll_to_cursor();
    }

    /// Another file, with the cursor near a remembered place.
    pub fn switch_file(&mut self, buffer: TextBuffer, place: Option<(usize, usize)>)
        requires
            old(self).wf(),
            buffer.wf(),
        ensures
            final(self).wf(),
            final(self)@ == editing::opened(old(self)@, buffer@, anchor_view(place)),
    {
        let (line, byte) = match place {
            Some(p) => positions::clamp_place(&buffer, p.0, p.1),
            None => (0, 0),
        };
        self.saved_hash = Some(persistence::hash_content(buffer.as_str()));
        self.buffer = buffer;
        self.history.clear();
        self.dirty = false;
        self.cursor_line = line;
        self.cursor_byte = byte;
        self.scroll = 0;
        proof {
            encode_utf8_valid_utf8(self.buffer@);
            spans::lemma_line_starts(self.buffer.bytes());
            editing::lemma_line_start_ok(self.buffer.bytes(), 0);
        }
        self.update_preferred_col();
        self.scroll_to_cursor();
    }

    /// The text is on disk.
    pub fn mark_saved(&mut self)
        requires
            old(self).wf(),
        ensures
            final(self).wf(),
            final(self)@ == (EditorView {
                dirty: false,
                saved: Some(persistence::content_hash(old(self)@.bytes)),
                ..old(self)@
            }),
    {
        self.saved_hash = Some(persistence::hash_content(self.buffer.as_str()));
        self.dirty = false;
    }
}

/// The boundary before the cursor's byte is a place on its line.
proof fn lemma_prev_in_line(b: Seq<u8>, l: int, byte: int)
    requires
        valid_utf8(b),
        positions::place_ok(b, l, byte),
        byte > 0,
    ensures
        positions::place_ok(b, l, positions::prev_bound(wrap::line_of(b, l), byte)),
        0 <= positions::prev_bound(wrap::line_of(b, l), byte) < byte,
{
    wrap::lemma_line_valid(b, l);
    let line = wrap::line_of(b, l);
    let t = decode_utf8(line);
    positions::lemma_prev_bound(t, byte);
    let p = positions::prev_bound(line, byte);
    lemma_boundary_in_range(line, p);
    positions::lemma_line_boundary(b, l, p);
}

proof fn lemma_boundary_in_range(b: Seq<u8>, i: int)
    requires
        text::on_boundary(b, i),
    ensures
        0 <= i <= b.len(),
{
}

/// A line ending ends a line.
proof fn lemma_newline_lines(content: Seq<char>, head: Seq<char>)
    ensures
        spans::line_starts(encode_utf8(head + persistence::line_ending(content))).len() >= 2,
        spans::line_starts(encode_utf8(persistence::line_ending(content))).len() >= 2,
{
    let le = persistence::line_ending(content);
    reveal_strlit("\n");
    reveal_strlit("\r\n");
    assert(le.len() >= 1 && le.last() == '\n');
    let front = le.drop_last();
    assert(le =~= front + seq!['\n']);
    text::lemma_encode_concat(front, seq!['\n']);
    is_ascii_chars_encode_utf8(seq!['\n']);
    assert(encode_utf8(seq!['\n']) =~= seq![10u8]);
    let b = encode_utf8(le);
    assert(b.last() == 10u8);
    spans::lemma_line_starts(b.drop_last());
    text::lemma_encode_concat(head, le);
    positions::lemma_starts_concat(encode_utf8(head), b);
    spans::lemma_line_starts(encode_utf8(head));
}

} // verus!
