//! What the text area shows: which part of a line a row holds and in which look, which
//! bytes are marked and selected, which lines are code, and where the cursor is drawn.

use vstd::prelude::*;
use vstd::utf8::*;

use crate::editing;
use crate::editing::EditorView;
use crate::highlight;
use crate::highlight_laws::opened;
use crate::overlay;
use crate::paint_laws::paint;
use crate::screen;
use crate::search_mode::SearchView;
use crate::spans;
use crate::style;
use crate::style::{Color, SpanView, Style};
use crate::text;
use crate::wrap;
use crate::wrap_laws::cells_in;

verus! {

// ---------------------------------------------------------------------------
// Slices
// ---------------------------------------------------------------------------

proof fn lemma_paint_append(u: Seq<SpanView>, v: Seq<SpanView>, x: int)
    requires
        0 <= x,
    ensures
        paint(u + v, x) == if x < overlay::line_bytes(u).len() {
            paint(u, x)
        } else {
            paint(v, x - overlay::line_bytes(u).len())
        },
    decreases u.len(),
{
    if u.len() == 0 {
        assert(u + v =~= v);
        assert(style::text_of(u) =~= Seq::<char>::empty());
        assert(encode_utf8(Seq::<char>::empty()) =~= Seq::<u8>::empty());
    } else {
        let rest = u.drop_first();
        assert((u + v)[0] == u[0]);
        assert((u + v).drop_first() =~= rest + v);
        let n = encode_utf8(u[0].text).len();
        assert(seq![u[0]] + rest =~= u);
        style::lemma_text_of_concat(seq![u[0]], rest);
        style::lemma_text_of_one(u[0]);
        text::lemma_encode_concat(u[0].text, style::text_of(rest));
        if x >= n {
            lemma_paint_append(rest, v, x - n);
        }
    }
}

proof fn lemma_run_bytes(line: Seq<SpanView>, k: int)
    requires
        0 <= k <= line.len(),
    ensures
        0 <= overlay::run_start(line, k) <= overlay::line_bytes(line).len(),
        overlay::line_bytes(line).subrange(0, overlay::run_start(line, k)) == overlay::line_bytes(
            line.subrange(0, k),
        ),
        text::on_boundary(overlay::line_bytes(line), overlay::run_start(line, k)),
    decreases k,
{
    let b = overlay::line_bytes(line);
    let front = line.subrange(0, k);
    let rest = line.subrange(k, line.len() as int);
    assert(line =~= front + rest);
    style::lemma_text_of_concat(front, rest);
    let f = style::text_of(front);
    let r = style::text_of(rest);
    text::lemma_encode_concat(f, r);
    lemma_run_start_is(line, k);
    assert(b.subrange(0, overlay::run_start(line, k)) =~= encode_utf8(f));
    assert((f + r).subrange(0, f.len() as int) =~= f);
    text::lemma_offset_on_boundary(f + r, f.len() as int);
}

proof fn lemma_run_start_is(line: Seq<SpanView>, k: int)
    requires
        0 <= k <= line.len(),
    ensures
        overlay::run_start(line, k) == overlay::line_bytes(line.subrange(0, k)).len(),
    decreases k,
{
    let front = line.subrange(0, k);
    if k > 0 {
        lemma_run_start_is(line, k - 1);
        assert(front.drop_last() =~= line.subrange(0, k - 1));
        text::lemma_encode_concat(style::text_of(front.drop_last()), front.last().text);
    } else {
        assert(front =~= Seq::<SpanView>::empty());
        assert(style::text_of(front) =~= Seq::<char>::empty());
        assert(encode_utf8(Seq::<char>::empty()) =~= Seq::<u8>::empty());
    }
}

proof fn lemma_run_paint(line: Seq<SpanView>, k: int, x: int)
    requires
        0 <= k < line.len(),
        overlay::run_start(line, k) <= x < overlay::run_start(line, k + 1),
    ensures
        paint(line, x) == line[k].style,
{
    let front = line.subrange(0, k);
    let rest = line.subrange(k, line.len() as int);
    assert(line =~= front + rest);
    lemma_run_start_is(line, k);
    assert(overlay::line_bytes(front).len() >= 0);
    lemma_paint_append(front, rest, x);
    assert(rest[0] == line[k]);
}

proof fn lemma_sliced(line: Seq<SpanView>, k: int, start: int, end: int)
    requires
        0 <= k <= line.len(),
        0 <= start <= end <= overlay::line_bytes(line).len(),
        text::on_boundary(overlay::line_bytes(line), start),
        text::on_boundary(overlay::line_bytes(line), end),
    ensures
        ({
            let b = overlay::line_bytes(line);
            let at = overlay::run_start(line, k);
            let lo = overlay::least(start, at);
            let hi = overlay::least(end, at);
            let out = overlay::sliced_runs(line, k, start, end);
            &&& overlay::line_bytes(out) == b.subrange(lo, hi)
            &&& forall|x: int| start <= x < hi ==> #[trigger] paint(out, x - start) == paint(line, x)
        }),
    decreases k,
{
    let b = overlay::line_bytes(line);
    let at = overlay::run_start(line, k);
    let out = overlay::sliced_runs(line, k, start, end);
    lemma_run_bytes(line, k);
    if k == 0 {
        assert(style::text_of(out) =~= Seq::<char>::empty());
        assert(encode_utf8(Seq::<char>::empty()) =~= Seq::<u8>::empty());
        assert(overlay::line_bytes(out) =~= b.subrange(
            overlay::least(start, at),
            overlay::least(end, at),
        ));
    } else {
        lemma_sliced(line, k - 1, start, end);
        lemma_run_bytes(line, k - 1);
        let from = overlay::run_start(line, k - 1);
        let before = overlay::sliced_runs(line, k - 1, start, end);
        let piece = overlay::run_slice(line, k - 1, start, end);
        let t = line[k - 1].text;
        let run = encode_utf8(t);
        assert(line.subrange(0, k).drop_last() =~= line.subrange(0, k - 1));
        text::lemma_encode_concat(style::text_of(line.subrange(0, k - 1)), t);
        assert(b.subrange(0, at) == overlay::line_bytes(line.subrange(0, k)));
        assert(b.subrange(0, at) =~= overlay::line_bytes(line.subrange(0, k - 1)) + run);
        assert(b.subrange(from, at) =~= run) by {
            assert forall|i: int| 0 <= i < run.len() implies b.subrange(from, at)[i] == run[i] by {
                assert(b.subrange(0, at)[from + i] == run[i]);
            }
        }
        let lo = overlay::greatest(start, from) - from;
        let hi = overlay::least(end, at) - from;
        if lo < hi {
            text::lemma_boundary_piece(b, from, at, lo);
            text::lemma_boundary_piece(b, from, at, hi);
            let s = style::run(decode_utf8(run.subrange(lo, hi)), line[k - 1].style);
            assert(piece == seq![s]);
            text::lemma_piece_decodes(t, lo, hi);
            assert(encode_utf8(s.text) == run.subrange(lo, hi));
            style::lemma_text_of_concat(before, piece);
            style::lemma_text_of_one(s);
            text::lemma_encode_concat(style::text_of(before), s.text);
            assert(run.subrange(lo, hi) =~= b.subrange(from + lo, from + hi));
            assert(overlay::line_bytes(out) =~= b.subrange(
                overlay::least(start, at),
                overlay::least(end, at),
            ));
            assert forall|x: int| start <= x < overlay::least(end, at) implies #[trigger] paint(
                out,
                x - start,
            ) == paint(line, x) by {
                lemma_paint_append(before, piece, x - start);
                if x < from {
                    assert(paint(before, x - start) == paint(line, x));
                } else {
                    lemma_run_paint(line, k - 1, x);
                    assert(piece[0] == s);
                }
            }
        } else {
            assert(out =~= before);
            assert(overlay::line_bytes(out) =~= b.subrange(
                overlay::least(start, at),
                overlay::least(end, at),
            ));
            assert forall|x: int| start <= x < overlay::least(end, at) implies #[trigger] paint(
                out,
                x - start,
            ) == paint(line, x) by {
                assert(x < from);
            }
        }
    }
}

/// The part of a line between two characters reads as the bytes between them, and each of
/// them looks as it did in the line.
pub proof fn law_slice(line: Seq<SpanView>, start: int, end: int)
    requires
        0 <= start <= end <= overlay::line_bytes(line).len(),
        text::on_boundary(overlay::line_bytes(line), start),
        text::on_boundary(overlay::line_bytes(line), end),
    ensures
        overlay::line_bytes(overlay::sliced(line, start, end)) == overlay::line_bytes(
            line,
        ).subrange(start, end),
        forall|x: int|
            start <= x < end ==> #[trigger] paint(overlay::sliced(line, start, end), x - start)
                == paint(line, x),
{
    lemma_sliced(line, line.len() as int, start, end);
    lemma_run_start_is(line, line.len() as int);
    assert(line.subrange(0, line.len() as int) =~= line);
}

// ---------------------------------------------------------------------------
// Marks, selection and code
// ---------------------------------------------------------------------------

/// How many of the first `n` matches are on line `l`.
pub open spec fn on_line(s: SearchView, l: int, n: int) -> int
    decreases n,
{
    if n <= 0 {
        0
    } else {
        on_line(s, l, n - 1) + if s.matches[n - 1].0 == l {
            1int
        } else {
            0
        }
    }
}

proof fn lemma_marks(s: SearchView, l: int, n: int)
    requires
        0 <= n <= s.matches.len(),
    ensures
        screen::marks_upto(s, l, n).len() == on_line(s, l, n),
        forall|k: int|
            0 <= k < n && (#[trigger] s.matches[k]).0 == l ==> 0 <= on_line(s, l, k) < on_line(
                s,
                l,
                n,
            ) && screen::marks_upto(s, l, n)[on_line(s, l, k)] == (
                s.matches[k].1,
                s.matches[k].2,
                k == s.current,
            ),
    decreases n,
{
    if n > 0 {
        lemma_marks(s, l, n - 1);
    }
}

/// Every match on a line is marked on it, in order, and the one in focus as such; nothing
/// else is.
pub proof fn law_marks_on_line(s: SearchView, l: int, k: int)
    requires
        0 <= k < s.matches.len(),
    ensures
        screen::marks_on(Some(s), l).len() == on_line(s, l, s.matches.len() as int),
        s.matches[k].0 == l ==> 0 <= on_line(s, l, k) < screen::marks_on(Some(s), l).len()
            && screen::marks_on(Some(s), l)[on_line(s, l, k)] == (
            s.matches[k].1,
            s.matches[k].2,
            k == s.current,
        ),
{
    lemma_marks(s, l, s.matches.len() as int);
}

/// A byte of a line is shown as selected exactly if its place in the file is.
pub proof fn law_selected_bytes(e: EditorView, l: int, x: int)
    requires
        0 <= l < spans::line_starts(e.bytes).len(),
        0 <= x < wrap::line_of(e.bytes, l).len(),
    ensures
        ({
            let p = spans::line_starts(e.bytes)[l] + x;
            (screen::selected_on(e, l) matches Some((lo, hi)) && lo <= x < hi) <==> (
            editing::selection(e) matches Some((a, b)) && a <= p < b)
        }),
{
    spans::lemma_line_starts(e.bytes);
}

/// A line opens or closes a block of code: it starts with three backticks or tildes.
pub open spec fn fence_at(b: Seq<u8>, l: int) -> bool {
    let s = wrap::line_chars(b, l);
    opened(s, seq!['`', '`', '`']) || opened(s, seq!['~', '~', '~'])
}

/// How many such lines are above line `l`.
pub open spec fn fences_above(b: Seq<u8>, l: int) -> int
    decreases l,
{
    if l <= 0 {
        0
    } else {
        fences_above(b, l - 1) + if fence_at(b, l - 1) {
            1int
        } else {
            0
        }
    }
}

proof fn lemma_fence_line(s: Seq<char>)
    ensures
        highlight::fence_line(s) <==> opened(s, seq!['`', '`', '`']) || opened(
            s,
            seq!['~', '~', '~'],
        ),
{
    reveal_strlit("```");
    reveal_strlit("~~~");
    assert("```"@ =~= seq!['`', '`', '`']);
    assert("~~~"@ =~= seq!['~', '~', '~']);
    crate::bar_laws::lemma_begins(s, "```"@);
    crate::bar_laws::lemma_begins(s, "~~~"@);
}

/// A line is shown as code exactly if it is a fence, or an odd number of fences stands
/// above it.
pub proof fn law_code_lines(b: Seq<u8>, l: int)
    requires
        0 <= l,
    ensures
        screen::is_code(b, l) <==> fence_at(b, l) || fences_above(b, l) % 2 == 1,
{
    lemma_fenced(b, l);
    lemma_fence_line(wrap::line_chars(b, l));
}

proof fn lemma_fenced(b: Seq<u8>, l: int)
    requires
        0 <= l,
    ensures
        screen::fenced(b, l) <==> fences_above(b, l) % 2 == 1,
    decreases l,
{
    if l > 0 {
        lemma_fenced(b, l - 1);
        lemma_fence_line(wrap::line_chars(b, l - 1));
    }
}

// ---------------------------------------------------------------------------
// Rows
// ---------------------------------------------------------------------------

/// Rows that the lines `[l, to)` take.
pub open spec fn rows_of(e: EditorView, s: Option<SearchView>, l: int, to: int, width: int) -> int
    decreases to - l,
{
    if to <= l {
        0
    } else {
        rows_of(e, s, l, to - 1, width) + screen::line_rows(e, s, to - 1, width).len()
    }
}

proof fn lemma_rows_front(e: EditorView, s: Option<SearchView>, l: int, to: int, width: int)
    requires
        l < to,
    ensures
        rows_of(e, s, l, to, width) == screen::line_rows(e, s, l, width).len() + rows_of(
            e,
            s,
            l + 1,
            to,
            width,
        ),
    decreases to - l,
{
    reveal_with_fuel(rows_of, 2);
    if l + 1 < to {
        lemma_rows_front(e, s, l, to - 1, width);
    }
}

/// The area shows the lines from the first one on, one below the other, each in all its
/// rows as far as there is room.
pub proof fn law_lines_below_each_other(
    e: EditorView,
    s: Option<SearchView>,
    l: int,
    width: int,
    n: int,
    m: int,
    j: int,
)
    requires
        width >= 0,
        l <= m,
        0 <= j < screen::line_rows(e, s, m, width).len(),
        rows_of(e, s, l, m, width) + j < n,
    ensures
        0 <= rows_of(e, s, l, m, width) + j < screen::rows_from(e, s, l, width, n).len(),
        screen::rows_from(e, s, l, width, n)[rows_of(e, s, l, m, width) + j] == screen::line_rows(
            e,
            s,
            m,
            width,
        )[j],
    decreases m - l,
{
    let here = screen::line_rows(e, s, l, width);
    screen::lemma_line_rows(e, s, l, width);
    lemma_rows_nonnegative(e, s, l, m, width);
    screen::law_area_is_filled(e, s, l, width, n);
    if l == m {
        if here.len() < n {
            let rest = screen::rows_from(e, s, l + 1, width, n - here.len());
            assert((here + rest)[j] == here[j]);
        }
    } else {
        lemma_rows_front(e, s, l, m, width);
        lemma_rows_nonnegative(e, s, l + 1, m, width);
        law_lines_below_each_other(e, s, l + 1, width, n - here.len(), m, j);
        let rest = screen::rows_from(e, s, l + 1, width, n - here.len());
        let k = rows_of(e, s, l + 1, m, width) + j;
        assert((here + rest)[here.len() + k] == rest[k]);
    }
}

proof fn lemma_rows_nonnegative(e: EditorView, s: Option<SearchView>, l: int, to: int, width: int)
    ensures
        rows_of(e, s, l, to, width) >= 0,
    decreases to - l,
{
    if l < to {
        lemma_rows_nonnegative(e, s, l, to - 1, width);
    }
}

/// Below the last line there are rows with a grey tilde. Without wrapping a line takes one
/// row, which holds all of it.
pub proof fn law_unwrapped_rows(e: EditorView, s: Option<SearchView>, l: int, width: int)
    requires
        !e.wrap,
        0 <= l,
    ensures
        l >= spans::line_starts(e.bytes).len() ==> screen::line_rows(e, s, l, width) == seq![
            seq![
                SpanView {
                    text: seq!['~'],
                    style: (Style { fg: Some(Color::DarkGray), ..style::bare() }),
                },
            ],
        ],
        screen::line_rows(e, s, l, width).len() == 1,
        l < spans::line_starts(e.bytes).len() && !screen::is_decorated(e, s, l)
            && overlay::line_bytes(screen::styled(e, s, l)) == encode_utf8(
            wrap::line_chars(e.bytes, l),
        ) ==> overlay::line_bytes(screen::line_rows(e, s, l, width)[0]) == encode_utf8(
            wrap::line_chars(e.bytes, l),
        ),
{
    reveal_strlit("~");
    assert("~"@ =~= seq!['~']);
    let line = screen::styled(e, s, l);
    let b = overlay::line_bytes(line);
    if b == encode_utf8(wrap::line_chars(e.bytes, l)) {
        text::lemma_boundary_ends(style::text_of(line));
        law_slice(line, 0, b.len() as int);
        assert(b.subrange(0, b.len() as int) =~= b);
    }
}

// ---------------------------------------------------------------------------
// Cursor
// ---------------------------------------------------------------------------

proof fn lemma_total_cells(s: Seq<char>)
    ensures
        wrap::total_cells(s) == cells_in(s, 0, s.len() as int),
    decreases s.len(),
{
    if s.len() > 0 {
        lemma_total_cells(s.drop_last());
        lemma_cells_prefix(s, s.drop_last(), s.len() - 1);
    }
}

proof fn lemma_cells_prefix(s: Seq<char>, t: Seq<char>, n: int)
    requires
        0 <= n <= s.len(),
        n <= t.len(),
        forall|k: int| 0 <= k < n ==> s[k] == #[trigger] t[k],
    ensures
        cells_in(s, 0, n) == cells_in(t, 0, n),
    decreases n,
{
    if n > 0 {
        lemma_cells_prefix(s, t, n - 1);
        assert(s[n - 1] == t[n - 1]);
    }
}

/// The column of a place in a line is the number of cells of the characters before it.
pub proof fn law_column(line: Seq<char>, k: int)
    requires
        0 <= k <= line.len(),
    ensures
        wrap::column_of(line, text::byte_offset(line, k)) == cells_in(line, 0, k),
{
    let b = encode_utf8(line);
    let p = text::byte_offset(line, k);
    text::lemma_byte_subrange(line, 0, k);
    text::lemma_byte_offset_ends(line);
    let front = line.subrange(0, k);
    encode_utf8_decode_utf8(front);
    assert(b.subrange(0, p) == encode_utf8(front));
    lemma_total_cells(front);
    lemma_cells_prefix(line, front, k);
    if p >= b.len() {
        assert(b.subrange(0, b.len() as int) =~= b.subrange(0, p));
    }
}

/// Without wrapping, the cursor is drawn as many rows below the top as lines, and as many
/// columns in as the characters before it have cells, or in the last column.
pub proof fn law_cursor_cell(e: EditorView, s: Option<SearchView>, width: int, height: int, k: int)
    requires
        !e.wrap,
        width > 0,
        0 <= e.scroll <= e.line < e.scroll + height,
        0 <= k <= editing::cursor_line(e).len(),
        e.byte == text::byte_offset(editing::cursor_line(e), k),
    ensures
        ({
            let c = cells_in(editing::cursor_line(e), 0, k);
            screen::cursor_cell(e, s, width, height) == Some(
                (
                    if c < width {
                        c
                    } else {
                        width - 1
                    },
                    e.line - e.scroll,
                ),
            )
        }),
{
    let content = editing::cursor_line(e);
    let n = encode_utf8(content).len() as int;
    lemma_rows_above(e, s, e.scroll, e.line, width);
    text::lemma_byte_subrange(content, 0, k);
    text::lemma_byte_offset_ends(content);
    let rs = screen::ranges(e, e.line, width);
    assert(rs =~= seq![(0int, n)]);
    assert(editing::row_holding(rs, 0, e.byte) == Some(0int));
    assert(encode_utf8(content).subrange(0, n) =~= encode_utf8(content));
    encode_utf8_decode_utf8(content);
    law_column(content, k);
}

proof fn lemma_rows_above(e: EditorView, s: Option<SearchView>, l: int, to: int, width: int)
    requires
        !e.wrap,
        0 <= l <= to,
    ensures
        screen::rows_above(e, s, l, to, width) == to - l,
    decreases to - l,
{
    if l < to {
        lemma_rows_above(e, s, l + 1, to, width);
    }
}

proof fn lemma_cells_shift(s: Seq<char>, n: int, j: int)
    requires
        0 <= n <= n + j <= s.len(),
    ensures
        cells_in(s.subrange(n, s.len() as int), 0, j) == cells_in(s, n, n + j),
    decreases j,
{
    if j > 0 {
        lemma_cells_shift(s, n, j - 1);
        assert(s.subrange(n, s.len() as int)[j - 1] == s[n + j - 1]);
    }
}

proof fn lemma_rows_above_is(e: EditorView, s: Option<SearchView>, l: int, to: int, width: int)
    requires
        l <= to,
    ensures
        screen::rows_above(e, s, l, to, width) == rows_of(e, s, l, to, width),
    decreases to - l,
{
    if l < to {
        lemma_rows_above_is(e, s, l + 1, to, width);
        lemma_rows_front(e, s, l, to, width);
    }
}

proof fn lemma_holding(rs: Seq<(int, int)>, i: int, byte: int, k: int)
    requires
        0 <= i <= k < rs.len(),
        rs[k].0 <= byte <= rs[k].1,
        forall|j: int| i <= j < k ==> !((#[trigger] rs[j]).0 <= byte <= rs[j].1),
    ensures
        editing::row_holding(rs, i, byte) == Some(k),
    decreases k - i,
{
    if i < k {
        assert(!(rs[i].0 <= byte <= rs[i].1));
        lemma_holding(rs, i + 1, byte, k);
    }
}

/// The cursor is drawn on the first row of its line that holds it, below the rows of the
/// lines above it, and as many columns in as the characters of the row before it have cells,
/// or in the last column. `from` and `at` count characters of the line: to the start of the
/// row and to the cursor.
pub proof fn law_cursor_cell_by_rows(
    e: EditorView,
    s: Option<SearchView>,
    width: int,
    height: int,
    k: int,
    from: int,
    at: int,
)
    requires
        width > 0,
        0 <= e.scroll <= e.line,
        0 <= from <= at <= editing::cursor_line(e).len(),
        e.byte == text::byte_offset(editing::cursor_line(e), at),
        0 <= k < screen::ranges(e, e.line, width).len(),
        screen::ranges(e, e.line, width)[k].0 == text::byte_offset(editing::cursor_line(e), from),
        e.byte <= screen::ranges(e, e.line, width)[k].1,
        forall|j: int|
            0 <= j < k ==> !((#[trigger] screen::ranges(e, e.line, width)[j]).0 <= e.byte
                <= screen::ranges(e, e.line, width)[j].1),
        rows_of(e, s, e.scroll, e.line, width) + k < height,
    ensures
        ({
            let c = cells_in(editing::cursor_line(e), from, at);
            screen::cursor_cell(e, s, width, height) == Some(
                (
                    if c < width {
                        c
                    } else {
                        width - 1
                    },
                    rows_of(e, s, e.scroll, e.line, width) + k,
                ),
            )
        }),
{
    let content = editing::cursor_line(e);
    let b = encode_utf8(content);
    let n = content.len() as int;
    let rs = screen::ranges(e, e.line, width);
    lemma_rows_above_is(e, s, e.scroll, e.line, width);
    text::lemma_byte_offset_monotone(content, from, at);
    text::lemma_byte_offset_monotone(content, at, n);
    text::lemma_byte_offset_ends(content);
    lemma_holding(rs, 0, e.byte, k);
    let t = content.subrange(from, n);
    text::lemma_byte_subrange(content, from, n);
    encode_utf8_decode_utf8(t);
    let p = text::byte_offset(content, from);
    assert(decode_utf8(b.subrange(p, b.len() as int)) == t);
    assert(text::byte_offset(t, at - from) == e.byte - p) by {
        assert(content.subrange(0, at) =~= content.subrange(0, from) + t.subrange(0, at - from));
        text::lemma_encode_concat(content.subrange(0, from), t.subrange(0, at - from));
    }
    law_column(t, at - from);
    lemma_cells_shift(content, from, at - from);
}

} // verus!
