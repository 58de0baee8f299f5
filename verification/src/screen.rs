//! The text area: styled rows and the terminal cursor.

use vstd::prelude::*;
use vstd::utf8::*;

use crate::delimiter;
use crate::editing;
use crate::editing::EditorView;
use crate::editor::Editor;
use crate::highlight;
use crate::overlay;
use crate::positions;
use crate::search;
use crate::search_mode::{SearchState, SearchView};
use crate::spans;
use crate::style;
use crate::style::{Color, SpanView, Style, StyledLine};
use crate::text;
use crate::wrap;

verus! {

// ---------------------------------------------------------------------------
// One line
// ---------------------------------------------------------------------------

/// Whether a block of code is open before line `l`.
pub open spec fn fenced(b: Seq<u8>, l: int) -> bool
    decreases l,
{
    if l <= 0 {
        false
    } else {
        fenced(b, l - 1) != highlight::fence_line(wrap::line_chars(b, l - 1))
    }
}

/// The search matches on line `l`, among the first `n`: first byte, length, and
/// whether it is the one in focus.
pub open spec fn marks_upto(s: SearchView, l: int, n: int) -> Seq<(usize, usize, bool)>
    decreases n,
{
    if n <= 0 {
        Seq::empty()
    } else {
        let m = s.matches[n - 1];
        if m.0 == l {
            marks_upto(s, l, n - 1).push((m.1, m.2, n - 1 == s.current))
        } else {
            marks_upto(s, l, n - 1)
        }
    }
}

/// The search matches on line `l`; none unless a search is on.
pub open spec fn marks_on(s: Option<SearchView>, l: int) -> Seq<(usize, usize, bool)> {
    match s {
        Some(v) => marks_upto(v, l, v.matches.len() as int),
        None => Seq::empty(),
    }
}

/// The bytes of line `l` that are selected.
pub open spec fn selected_on(e: EditorView, l: int) -> Option<(int, int)> {
    match editing::selection(e) {
        None => None,
        Some((a, b)) => {
            let starts = spans::line_starts(e.bytes);
            let from = starts[l];
            let to = spans::line_stop(starts, e.bytes.len() as int, l);
            let lo = overlay::greatest(a, from) - from;
            let hi = overlay::least(b, to) - from;
            if hi > lo {
                Some((lo, hi))
            } else {
                None
            }
        },
    }
}

/// A line with its selection.
pub open spec fn with_selection(line: Seq<SpanView>, sel: Option<(int, int)>) -> Seq<SpanView> {
    match sel {
        Some((lo, hi)) => overlay::selected(line, lo, hi),
        None => line,
    }
}

/// Line `l` is code: the fences too.
pub open spec fn is_code(b: Seq<u8>, l: int) -> bool {
    highlight::fence_line(wrap::line_chars(b, l)) || fenced(b, l)
}

/// Line `l` with its styles: gray in a block of code, else highlighted, with the
/// search matches and the selection over it.
pub open spec fn styled(e: EditorView, s: Option<SearchView>, l: int) -> Seq<SpanView> {
    let content = wrap::line_chars(e.bytes, l);
    if is_code(e.bytes, l) {
        with_selection(
            seq![style::run(content, Style::colored(Color::DarkGray))],
            selected_on(e, l),
        )
    } else {
        with_selection(
            overlay::searched(highlight::normal_line(content), marks_on(s, l)),
            selected_on(e, l),
        )
    }
}

/// Line `l` is shown as a decorated rule: a delimiter line without cursor, match
/// and selection.
pub open spec fn is_decorated(e: EditorView, s: Option<SearchView>, l: int) -> bool {
    &&& !is_code(e.bytes, l)
    &&& highlight::delimiter_line(wrap::line_chars(e.bytes, l))
    &&& l != e.line
    &&& marks_on(s, l).len() == 0
    &&& selected_on(e, l) is None
}

/// The rows of a line's text, as byte ranges.
pub open spec fn ranges(e: EditorView, l: int, width: int) -> Seq<(int, int)> {
    let content = wrap::line_chars(e.bytes, l);
    if e.wrap && width > 0 {
        editing::byte_rows(content, width)
    } else {
        seq![(0, encode_utf8(content).len() as int)]
    }
}

/// The first `n` of the pieces of a styled line.
pub open spec fn pieces(line: Seq<SpanView>, rs: Seq<(int, int)>, n: int) -> Seq<Seq<SpanView>> {
    Seq::new(n as nat, |k: int| overlay::sliced(line, rs[k].0, rs[k].1))
}

/// The rows of line `l`; a tilde below the last line.
pub open spec fn line_rows(e: EditorView, s: Option<SearchView>, l: int, width: int) -> Seq<
    Seq<SpanView>,
> {
    if l >= editing::line_count(e) {
        seq![seq![style::run("~"@, Style::colored(Color::DarkGray))]]
    } else if is_decorated(e, s, l) {
        seq![delimiter::decorated(wrap::line_chars(e.bytes, l), width)]
    } else {
        let rs = ranges(e, l, width);
        pieces(styled(e, s, l), rs, rs.len() as int)
    }
}

/// At most the first `n` rows.
pub open spec fn first_rows(rows: Seq<Seq<SpanView>>, n: int) -> Seq<Seq<SpanView>> {
    if rows.len() > n {
        rows.subrange(0, n)
    } else {
        rows
    }
}

/// The rows of an area of `n` rows whose first line is `l`.
pub open spec fn rows_from(e: EditorView, s: Option<SearchView>, l: int, width: int, n: int) -> Seq<
    Seq<SpanView>,
>
    decreases n,
{
    if n <= 0 {
        Seq::empty()
    } else {
        let here = line_rows(e, s, l, width);
        if here.len() == 0 || here.len() >= n {
            first_rows(here, n)
        } else {
            here + rows_from(e, s, l + 1, width, n - here.len())
        }
    }
}

/// Every line takes a row.
pub proof fn lemma_line_rows(e: EditorView, s: Option<SearchView>, l: int, width: int)
    requires
        width >= 0,
    ensures
        line_rows(e, s, l, width).len() >= 1,
        ranges(e, l, width).len() >= 1,
{
    editing::lemma_byte_rows(wrap::line_chars(e.bytes, l), width);
}

pub open spec fn view_of(s: Option<&SearchState>) -> Option<SearchView> {
    match s {
        Some(v) => Some(v@),
        None => None,
    }
}

/// The search is sound.
pub open spec fn search_ok(s: Option<&SearchState>) -> bool {
    s matches Some(v) ==> v.wf()
}

fn find_marks(search: Option<&SearchState>, l: usize) -> (r: Vec<(usize, usize, bool)>)
    ensures
        r@ == marks_on(view_of(search), l as int),
        forall|k: int|
            0 <= k < r.len() ==> exists|i: int|
                0 <= i < view_of(search)->Some_0.matches.len() && (#[trigger] r@[k]).0
                    == (#[trigger] view_of(search)->Some_0.matches[i]).1 && r@[k].1
                    == view_of(search)->Some_0.matches[i].2,
{
    let mut out: Vec<(usize, usize, bool)> = Vec::new();
    if let Some(s) = search {
        let mut i: usize = 0;
        while i < s.matches.len()
            invariant
                i <= s.matches.len(),
                out@ == marks_upto(s@, l as int, i as int),
                forall|k: int|
                    0 <= k < out.len() ==> exists|j: int|
                        0 <= j < s@.matches.len() && (#[trigger] out@[k]).0 == (
                        #[trigger] s@.matches[j]).1 && out@[k].1 == s@.matches[j].2,
            decreases s.matches.len() - i,
        {
            let m = s.matches[i];
            if m.0 == l {
                let ghost before = out@;
                out.push((m.1, m.2, i == s.current));
                proof {
                    assert forall|k: int| 0 <= k < out.len() implies exists|j: int|
                        0 <= j < s@.matches.len() && (#[trigger] out@[k]).0 == (
                        #[trigger] s@.matches[j]).1 && out@[k].1 == s@.matches[j].2 by {
                        if k < before.len() {
                            assert(out@[k] == before[k]);
                        } else {
                            assert(s@.matches[i as int] == m);
                        }
                    }
                }
            }
            i += 1;
        }
    }
    out
}

fn find_selected(editor: &Editor, l: usize) -> (r: Option<(usize, usize)>)
    requires
        editor.wf(),
        l < editing::line_count(editor@),
    ensures
        match (r, selected_on(editor@, l as int)) {
            (Some(a), Some(b)) => (a.0 as int, a.1 as int) == b,
            (None, None) => true,
            _ => false,
        },
{
    match editor.selection_span() {
        None => None,
        Some(s) => {
            let from = positions::start_of_line(&editor.buffer, l);
            let line = positions::text_of_line(&editor.buffer, l);
            let n = text::byte_len(line);
            let total = editor.buffer.len();
            proof {
                spans::lemma_line_starts(editor@.bytes);
                wrap::lemma_line_valid(editor@.bytes, l as int);
            }
            let to = from + n;
            let lo = if s.start >= from {
                s.start
            } else {
                from
            };
            let hi = if s.end <= to {
                s.end
            } else {
                to
            };
            if hi > lo {
                Some((lo - from, hi - from))
            } else {
                None
            }
        },
    }
}

fn style_line(
    editor: &Editor,
    code: bool,
    content: &str,
    marks: &Vec<(usize, usize, bool)>,
    sel: Option<(usize, usize)>,
) -> (r: StyledLine)
    requires
        forall|i: int|
            0 <= i < marks.len() ==> (#[trigger] marks@[i]).0 + marks@[i].1 <= usize::MAX,
    ensures
        r@ == with_selection(
            if code {
                seq![style::run(content@, Style::colored(Color::DarkGray))]
            } else {
                overlay::searched(highlight::normal_line(content@), marks@)
            },
            match sel {
                Some(p) => Some((p.0 as int, p.1 as int)),
                None => None,
            },
        ),
{
    let line = if code {
        StyledLine::of(content, Style::fg(Color::DarkGray))
    } else {
        overlay::overlay_search_matches(highlight::highlight_normal_line(content), marks)
    };
    match sel {
        Some((lo, hi)) => overlay::overlay_selection(line, lo, hi),
        None => line,
    }
}

/// The rows of a line's text, as byte ranges.
fn find_ranges(editor: &Editor, content: &str, l: usize, width: usize) -> (r: Vec<(usize, usize)>)
    requires
        content@ == wrap::line_chars(editor@.bytes, l as int),
    ensures
        r.len() == ranges(editor@, l as int, width as int).len(),
        r.len() >= 1,
        forall|k: int|
            0 <= k < r.len() ==> ((#[trigger] r@[k]).0 as int, r@[k].1 as int) == ranges(
                editor@,
                l as int,
                width as int,
            )[k],
{
    proof {
        editing::lemma_byte_rows(content@, width as int);
    }
    if editor.line_wrap && width > 0 {
        wrap::wrap_segments(content, width)
    } else {
        let mut one: Vec<(usize, usize)> = Vec::new();
        one.push((0, text::byte_len(content)));
        one
    }
}

/// Adds the pieces of a line, as many as there is room for.
fn push_pieces(
    rows: &mut Vec<StyledLine>,
    line: &StyledLine,
    segs: &Vec<(usize, usize)>,
    height: usize,
    Ghost(rs): Ghost<Seq<(int, int)>>,
)
    requires
        old(rows).len() < height,
        segs.len() == rs.len(),
        forall|k: int|
            0 <= k < segs.len() ==> ((#[trigger] segs@[k]).0 as int, segs@[k].1 as int) == rs[k],
    ensures
        style::lines_view(final(rows)@) == style::lines_view(old(rows)@) + first_rows(
            pieces(line@, rs, rs.len() as int),
            height - old(rows).len(),
        ),
{
    let ghost start = style::lines_view(rows@);
    let before = rows.len();
    let ghost all = pieces(line@, rs, rs.len() as int);
    let mut k: usize = 0;
    proof {
        assert(start + all.subrange(0, 0) =~= start);
    }
    while k < segs.len() && rows.len() < height
        invariant
            k <= segs.len(),
            segs.len() == rs.len(),
            all == pieces(line@, rs, rs.len() as int),
            forall|i: int|
                0 <= i < segs.len() ==> ((#[trigger] segs@[i]).0 as int, segs@[i].1 as int)
                    == rs[i],
            rows.len() == before + k,
            before + k <= height,
            before < height,
            style::lines_view(rows@) == start + all.subrange(0, k as int),
        decreases segs.len() - k,
    {
        let ghost now = style::lines_view(rows@);
        let piece = overlay::slice_line(line, segs[k].0, segs[k].1);
        rows.push(piece);
        k += 1;
        proof {
            assert(style::lines_view(rows@) =~= now.push(piece@));
            assert(segs@[k - 1].0 as int == rs[k - 1].0);
            assert(all[k - 1] == piece@);
            assert(style::lines_view(rows@) =~= start + all.subrange(0, k as int));
        }
    }
    proof {
        assert(all.subrange(0, k as int) =~= first_rows(all, height - before));
    }
}

fn push_row(rows: &mut Vec<StyledLine>, line: StyledLine)
    ensures
        style::lines_view(final(rows)@) == style::lines_view(old(rows)@) + seq![line@],
{
    let ghost before = style::lines_view(rows@);
    rows.push(line);
    proof {
        assert(style::lines_view(rows@) =~= before + seq![line@]);
    }
}

/// Adds the rows of a line, as many as there is room for.
fn push_line(
    rows: &mut Vec<StyledLine>,
    editor: &Editor,
    search: Option<&SearchState>,
    in_fence: bool,
    l: usize,
    width: usize,
    height: usize,
)
    requires
        editor.wf(),
        search_ok(search),
        l < editing::line_count(editor@),
        in_fence == fenced(editor@.bytes, l as int),
        old(rows).len() < height,
    ensures
        style::lines_view(final(rows)@) == style::lines_view(old(rows)@) + first_rows(
            line_rows(editor@, view_of(search), l as int, width as int),
            height - old(rows).len(),
        ),
{
    let content = positions::content_of_line(&editor.buffer, l);
    let fence = highlight::is_fence_line(content);
    let code = fence || in_fence;
    let marks = find_marks(search, l);
    let sel = find_selected(editor, l);
    let _n = editor.buffer.len();
    let _c = editor.buffer.line_count();
    proof {
        if let Some(s) = search {
            assert forall|k: int| 0 <= k < marks.len() implies (#[trigger] marks@[k]).0
                + marks@[k].1 <= usize::MAX by {
                let i = choose|i: int|
                    0 <= i < view_of(search)->Some_0.matches.len() && marks@[k].0 == (
                    #[trigger] view_of(search)->Some_0.matches[i]).1 && marks@[k].1
                        == view_of(search)->Some_0.matches[i].2;
                assert(s@.matches[i].1 + s@.matches[i].2 <= usize::MAX);
            }
        }
    }
    if !code && highlight::is_delimiter(content) && l != editor.cursor_line && marks.len() == 0
        && sel.is_none() {
        let line = delimiter::render_decorated_delimiter(content, width);
        let ghost before = style::lines_view(rows@);
        push_row(rows, line);
        proof {
            assert(first_rows(seq![line@], height - old(rows).len()) =~= seq![line@]);
        }
        return;
    }
    let line = style_line(editor, code, content, &marks, sel);
    let segs = find_ranges(editor, content, l, width);
    push_pieces(
        rows,
        &line,
        &segs,
        height,
        Ghost(ranges(editor@, l as int, width as int)),
    );
}

/// The rows of the text area.
pub open spec fn area_rows(e: EditorView, s: Option<SearchView>, width: int, height: int) -> Seq<
    Seq<SpanView>,
> {
    rows_from(e, s, e.scroll, width, height)
}

fn fence_before(editor: &Editor, l: usize) -> (r: bool)
    requires
        editor.wf(),
        l <= editing::line_count(editor@),
    ensures
        r == fenced(editor@.bytes, l as int),
{
    let mut open = false;
    let mut i: usize = 0;
    while i < l
        invariant
            i <= l <= editing::line_count(editor@),
            editor.wf(),
            open == fenced(editor@.bytes, i as int),
        decreases l - i,
    {
        if highlight::is_fence_line(positions::content_of_line(&editor.buffer, i)) {
            open = !open;
        }
        i += 1;
    }
    open
}

/// The rows of a text area of the given size, with the matches of a search if one
/// is on.
pub fn render_text(
    editor: &Editor,
    search: Option<&SearchState>,
    width: usize,
    height: usize,
) -> (r: Vec<StyledLine>)
    requires
        editor.wf(),
        search_ok(search),
    ensures
        style::lines_view(r@) == area_rows(editor@, view_of(search), width as int, height as int),
{
    let count = editor.buffer.line_count();
    let ghost e = editor@;
    let ghost s = view_of(search);
    let ghost all = area_rows(e, s, width as int, height as int);
    let mut rows: Vec<StyledLine> = Vec::new();
    let mut l: usize = editor.scroll;
    let top = if editor.scroll < count {
        editor.scroll
    } else {
        count
    };
    let mut in_fence = fence_before(editor, top);
    proof {
        assert(style::lines_view(rows@) + all =~= all);
    }
    while rows.len() < height && l < count
        invariant
            editor.wf(),
            search_ok(search),
            count == editing::line_count(editor@),
            e == editor@,
            s == view_of(search),
            all == area_rows(e, s, width as int, height as int),
            rows.len() <= height,
            l < count ==> in_fence == fenced(e.bytes, l as int),
            style::lines_view(rows@) + rows_from(e, s, l as int, width as int, height - rows.len()) == all,
        decreases count - l,
    {
        let ghost before = style::lines_view(rows@);
        let had = rows.len();
        proof {
            lemma_line_rows(e, s, l as int, width as int);
            assert(before.len() == had);
        }
        push_line(&mut rows, editor, search, in_fence, l, width, height);
        if highlight::is_fence_line(positions::content_of_line(&editor.buffer, l)) {
            in_fence = !in_fence;
        }
        proof {
            let here = line_rows(e, s, l as int, width as int);
            let shown = first_rows(here, height - had);
            assert(style::lines_view(rows@).len() == rows@.len());
            if here.len() >= height - had {
                assert(rows_from(e, s, l + 1, width as int, height - rows.len())
                    =~= Seq::<Seq<SpanView>>::empty());
                assert(style::lines_view(rows@) + rows_from(e, s, l + 1, width as int, height - rows.len())
                    =~= before + shown);
            } else {
                assert(shown == here);
                assert(style::lines_view(rows@) + rows_from(e, s, l + 1, width as int, height - rows.len())
                    =~= before + (here + rows_from(
                    e,
                    s,
                    l + 1,
                    width as int,
                    height - had - here.len(),
                )));
            }
        }
        l += 1;
    }
    let ghost mut below: int = l as int;
    while rows.len() < height
        invariant
            count == editing::line_count(editor@),
            e == editor@,
            below >= count || rows.len() >= height,
            rows.len() <= height,
            style::lines_view(rows@) + rows_from(e, s, below, width as int, height - rows.len()) == all,
        decreases height - rows.len(),
    {
        let ghost before = style::lines_view(rows@);
        let had = rows.len();
        push_row(&mut rows, StyledLine::of("~", Style::fg(Color::DarkGray)));
        proof {
            assert(style::lines_view(rows@).len() == rows@.len());
            let here = line_rows(e, s, below, width as int);
            let rest = rows_from(e, s, below + 1, width as int, height - rows.len());
            if height - had == 1 {
                assert(rest =~= Seq::<Seq<SpanView>>::empty());
                assert(style::lines_view(rows@) + rest =~= before + first_rows(here, 1));
            } else {
                assert(style::lines_view(rows@) + rest =~= before + (here + rest));
            }
            below = below + 1;
        }
    }
    proof {
        assert(style::lines_view(rows@) + rows_from(e, s, below, width as int, height - rows.len())
            =~= style::lines_view(rows@));
    }
    rows
}

// ---------------------------------------------------------------------------
// Cursor
// ---------------------------------------------------------------------------

/// Rows that the lines from `l` up to `to` take.
pub open spec fn rows_above(e: EditorView, s: Option<SearchView>, l: int, to: int, width: int) -> int
    decreases to - l,
{
    if l >= to {
        0
    } else {
        line_rows(e, s, l, width).len() + rows_above(e, s, l + 1, to, width)
    }
}

/// The row of a line on which the cursor is drawn: the first that holds `byte`, ends
/// included; the last one behind the text; else, between two rows, the first one.
pub open spec fn cursor_row(rows: Seq<(int, int)>, byte: int) -> int {
    match editing::row_holding(rows, 0, byte) {
        Some(k) => k,
        None => if byte > rows.last().1 {
            rows.len() - 1
        } else {
            0
        },
    }
}

/// The visual column of the cursor in its row.
pub open spec fn cursor_col(e: EditorView, width: int) -> int {
    let content = editing::cursor_line(e);
    let rs = ranges(e, e.line, width);
    let from = rs[cursor_row(rs, e.byte)].0;
    let n = encode_utf8(content).len() as int;
    let at = if e.byte < n {
        e.byte
    } else {
        n
    };
    wrap::column_of(
        decode_utf8(encode_utf8(content).subrange(from, n)),
        if at > from {
            at - from
        } else {
            0
        },
    )
}

/// Column and row of the terminal cursor in the text area; none where the
/// cursor's line is not shown.
pub open spec fn cursor_cell(e: EditorView, s: Option<SearchView>, width: int, height: int) -> Option<
    (int, int),
> {
    let base = rows_above(e, s, e.scroll, e.line, width);
    if e.line < e.scroll || base >= height {
        None
    } else {
        let row = base + cursor_row(ranges(e, e.line, width), e.byte);
        let col = cursor_col(e, width);
        Some(
            (
                if col < width {
                    col
                } else if width > 0 {
                    width - 1
                } else {
                    0
                },
                if row < height {
                    row
                } else {
                    height - 1
                },
            ),
        )
    }
}

/// The row of a line on which the cursor is drawn.
fn find_range(segs: &Vec<(usize, usize)>, byte: usize, Ghost(rs): Ghost<Seq<(int, int)>>) -> (r:
    usize)
    requires
        segs.len() >= 1,
        segs.len() == rs.len(),
        forall|k: int|
            0 <= k < segs.len() ==> ((#[trigger] segs@[k]).0 as int, segs@[k].1 as int) == rs[k],
    ensures
        r == cursor_row(rs, byte as int),
        r < segs.len(),
{
    let mut k: usize = 0;
    while k < segs.len()
        invariant
            k <= segs.len(),
            segs.len() == rs.len(),
            forall|i: int|
                0 <= i < segs.len() ==> ((#[trigger] segs@[i]).0 as int, segs@[i].1 as int)
                    == rs[i],
            editing::row_holding(rs, k as int, byte as int) == editing::row_holding(
                rs,
                0,
                byte as int,
            ),
        decreases segs.len() - k,
    {
        proof {
            assert((segs@[k as int].0 as int, segs@[k as int].1 as int) == rs[k as int]);
        }
        if segs[k].0 <= byte && byte <= segs[k].1 {
            return k;
        }
        k += 1;
    }
    let last = segs.len() - 1;
    proof {
        assert((segs@[last as int].0 as int, segs@[last as int].1 as int) == rs[last as int]);
    }
    if byte > segs[last].1 {
        last
    } else {
        0
    }
}

/// Number of rows that line `l` takes.
fn count_rows(editor: &Editor, search: Option<&SearchState>, in_fence: bool, l: usize, width: usize) -> (r:
    usize)
    requires
        editor.wf(),
        l < editing::line_count(editor@),
        in_fence == fenced(editor@.bytes, l as int),
    ensures
        r == line_rows(editor@, view_of(search), l as int, width as int).len(),
        r >= 1,
{
    let content = positions::content_of_line(&editor.buffer, l);
    let code = highlight::is_fence_line(content) || in_fence;
    let marks = find_marks(search, l);
    if !code && highlight::is_delimiter(content) && l != editor.cursor_line && marks.len() == 0
        && find_selected(editor, l).is_none() {
        return 1;
    }
    find_ranges(editor, content, l, width).len()
}

/// Where the terminal cursor stands in a text area of the given size: column and
/// row.
pub fn cursor_position(
    editor: &Editor,
    search: Option<&SearchState>,
    width: usize,
    height: usize,
) -> (r: Option<(usize, usize)>)
    requires
        editor.wf(),
    ensures
        match (r, cursor_cell(editor@, view_of(search), width as int, height as int)) {
            (Some(a), Some(b)) => (a.0 as int, a.1 as int) == b,
            (None, None) => true,
            _ => false,
        },
{
    let ghost e = editor@;
    let ghost s = view_of(search);
    if editor.cursor_line < editor.scroll {
        return None;
    }
    let count = editor.buffer.line_count();
    let mut in_fence = fence_before(editor, editor.scroll);
    let mut base: usize = 0;
    let mut l: usize = editor.scroll;
    while l < editor.cursor_line
        invariant
            editor.wf(),
            e == editor@,
            s == view_of(search),
            e.scroll <= l <= editor.cursor_line,
            in_fence == fenced(e.bytes, l as int),
            base < height || l == e.scroll,
            base + rows_above(e, s, l as int, e.line, width as int) == rows_above(
                e,
                s,
                e.scroll,
                e.line,
                width as int,
            ),
        decreases editor.cursor_line - l,
    {
        let n = count_rows(editor, search, in_fence, l, width);
        proof {
            lemma_rows_above(e, s, l + 1, e.line, width as int);
        }
        if height <= n || base >= height - n {
            return None;
        }
        base = base + n;
        if highlight::is_fence_line(positions::content_of_line(&editor.buffer, l)) {
            in_fence = !in_fence;
        }
        l += 1;
    }
    if base >= height {
        return None;
    }
    let content = positions::content_of_line(&editor.buffer, editor.cursor_line);
    let segs = find_ranges(editor, content, editor.cursor_line, width);
    let ghost rs = ranges(e, e.line, width as int);
    let k = find_range(&segs, editor.cursor_byte, Ghost(rs));
    let from = segs[k].0;
    let n = text::byte_len(content);
    proof {
        editing::lemma_byte_rows(content@, width as int);
        text::lemma_boundary_ends(content@);
        assert((segs@[k as int].0 as int, segs@[k as int].1 as int) == rs[k as int]);
    }
    let rest = text::slice(content, from, n);
    let at = if editor.cursor_byte < n {
        editor.cursor_byte
    } else {
        n
    };
    let local: usize = if at > from {
        at - from
    } else {
        0
    };
    proof {
        encode_utf8_decode_utf8(rest@);
        encode_utf8_valid_utf8(editor.buffer@);
        let c = encode_utf8(content@);
        wrap::lemma_line_valid(e.bytes, e.line);
        if local < encode_utf8(rest@).len() {
            if at > from {
                positions::lemma_line_boundary(e.bytes, e.line, e.byte);
                assert(wrap::line_of(e.bytes, e.line)[e.byte] == c[e.byte]);
                text::lemma_boundary_piece(c, from as int, n as int, local as int);
            } else {
                text::lemma_boundary_piece(c, from as int, n as int, 0);
            }
        }
    }
    let vcol = wrap::visual_col_for_byte(rest, local);
    let col = if vcol < width {
        vcol
    } else if width > 0 {
        width - 1
    } else {
        0
    };
    let row = if k < height - base {
        base + k
    } else {
        height - 1
    };
    Some((col, row))
}

proof fn lemma_rows_above(e: EditorView, s: Option<SearchView>, l: int, to: int, width: int)
    ensures
        rows_above(e, s, l, to, width) >= 0,
    decreases to - l,
{
    if l < to {
        lemma_rows_above(e, s, l + 1, to, width);
    }
}

// ---------------------------------------------------------------------------
// Laws
// ---------------------------------------------------------------------------

/// The text area is always filled: it has exactly as many rows as it is high.
pub proof fn law_area_is_filled(
    e: EditorView,
    s: Option<SearchView>,
    l: int,
    width: int,
    n: int,
)
    requires
        width >= 0,
        n >= 0,
    ensures
        rows_from(e, s, l, width, n).len() == n,
    decreases n,
{
    if n > 0 {
        lemma_line_rows(e, s, l, width);
        let here = line_rows(e, s, l, width);
        if here.len() < n {
            law_area_is_filled(e, s, l + 1, width, n - here.len());
        }
    }
}

/// The cursor's cell lies in the text area.
pub proof fn law_cursor_in_area(e: EditorView, s: Option<SearchView>, width: int, height: int)
    requires
        width > 0,
        e.byte >= 0,
    ensures
        cursor_cell(e, s, width, height) matches Some((col, row)) ==> col < width && row < height,
{
}

} // verus!
