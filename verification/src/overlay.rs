//! Highlights laid over styled lines: search matches, the selection, and the
//! slices of a line that word wrap shows.

use vstd::prelude::*;
use vstd::utf8::*;

use crate::style;
use crate::style::{Color, SpanView, Style, StyledLine};
use crate::text;

verus! {

// ---------------------------------------------------------------------------
// Runs by byte
// ---------------------------------------------------------------------------

/// Bytes of the first `k` runs.
pub open spec fn run_start(line: Seq<SpanView>, k: int) -> int
    decreases k,
{
    if k <= 0 {
        0
    } else {
        run_start(line, k - 1) + encode_utf8(line[k - 1].text).len()
    }
}

/// The text of the line as bytes.
pub open spec fn line_bytes(line: Seq<SpanView>) -> Seq<u8> {
    encode_utf8(style::text_of(line))
}

/// The style at byte `p`: that of the run it lies in.
pub open spec fn style_at(line: Seq<SpanView>, k: int, p: int) -> Style
    decreases line.len() - k,
{
    if k < 0 || k >= line.len() {
        style::bare()
    } else if run_start(line, k) <= p < run_start(line, k + 1) {
        line[k].style
    } else {
        style_at(line, k + 1, p)
    }
}

/// A run of the line ends at byte `p`.
pub open spec fn run_ends(line: Seq<SpanView>, p: int) -> bool {
    exists|k: int| 1 <= k <= line.len() && #[trigger] run_start(line, k) == p
}

proof fn lemma_run_start(line: Seq<SpanView>, k: int)
    requires
        0 <= k <= line.len(),
    ensures
        run_start(line, k) == line_bytes(line.subrange(0, k)).len(),
        0 <= run_start(line, k) <= line_bytes(line).len(),
    decreases k,
{
    if k > 0 {
        lemma_run_start(line, k - 1);
        let front = line.subrange(0, k);
        assert(front.drop_last() =~= line.subrange(0, k - 1));
        text::lemma_encode_concat(style::text_of(front.drop_last()), front.last().text);
    } else {
        assert(line.subrange(0, 0) =~= Seq::<SpanView>::empty());
        assert(style::text_of(line.subrange(0, 0)) =~= Seq::<char>::empty());
    }
    let rest = line.subrange(k, line.len() as int);
    assert(line =~= line.subrange(0, k) + rest);
    style::lemma_text_of_concat(line.subrange(0, k), rest);
    text::lemma_encode_concat(style::text_of(line.subrange(0, k)), style::text_of(rest));
}

// ---------------------------------------------------------------------------
// Marks
// ---------------------------------------------------------------------------

/// What a mark shows.
#[derive(Debug, Clone, Copy, PartialEq, Eq, Structural)]
pub enum Hue {
    /// A search match.
    Match,
    /// The focused search match.
    Current,
    /// The selection.
    Selected,
}

/// A highlight over the bytes `[start, end)` of a line.
#[derive(Debug, Clone, Copy, PartialEq, Eq, Structural)]
pub struct Mark {
    pub start: usize,
    pub end: usize,
    pub hue: Hue,
}

/// A style under a mark: a yellow background for a match, a bold one on light
/// green for the current match, and a blue background for the selection.
pub open spec fn tinted(base: Style, hue: Hue) -> Style {
    match hue {
        Hue::Match => base.spec_on(Color::Yellow),
        Hue::Current => base.spec_on(Color::LightGreen).spec_bold(),
        Hue::Selected => base.spec_on(Color::Rgb(60, 80, 110)),
    }
}

fn tint(base: Style, hue: Hue) -> (r: Style)
    ensures
        r == tinted(base, hue),
{
    match hue {
        Hue::Match => base.with_bg(Color::Yellow),
        Hue::Current => base.with_bg(Color::LightGreen).with_bold(),
        Hue::Selected => base.with_bg(Color::Rgb(60, 80, 110)),
    }
}

/// The style at byte `p` of a marked line: the first mark over it decides.
pub open spec fn marked_style(base: Style, marks: Seq<Mark>, i: int, p: int) -> Style
    decreases marks.len() - i,
{
    if i < 0 || i >= marks.len() {
        base
    } else if marks[i].start <= p < marks[i].end {
        tinted(base, marks[i].hue)
    } else {
        marked_style(base, marks, i + 1, p)
    }
}

/// A mark starts or ends at byte `p`.
pub open spec fn mark_edge(m: Mark, total: int, p: int) -> bool {
    (m.start == p && p < total) || p == if m.end <= total {
        m.end as int
    } else {
        total
    }
}

/// The line is cut at byte `p`.
pub open spec fn is_cut(line: Seq<SpanView>, marks: Seq<Mark>, p: int) -> bool {
    let total = line_bytes(line).len() as int;
    ||| p == total
    ||| run_ends(line, p)
    ||| exists|i: int| 0 <= i < marks.len() && mark_edge(#[trigger] marks[i], total, p)
}

/// The first cut after byte `p`.
pub open spec fn next_cut(line: Seq<SpanView>, marks: Seq<Mark>, p: int) -> int
    decreases line_bytes(line).len() - p,
{
    if p + 1 >= line_bytes(line).len() || is_cut(line, marks, p + 1) {
        p + 1
    } else {
        next_cut(line, marks, p + 1)
    }
}

/// The runs of a marked line from byte `p` on. A piece that begins or ends inside
/// a character is not shown.
pub open spec fn marked_from(line: Seq<SpanView>, marks: Seq<Mark>, p: int) -> Seq<SpanView>
    decreases line_bytes(line).len() - p,
{
    let b = line_bytes(line);
    if p < 0 || p >= b.len() {
        Seq::empty()
    } else {
        proof {
            lemma_next_cut(line, marks, p);
        }
        let q = next_cut(line, marks, p);
        let piece = if text::on_boundary(b, p) && text::on_boundary(b, q) {
            seq![
                style::run(
                    decode_utf8(b.subrange(p, q)),
                    marked_style(style_at(line, 0, p), marks, 0, p),
                ),
            ]
        } else {
            Seq::empty()
        };
        piece + marked_from(line, marks, q)
    }
}

/// The runs of a marked line; one empty run where nothing is shown.
pub open spec fn marked(line: Seq<SpanView>, marks: Seq<Mark>) -> Seq<SpanView> {
    let runs = marked_from(line, marks, 0);
    if runs.len() == 0 {
        seq![style::raw(Seq::empty())]
    } else {
        runs
    }
}

pub proof fn lemma_next_cut(line: Seq<SpanView>, marks: Seq<Mark>, p: int)
    requires
        0 <= p < line_bytes(line).len(),
    ensures
        p < next_cut(line, marks, p) <= line_bytes(line).len(),
    decreases line_bytes(line).len() - p,
{
    if !(p + 1 >= line_bytes(line).len() || is_cut(line, marks, p + 1)) {
        lemma_next_cut(line, marks, p + 1);
    }
}

/// The byte at which each run ends.
fn ends_of(line: &StyledLine) -> (r: Vec<usize>)
    ensures
        r.len() == line@.len(),
        forall|k: int| 0 <= k < r.len() ==> r[k] == #[trigger] run_start(line@, k + 1),
{
    let mut out: Vec<usize> = Vec::new();
    let mut sum: usize = 0;
    let mut i: usize = 0;
    let full = line.plain_text();
    let total = text::byte_len(full.as_str());
    while i < line.spans.len()
        invariant
            i <= line.spans.len(),
            out.len() == i,
            total == line_bytes(line@).len(),
            sum == run_start(line@, i as int),
            forall|k: int| 0 <= k < i ==> out[k] == #[trigger] run_start(line@, k + 1),
        decreases line.spans.len() - i,
    {
        proof {
            assert(line@[i as int] == line.spans@[i as int]@);
            lemma_run_start(line@, i + 1);
        }
        sum = sum + text::byte_len(line.spans[i].content.as_str());
        out.push(sum);
        i += 1;
    }
    out
}

fn cut_at(
    line: &StyledLine,
    ends: &Vec<usize>,
    marks: &Vec<Mark>,
    total: usize,
    p: usize,
) -> (r: bool)
    requires
        total == line_bytes(line@).len(),
        ends.len() == line@.len(),
        forall|k: int| 0 <= k < ends.len() ==> ends[k] == #[trigger] run_start(line@, k + 1),
    ensures
        r == is_cut(line@, marks@, p as int),
{
    if p == total {
        return true;
    }
    let mut i: usize = 0;
    while i < ends.len()
        invariant
            i <= ends.len(),
            ends.len() == line@.len(),
            forall|k: int| 0 <= k < ends.len() ==> ends[k] == #[trigger] run_start(line@, k + 1),
            forall|k: int| 1 <= k <= i ==> #[trigger] run_start(line@, k) != p,
        decreases ends.len() - i,
    {
        proof {
            assert(ends[i as int] == run_start(line@, i + 1));
        }
        if ends[i] == p {
            return true;
        }
        i += 1;
    }
    let mut j: usize = 0;
    while j < marks.len()
        invariant
            j <= marks.len(),
            total == line_bytes(line@).len(),
            forall|k: int|
                0 <= k < j ==> !mark_edge(#[trigger] marks@[k], total as int, p as int),
        decreases marks.len() - j,
    {
        let m = marks[j];
        let stop = if m.end <= total {
            m.end
        } else {
            total
        };
        if (m.start == p && p < total) || stop == p {
            proof {
                assert(mark_edge(marks@[j as int], total as int, p as int));
                assert(total == line_bytes(line@).len() ==> is_cut(line@, marks@, p as int));
            }
            return true;
        }
        j += 1;
    }
    false
}

fn find_style(line: &StyledLine, ends: &Vec<usize>, p: usize) -> (r: Style)
    requires
        ends.len() == line@.len(),
        forall|k: int| 0 <= k < ends.len() ==> ends[k] == #[trigger] run_start(line@, k + 1),
    ensures
        r == style_at(line@, 0, p as int),
{
    let mut start: usize = 0;
    let mut i: usize = 0;
    while i < ends.len()
        invariant
            i <= ends.len(),
            ends.len() == line@.len(),
            forall|k: int| 0 <= k < ends.len() ==> ends[k] == #[trigger] run_start(line@, k + 1),
            start == run_start(line@, i as int),
            style_at(line@, i as int, p as int) == style_at(line@, 0, p as int),
        decreases ends.len() - i,
    {
        proof {
            assert(ends[i as int] == run_start(line@, i + 1));
            assert(line@[i as int] == line.spans@[i as int]@);
        }
        if start <= p && p < ends[i] {
            return line.spans[i].style;
        }
        start = ends[i];
        i += 1;
    }
    Style::plain()
}

fn apply_marks(base: Style, marks: &Vec<Mark>, p: usize) -> (r: Style)
    ensures
        r == marked_style(base, marks@, 0, p as int),
{
    let mut i: usize = 0;
    while i < marks.len()
        invariant
            i <= marks.len(),
            marked_style(base, marks@, i as int, p as int) == marked_style(
                base,
                marks@,
                0,
                p as int,
            ),
        decreases marks.len() - i,
    {
        if marks[i].start <= p && p < marks[i].end {
            return tint(base, marks[i].hue);
        }
        i += 1;
    }
    base
}

/// The line with the marks laid over it.
fn restyle(line: &StyledLine, marks: &Vec<Mark>) -> (r: StyledLine)
    ensures
        r@ == marked(line@, marks@),
{
    let full = line.plain_text();
    let total = text::byte_len(full.as_str());
    let ends = ends_of(line);
    let mut out = StyledLine::new();
    let mut p: usize = 0;
    while p < total
        invariant
            p <= total,
            full@ == style::text_of(line@),
            total == line_bytes(line@).len(),
            ends.len() == line@.len(),
            forall|k: int| 0 <= k < ends.len() ==> ends[k] == #[trigger] run_start(line@, k + 1),
            out@ + marked_from(line@, marks@, p as int) == marked_from(line@, marks@, 0),
        decreases total - p,
    {
        let mut q: usize = p + 1;
        while q < total && !cut_at(line, &ends, marks, total, q)
            invariant
                p < q <= total,
                total == line_bytes(line@).len(),
                ends.len() == line@.len(),
                forall|k: int|
                    0 <= k < ends.len() ==> ends[k] == #[trigger] run_start(line@, k + 1),
                next_cut(line@, marks@, q - 1) == next_cut(line@, marks@, p as int),
            decreases total - q,
        {
            q += 1;
        }
        let ghost before = out@;
        let ghost rest = marked_from(line@, marks@, p as int);
        if text::at_boundary(full.as_str(), p) && text::at_boundary(full.as_str(), q) {
            let base = find_style(line, &ends, p);
            let piece = text::slice(full.as_str(), p, q);
            proof {
                encode_utf8_decode_utf8(piece@);
            }
            out.push(piece, apply_marks(base, marks, p));
        }
        proof {
            assert(out@ + marked_from(line@, marks@, q as int) =~= before + rest);
        }
        p = q;
    }
    proof {
        assert(out@ + marked_from(line@, marks@, p as int) =~= out@);
    }
    if out.spans.len() == 0 {
        out.push_raw("");
        proof {
            reveal_strlit("");
            assert(""@ =~= Seq::<char>::empty());
            assert(out@ =~= seq![style::raw(Seq::empty())]);
        }
    }
    out
}

/// The marks of search matches.
pub open spec fn match_marks(matches: Seq<(usize, usize, bool)>) -> Seq<Mark> {
    matches.map_values(
        |m: (usize, usize, bool)|
            Mark {
                start: m.0,
                end: (m.0 + m.1) as usize,
                hue: if m.2 {
                    Hue::Current
                } else {
                    Hue::Match
                },
            },
    )
}

/// A line with its search matches.
pub open spec fn searched(
    line: Seq<SpanView>,
    matches: Seq<(usize, usize, bool)>,
) -> Seq<SpanView> {
    if matches.len() == 0 {
        line
    } else {
        marked(line, match_marks(matches))
    }
}

/// Apply search-match background highlights to an already-highlighted line.
///
/// `matches` is a list of `(byte_start, byte_len, is_current)` regions
/// relative to the line content (newlines stripped).  Non-current matches
/// get a yellow background; the current match gets a bold green background.
pub fn overlay_search_matches(line: StyledLine, matches: &Vec<(usize, usize, bool)>) -> (r:
    StyledLine)
    requires
        forall|i: int|
            0 <= i < matches.len() ==> (#[trigger] matches@[i]).0 + matches@[i].1 <= usize::MAX,
    ensures
        r@ == searched(line@, matches@),
{
    if matches.len() == 0 {
        return line;
    }
    let mut marks: Vec<Mark> = Vec::new();
    let mut i: usize = 0;
    while i < matches.len()
        invariant
            i <= matches.len(),
            marks@ == match_marks(matches@).subrange(0, i as int),
            forall|k: int|
                0 <= k < matches.len() ==> (#[trigger] matches@[k]).0 + matches@[k].1
                    <= usize::MAX,
        decreases matches.len() - i,
    {
        let m = matches[i];
        marks.push(
            Mark {
                start: m.0,
                end: m.0 + m.1,
                hue: if m.2 {
                    Hue::Current
                } else {
                    Hue::Match
                },
            },
        );
        i += 1;
        proof {
            assert(marks@ =~= match_marks(matches@).subrange(0, i as int));
        }
    }
    proof {
        assert(marks@ =~= match_marks(matches@));
    }
    restyle(&line, &marks)
}

/// A line with the bytes `[start, end)` selected.
pub open spec fn selected(line: Seq<SpanView>, start: int, end: int) -> Seq<SpanView> {
    if start >= end || start >= line_bytes(line).len() {
        line
    } else {
        marked(line, seq![Mark { start: start as usize, end: end as usize, hue: Hue::Selected }])
    }
}

/// Overlay a selection-background style on the byte range `[start, end)` of
/// `line`, preserving the underlying foreground styles.
pub fn overlay_selection(line: StyledLine, start: usize, end: usize) -> (r: StyledLine)
    ensures
        r@ == selected(line@, start as int, end as int),
{
    if start >= end {
        return line;
    }
    let full = line.plain_text();
    if start >= text::byte_len(full.as_str()) {
        return line;
    }
    let mut marks: Vec<Mark> = Vec::new();
    marks.push(Mark { start, end, hue: Hue::Selected });
    proof {
        assert(marks@ =~= seq![Mark { start, end, hue: Hue::Selected }]);
    }
    restyle(&line, &marks)
}

/// The runs of a line, dimmed.
pub open spec fn dimmed(line: Seq<SpanView>) -> Seq<SpanView> {
    line.map_values(|s: SpanView| SpanView { text: s.text, style: s.style.spec_dim() })
}

/// Dim every run of `line`, preserving each run's content and other style
/// attributes.
pub fn dim_line(line: StyledLine) -> (r: StyledLine)
    ensures
        r@ == dimmed(line@),
{
    let mut out = StyledLine::new();
    let mut i: usize = 0;
    while i < line.spans.len()
        invariant
            i <= line.spans.len(),
            out@ == dimmed(line@).subrange(0, i as int),
        decreases line.spans.len() - i,
    {
        out.push(line.spans[i].content.as_str(), line.spans[i].style.with_dim());
        i += 1;
        proof {
            assert(line@[i - 1] == line.spans@[i - 1]@);
            assert(out@ =~= dimmed(line@).subrange(0, i as int));
        }
    }
    proof {
        assert(out@ =~= dimmed(line@));
    }
    out
}

// ---------------------------------------------------------------------------
// Slices
// ---------------------------------------------------------------------------

pub open spec fn least(a: int, b: int) -> int {
    if a <= b {
        a
    } else {
        b
    }
}

pub open spec fn greatest(a: int, b: int) -> int {
    if a >= b {
        a
    } else {
        b
    }
}

/// What run `k` shows of the bytes `[start, end)` of its line: nothing where the
/// range cuts a character of the run.
pub open spec fn run_slice(line: Seq<SpanView>, k: int, start: int, end: int) -> Seq<SpanView> {
    let b = encode_utf8(line[k].text);
    let lo = greatest(start, run_start(line, k)) - run_start(line, k);
    let hi = least(end, run_start(line, k + 1)) - run_start(line, k);
    if lo < hi && text::on_boundary(b, lo) && text::on_boundary(b, hi) {
        seq![style::run(decode_utf8(b.subrange(lo, hi)), line[k].style)]
    } else {
        Seq::empty()
    }
}

/// What the first `k` runs show of the bytes `[start, end)`.
pub open spec fn sliced_runs(line: Seq<SpanView>, k: int, start: int, end: int) -> Seq<SpanView>
    decreases k,
{
    if k <= 0 {
        Seq::empty()
    } else {
        sliced_runs(line, k - 1, start, end) + run_slice(line, k - 1, start, end)
    }
}

/// The bytes `[start, end)` of a line.
pub open spec fn sliced(line: Seq<SpanView>, start: int, end: int) -> Seq<SpanView> {
    sliced_runs(line, line.len() as int, start, end)
}

/// Slice a styled line to the byte range `[start, end)`, preserving each
/// underlying run's style on the portion that falls inside the range.
pub fn slice_line(line: &StyledLine, start: usize, end: usize) -> (r: StyledLine)
    ensures
        r@ == sliced(line@, start as int, end as int),
{
    let ends = ends_of(line);
    let mut out = StyledLine::new();
    let mut from: usize = 0;
    let mut i: usize = 0;
    while i < line.spans.len()
        invariant
            i <= line.spans.len(),
            ends.len() == line@.len(),
            forall|k: int| 0 <= k < ends.len() ==> ends[k] == #[trigger] run_start(line@, k + 1),
            from == run_start(line@, i as int),
            out@ == sliced_runs(line@, i as int, start as int, end as int),
        decreases line.spans.len() - i,
    {
        let content = line.spans[i].content.as_str();
        proof {
            assert(ends[i as int] == run_start(line@, i + 1));
            assert(line@[i as int] == line.spans@[i as int]@);
        }
        let to = ends[i];
        let ghost before = out@;
        let lo = if start >= from {
            start
        } else {
            from
        };
        let hi = if end <= to {
            end
        } else {
            to
        };
        if lo < hi {
            let a: usize = lo - from;
            let b: usize = hi - from;
            if text::at_boundary(content, a) && text::at_boundary(content, b) {
                let piece = text::slice(content, a, b);
                proof {
                    encode_utf8_decode_utf8(piece@);
                }
                out.push(piece, line.spans[i].style);
            }
        }
        proof {
            assert(out@ =~= before + run_slice(line@, i as int, start as int, end as int));
        }
        from = to;
        i += 1;
    }
    out
}

// ---------------------------------------------------------------------------
// Laws
// ---------------------------------------------------------------------------

/// Every cut of the line lies on a character boundary.
pub open spec fn clean_cuts(line: Seq<SpanView>, marks: Seq<Mark>) -> bool {
    forall|p: int|
        0 <= p <= line_bytes(line).len() && #[trigger] is_cut(line, marks, p) ==> text::on_boundary(
            line_bytes(line),
            p,
        )
}

pub proof fn lemma_next_is_cut(line: Seq<SpanView>, marks: Seq<Mark>, p: int)
    requires
        0 <= p < line_bytes(line).len(),
    ensures
        is_cut(line, marks, next_cut(line, marks, p)),
    decreases line_bytes(line).len() - p,
{
    if p + 1 < line_bytes(line).len() && !is_cut(line, marks, p + 1) {
        lemma_next_is_cut(line, marks, p + 1);
    }
}

proof fn lemma_marked_from_text(line: Seq<SpanView>, marks: Seq<Mark>, p: int)
    requires
        0 <= p <= line_bytes(line).len(),
        text::on_boundary(line_bytes(line), p),
        clean_cuts(line, marks),
    ensures
        encode_utf8(style::text_of(marked_from(line, marks, p))) == line_bytes(line).subrange(
            p,
            line_bytes(line).len() as int,
        ),
    decreases line_bytes(line).len() - p,
{
    let b = line_bytes(line);
    let n = b.len() as int;
    if p < n {
        lemma_next_cut(line, marks, p);
        lemma_next_is_cut(line, marks, p);
        let q = next_cut(line, marks, p);
        lemma_marked_from_text(line, marks, q);
        let piece = style::run(
            decode_utf8(b.subrange(p, q)),
            marked_style(style_at(line, 0, p), marks, 0, p),
        );
        let rest = marked_from(line, marks, q);
        assert(marked_from(line, marks, p) == seq![piece] + rest);
        style::lemma_text_of_concat(seq![piece], rest);
        style::lemma_text_of_one(piece);
        text::lemma_encode_concat(piece.text, style::text_of(rest));
        text::lemma_piece_decodes(style::text_of(line), p, q);
        assert(b.subrange(p, n) =~= b.subrange(p, q) + b.subrange(q, n));
    } else {
        assert(style::text_of(marked_from(line, marks, p)) =~= Seq::<char>::empty());
        assert(encode_utf8(Seq::<char>::empty()) =~= Seq::<u8>::empty());
        assert(b.subrange(p, n) =~= Seq::<u8>::empty());
    }
}

/// A highlight changes no text: where all marks lie on character boundaries, the
/// marked line reads as the line did.
pub proof fn law_marks_keep_text(line: Seq<SpanView>, marks: Seq<Mark>)
    requires
        clean_cuts(line, marks),
    ensures
        style::text_of(marked(line, marks)) == style::text_of(line),
{
    text::lemma_boundary_ends(style::text_of(line));
    lemma_marked_from_text(line, marks, 0);
    let b = line_bytes(line);
    assert(b.subrange(0, b.len() as int) =~= b);
    text::lemma_encode_injective(
        style::text_of(marked_from(line, marks, 0)),
        style::text_of(line),
    );
    if marked_from(line, marks, 0).len() == 0 {
        style::lemma_text_of_one(style::raw(Seq::empty()));
    }
}

} // verus!
