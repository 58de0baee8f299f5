//! How marks and delimiters look: a mark changes the look of the bytes it covers and of no
//! others, and a delimiter shows its title on the left and its date on the right.

use vstd::prelude::*;
use vstd::utf8::*;

use crate::capture_laws::lemma_scalar_bytes;
use crate::delimiter;
use crate::filter_laws::spacing;
use crate::overlay;
use crate::overlay::{Hue, Mark};
use crate::parser;
use crate::style;
use crate::style::{Color, SpanView, Style};
use crate::text;
use crate::words;
use crate::wrap;
use crate::writing_laws::{all_spacing, law_trim};

verus! {

// ---------------------------------------------------------------------------
// Marks
// ---------------------------------------------------------------------------

/// The style of byte `p` of a row of runs.
pub open spec fn paint(line: Seq<SpanView>, p: int) -> Style
    decreases line.len(),
{
    if line.len() == 0 {
        style::bare()
    } else {
        let n = encode_utf8(line[0].text).len();
        if p < n {
            line[0].style
        } else {
            paint(line.drop_first(), p - n)
        }
    }
}

proof fn lemma_paint(line: Seq<SpanView>, k: int, p: int)
    requires
        0 <= k <= line.len(),
        overlay::run_start(line, k) <= p,
    ensures
        overlay::style_at(line, k, p) == paint(
            line.subrange(k, line.len() as int),
            p - overlay::run_start(line, k),
        ),
    decreases line.len() - k,
{
    let rest = line.subrange(k, line.len() as int);
    if k < line.len() {
        assert(rest[0] == line[k]);
        assert(rest.drop_first() =~= line.subrange(k + 1, line.len() as int));
        if p >= overlay::run_start(line, k + 1) {
            lemma_paint(line, k + 1, p);
        }
    }
}

proof fn lemma_style_same(line: Seq<SpanView>, k: int, p: int, x: int)
    requires
        0 <= k <= line.len(),
        overlay::run_start(line, k) <= p <= x,
        forall|r: int| p < r <= x ==> !overlay::run_ends(line, r),
    ensures
        overlay::style_at(line, k, p) == overlay::style_at(line, k, x),
    decreases line.len() - k,
{
    if k < line.len() {
        let e = overlay::run_start(line, k + 1);
        if p < e {
            if e <= x {
                assert(overlay::run_start(line, k + 1) == e);
                assert(overlay::run_ends(line, e));
            }
        } else {
            lemma_style_same(line, k + 1, p, x);
        }
    }
}

proof fn lemma_mark_same(base: Style, marks: Seq<Mark>, i: int, p: int, x: int, total: int)
    requires
        0 <= i <= marks.len(),
        0 <= p <= x < total,
        forall|j: int, r: int|
            0 <= j < marks.len() && p < r <= x ==> !#[trigger] overlay::mark_edge(
                marks[j],
                total,
                r,
            ),
    ensures
        overlay::marked_style(base, marks, i, p) == overlay::marked_style(base, marks, i, x),
    decreases marks.len() - i,
{
    if i < marks.len() {
        lemma_mark_same(base, marks, i + 1, p, x, total);
        let m = marks[i];
        if p < m.start <= x {
            assert(overlay::mark_edge(marks[i], total, m.start as int));
        }
        if p < m.end <= x {
            assert(overlay::mark_edge(marks[i], total, m.end as int));
        }
    }
}

proof fn lemma_no_cut(line: Seq<SpanView>, marks: Seq<Mark>, p: int, r: int)
    requires
        0 <= p < r < overlay::next_cut(line, marks, p),
    ensures
        !overlay::is_cut(line, marks, r),
    decreases overlay::line_bytes(line).len() - p,
{
    if !(p + 1 >= overlay::line_bytes(line).len() || overlay::is_cut(line, marks, p + 1)) {
        if r > p + 1 {
            lemma_no_cut(line, marks, p + 1, r);
        }
    }
}

proof fn lemma_same_piece(line: Seq<SpanView>, marks: Seq<Mark>, p: int, x: int)
    requires
        0 <= p <= x < overlay::next_cut(line, marks, p),
        x < overlay::line_bytes(line).len(),
    ensures
        overlay::marked_style(overlay::style_at(line, 0, p), marks, 0, p) == overlay::marked_style(
            overlay::style_at(line, 0, x),
            marks,
            0,
            x,
        ),
{
    let total = overlay::line_bytes(line).len() as int;
    assert forall|r: int| p < r <= x implies !overlay::run_ends(line, r) by {
        lemma_no_cut(line, marks, p, r);
    }
    lemma_style_same(line, 0, p, x);
    assert forall|j: int, r: int| 0 <= j < marks.len() && p < r <= x implies !(
    #[trigger] overlay::mark_edge(marks[j], total, r)) by {
        lemma_no_cut(line, marks, p, r);
    }
    lemma_mark_same(overlay::style_at(line, 0, x), marks, 0, p, x, total);
}

proof fn lemma_marked_paint(line: Seq<SpanView>, marks: Seq<Mark>, p: int, x: int)
    requires
        0 <= p <= x < overlay::line_bytes(line).len(),
        text::on_boundary(overlay::line_bytes(line), p),
        overlay::clean_cuts(line, marks),
    ensures
        paint(overlay::marked_from(line, marks, p), x - p) == overlay::marked_style(
            overlay::style_at(line, 0, x),
            marks,
            0,
            x,
        ),
    decreases overlay::line_bytes(line).len() - p,
{
    let b = overlay::line_bytes(line);
    overlay::lemma_next_cut(line, marks, p);
    overlay::lemma_next_is_cut(line, marks, p);
    let q = overlay::next_cut(line, marks, p);
    let piece = style::run(
        decode_utf8(b.subrange(p, q)),
        overlay::marked_style(overlay::style_at(line, 0, p), marks, 0, p),
    );
    let rest = overlay::marked_from(line, marks, q);
    let all = overlay::marked_from(line, marks, p);
    assert(all == seq![piece] + rest);
    assert(all[0] == piece);
    assert(all.drop_first() =~= rest);
    text::lemma_piece_decodes(style::text_of(line), p, q);
    assert(encode_utf8(piece.text).len() == q - p);
    if x < q {
        lemma_same_piece(line, marks, p, x);
    } else {
        lemma_marked_paint(line, marks, q, x);
    }
}

/// The look of a byte under a mark: matches on yellow, the match in focus bold on light
/// green, the selection on slate blue, and the colour of the text as it was.
pub open spec fn washed(base: Style, hue: Hue) -> Style {
    match hue {
        Hue::Match => Style { bg: Some(Color::Yellow), ..base },
        Hue::Current => Style { bg: Some(Color::LightGreen), bold: true, ..base },
        Hue::Selected => Style { bg: Some(Color::Rgb(60, 80, 110)), ..base },
    }
}

proof fn lemma_first_mark(base: Style, marks: Seq<Mark>, j: int, i: int, x: int)
    requires
        0 <= j <= i < marks.len(),
        marks[i].start <= x < marks[i].end,
        forall|k: int|
            j <= k < i ==> !((#[trigger] marks[k]).start <= x && x < marks[k].end),
    ensures
        overlay::marked_style(base, marks, j, x) == washed(base, marks[i].hue),
    decreases i - j,
{
    if j < i {
        assert(!(marks[j].start <= x && x < marks[j].end));
        lemma_first_mark(base, marks, j + 1, i, x);
    }
}

proof fn lemma_no_mark(base: Style, marks: Seq<Mark>, j: int, x: int)
    requires
        0 <= j <= marks.len(),
        forall|k: int|
            j <= k < marks.len() ==> !((#[trigger] marks[k]).start <= x && x < marks[k].end),
    ensures
        overlay::marked_style(base, marks, j, x) == base,
    decreases marks.len() - j,
{
    if j < marks.len() {
        assert(!(marks[j].start <= x && x < marks[j].end));
        lemma_no_mark(base, marks, j + 1, x);
    }
}

proof fn lemma_whole_paint(line: Seq<SpanView>, marks: Seq<Mark>, x: int)
    requires
        overlay::clean_cuts(line, marks),
        0 <= x < overlay::line_bytes(line).len(),
    ensures
        paint(overlay::marked(line, marks), x) == overlay::marked_style(
            paint(line, x),
            marks,
            0,
            x,
        ),
{
    text::lemma_boundary_ends(style::text_of(line));
    lemma_marked_paint(line, marks, 0, x);
    lemma_paint(line, 0, x);
    assert(line.subrange(0, line.len() as int) =~= line);
    overlay::lemma_next_cut(line, marks, 0);
    overlay::lemma_next_is_cut(line, marks, 0);
    assert(overlay::marked_from(line, marks, 0).len() > 0);
}

/// A byte of a search match is shown in the colours of the first match over it; a byte of
/// none looks as before.
pub proof fn law_matches_are_marked(
    line: Seq<SpanView>,
    matches: Seq<(usize, usize, bool)>,
    i: int,
    x: int,
)
    requires
        overlay::clean_cuts(line, overlay::match_marks(matches)),
        forall|k: int|
            0 <= k < matches.len() ==> (#[trigger] matches[k]).0 + matches[k].1 <= usize::MAX,
        0 <= x < overlay::line_bytes(line).len(),
        0 <= i <= matches.len(),
        i < matches.len() ==> matches[i].0 <= x < matches[i].0 + matches[i].1,
        forall|k: int|
            0 <= k < i ==> !((#[trigger] matches[k]).0 <= x && x < matches[k].0 + matches[k].1),
    ensures
        paint(overlay::searched(line, matches), x) == if i < matches.len() {
            if matches[i].2 {
                Style { bg: Some(Color::LightGreen), bold: true, ..paint(line, x) }
            } else {
                Style { bg: Some(Color::Yellow), ..paint(line, x) }
            }
        } else {
            paint(line, x)
        },
{
    let marks = overlay::match_marks(matches);
    assert forall|k: int| 0 <= k < i implies !((#[trigger] marks[k]).start <= x && x
        < marks[k].end) by {
        assert(!(matches[k].0 <= x && x < matches[k].0 + matches[k].1));
    }
    if matches.len() > 0 {
        lemma_whole_paint(line, marks, x);
        if i < matches.len() {
            assert(marks[i].start <= x < marks[i].end);
            lemma_first_mark(paint(line, x), marks, 0, i, x);
        } else {
            lemma_no_mark(paint(line, x), marks, 0, x);
        }
    }
}

/// The selected bytes of a line are shown on the colour of the selection, the others as
/// before.
pub proof fn law_selection_is_marked(line: Seq<SpanView>, start: int, end: int, x: int)
    requires
        0 <= start <= usize::MAX,
        0 <= end <= usize::MAX,
        overlay::clean_cuts(
            line,
            seq![Mark { start: start as usize, end: end as usize, hue: Hue::Selected }],
        ),
        0 <= x < overlay::line_bytes(line).len(),
    ensures
        paint(overlay::selected(line, start, end), x) == if start <= x < end {
            Style { bg: Some(Color::Rgb(60, 80, 110)), ..paint(line, x) }
        } else {
            paint(line, x)
        },
{
    let marks = seq![Mark { start: start as usize, end: end as usize, hue: Hue::Selected }];
    lemma_whole_paint(line, marks, x);
    if start <= x < end {
        lemma_first_mark(paint(line, x), marks, 0, 0, x);
    } else {
        lemma_no_mark(paint(line, x), marks, 0, x);
    }
}

// ---------------------------------------------------------------------------
// Delimiters
// ---------------------------------------------------------------------------

/// A digit.
pub open spec fn numeral(c: char) -> bool {
    '0' <= c <= '9'
}

/// `s` opens with a date, by shape: four digits, two and two, with `-` between.
pub open spec fn opens_dated(s: Seq<char>) -> bool {
    &&& s.len() >= 10
    &&& numeral(s[0]) && numeral(s[1]) && numeral(s[2]) && numeral(s[3])
    &&& s[4] == '-'
    &&& numeral(s[5]) && numeral(s[6])
    &&& s[7] == '-'
    &&& numeral(s[8]) && numeral(s[9])
}

/// The first characters of a text, if the first bytes or characters are ASCII.
proof fn lemma_ascii_front(s: Seq<char>, n: int)
    requires
        0 <= n,
    ensures
        (n <= s.len() && forall|k: int| 0 <= k < n ==> (#[trigger] s[k] as u32) < 0x80) ==> n
            <= encode_utf8(s).len() && forall|k: int|
            0 <= k < n ==> #[trigger] encode_utf8(s)[k] as char == s[k],
        (n <= encode_utf8(s).len() && forall|k: int| 0 <= k < n ==> #[trigger] encode_utf8(s)[k]
            < 0x80) ==> n <= s.len() && forall|k: int|
            0 <= k < n ==> encode_utf8(s)[k] as char == #[trigger] s[k],
    decreases n,
{
    let b = encode_utf8(s);
    if n > 0 && s.len() > 0 {
        let rest = s.drop_first();
        let e = encode_scalar(s[0] as u32);
        let after = encode_utf8(rest);
        lemma_scalar_bytes(s[0]);
        lemma_ascii_front(rest, n - 1);
        assert(b == e + after);
        if n <= s.len() && forall|k: int| 0 <= k < n ==> (#[trigger] s[k] as u32) < 0x80 {
            assert((s[0] as u32) < 0x80);
            assert forall|k: int| 0 <= k < n - 1 implies (#[trigger] rest[k] as u32) < 0x80 by {
                assert(rest[k] == s[k + 1]);
            }
            assert forall|k: int| 0 <= k < n implies #[trigger] b[k] as char == s[k] by {
                if k > 0 {
                    assert(b[k] == after[k - 1]);
                    assert(after[k - 1] as char == rest[k - 1]);
                }
            }
        }
        if n <= b.len() && forall|k: int| 0 <= k < n ==> #[trigger] b[k] < 0x80 {
            assert(b[0] == e[0]);
            assert((s[0] as u32) < 0x80);
            assert forall|k: int| 0 <= k < n - 1 implies #[trigger] after[k] < 0x80 by {
                assert(after[k] == b[k + 1]);
            }
            assert forall|k: int| 0 <= k < n implies b[k] as char == #[trigger] s[k] by {
                if k > 0 {
                    assert(b[k] == after[k - 1]);
                    assert(after[k - 1] as char == rest[k - 1]);
                }
            }
        }
    } else if s.len() == 0 {
        assert(b =~= Seq::<u8>::empty());
    }
}

pub proof fn lemma_opens_dated(s: Seq<char>)
    ensures
        delimiter::starts_with_date(s) == opens_dated(s),
{
    let b = encode_utf8(s);
    lemma_ascii_front(s, 10);
    if parser::date_at(b, 0) {
        assert forall|k: int| 0 <= k < 10 implies #[trigger] b[k] < 0x80 by {}
        assert forall|k: int| 0 <= k < 10 implies b[k] as char == #[trigger] s[k] by {}
        assert(s[0] == b[0] as char && s[1] == b[1] as char && s[2] == b[2] as char && s[3]
            == b[3] as char && s[4] == b[4] as char && s[5] == b[5] as char && s[6] == b[6] as char
            && s[7] == b[7] as char && s[8] == b[8] as char && s[9] == b[9] as char);
    }
    if opens_dated(s) {
        assert forall|k: int| 0 <= k < 10 implies (#[trigger] s[k] as u32) < 0x80 by {}
        assert(b[0] as char == s[0] && b[1] as char == s[1] && b[2] as char == s[2] && b[3] as char
            == s[3] && b[4] as char == s[4] && b[5] as char == s[5] && b[6] as char == s[6]
            && b[7] as char == s[7] && b[8] as char == s[8] && b[9] as char == s[9]);
    }
}

/// Text with no white space at its ends.
pub open spec fn tight(s: Seq<char>) -> bool {
    s.len() > 0 ==> !spacing(s[0]) && !spacing(s.last())
}

pub proof fn lemma_header_text(inner: Seq<char>)
    ensures
        delimiter::header_text(seq!['=', '=', '='] + inner) == words::trim(inner),
{
    reveal_strlit("===");
    let s = seq!['=', '=', '='] + inner;
    assert("==="@ =~= seq!['=', '=', '=']);
    assert(s.subrange(0, 3) =~= "==="@);
    assert(s.subrange(3, s.len() as int) =~= inner);
}

/// What a delimiter without `|` shows: its text as the date, if that opens with one, else
/// as the title.
pub proof fn law_delimiter_without_bar(lead: Seq<char>, t: Seq<char>, tail: Seq<char>)
    requires
        all_spacing(lead),
        all_spacing(tail),
        tight(t),
        !t.contains('|'),
    ensures
        delimiter::delimiter_texts(seq!['=', '=', '='] + (lead + t + tail)) == if opens_dated(t) {
            (t, Seq::<char>::empty())
        } else {
            (Seq::<char>::empty(), t)
        },
{
    lemma_header_text(lead + t + tail);
    law_trim(lead, t, tail);
    words::lemma_piece_end(t, 0, '|');
    let i = words::piece_end(t, 0, '|');
    if i < t.len() {
        assert(t[i] == '|');
        assert(t.contains('|'));
    }
    lemma_opens_dated(t);
    if t.len() == 0 {
        assert(t =~= Seq::<char>::empty());
    }
}

/// What a delimiter with `|` shows: the side that opens with a date as the date, the left
/// one if both do, and the other side as the title; with no date, the left side as the
/// title, or the right one if that is empty.
pub proof fn law_delimiter_with_bar(
    lead: Seq<char>,
    left: Seq<char>,
    g1: Seq<char>,
    g2: Seq<char>,
    right: Seq<char>,
    tail: Seq<char>,
)
    requires
        all_spacing(lead),
        all_spacing(g1),
        all_spacing(g2),
        all_spacing(tail),
        tight(left),
        tight(right),
        !left.contains('|'),
    ensures
        delimiter::delimiter_texts(
            seq!['=', '=', '='] + (lead + left + g1 + seq!['|'] + g2 + right + tail),
        ) == if opens_dated(left) {
            (left, right)
        } else if opens_dated(right) {
            (right, left)
        } else if left.len() > 0 {
            (Seq::<char>::empty(), left)
        } else {
            (Seq::<char>::empty(), right)
        },
{
    let inner = lead + left + g1 + seq!['|'] + g2 + right + tail;
    lemma_header_text(inner);
    lemma_opens_dated(left);
    lemma_opens_dated(right);
    // What trimming leaves starts at the text on the left, or at the bar, and ends with the
    // text on the right, or with the bar.
    let front = if left.len() > 0 {
        left + g1
    } else {
        Seq::empty()
    };
    let lead2 = if left.len() > 0 {
        lead
    } else {
        lead + left + g1
    };
    let back = if right.len() > 0 {
        g2 + right
    } else {
        Seq::empty()
    };
    let tail2 = if right.len() > 0 {
        tail
    } else {
        g2 + right + tail
    };
    let body = front + seq!['|'] + back;
    assert(inner =~= lead2 + body + tail2);
    lemma_all_spacing(lead, left, g1);
    lemma_all_spacing(g2, right, tail);
    if left.len() > 0 {
        assert(body[0] == left[0]);
    } else {
        assert(body[0] == '|');
    }
    if right.len() > 0 {
        assert(body.last() == right.last());
    } else {
        assert(body.last() == '|');
    }
    assert(!spacing('|'));
    law_trim(lead2, body, tail2);
    let n = front.len() as int;
    assert(body[n] == '|');
    words::lemma_piece_end(body, 0, '|');
    let i = words::piece_end(body, 0, '|');
    if i < n {
        assert(front[i] == body[i]);
        if i < left.len() {
            assert(left[i] == '|');
            assert(left.contains('|'));
        } else {
            assert(g1[i - left.len()] == '|');
            assert(spacing(g1[i - left.len()]));
        }
    }
    assert(i == n);
    assert(body.subrange(0, n) =~= front);
    assert(body.subrange(n + 1, body.len() as int) =~= back);
    let none = Seq::<char>::empty();
    assert(all_spacing(none));
    if left.len() > 0 {
        law_trim(none, left, g1);
        assert(none + left + g1 =~= front);
    } else {
        law_trim(none, none, none);
        assert(none + none + none =~= front);
        assert(left =~= none);
    }
    if right.len() > 0 {
        law_trim(g2, right, none);
        assert(g2 + right + none =~= back);
    } else {
        law_trim(none, none, none);
        assert(none + none + none =~= back);
        assert(right =~= none);
    }
}

proof fn lemma_all_spacing(a: Seq<char>, m: Seq<char>, z: Seq<char>)
    requires
        all_spacing(a),
        all_spacing(z),
    ensures
        m.len() == 0 ==> all_spacing(a + m + z),
{
    if m.len() == 0 {
        let s = a + m + z;
        assert forall|k: int| 0 <= k < s.len() implies spacing(#[trigger] s[k]) by {
            if k < a.len() {
                assert(s[k] == a[k]);
            } else {
                assert(s[k] == z[k - a.len()]);
            }
        }
    }
}

/// `n` cells of rule.
pub open spec fn bar(n: int) -> SpanView {
    SpanView {
        text: Seq::new(n as nat, |i: int| '\u{2500}'),
        style: Style { fg: Some(Color::Indexed(244)), dim: true, ..style::bare() },
    }
}

/// One unstyled space.
pub open spec fn blank() -> SpanView {
    SpanView { text: seq![' '], style: style::bare() }
}

/// Where there is room for both and three cells of rule between, a delimiter is a rule
/// with the title near its left end and the date near its right end.
pub proof fn law_delimiter_row(content: Seq<char>, width: int)
    requires
        ({
            let d = delimiter::delimiter_texts(content).0;
            let t = delimiter::delimiter_texts(content).1;
            &&& t.len() > 0
            &&& wrap::text_width(t) > 0
            &&& wrap::text_width(d) > 0
            &&& wrap::text_width(t) + wrap::text_width(d) + 9 <= width
        }),
    ensures
        ({
            let d = delimiter::delimiter_texts(content).0;
            let t = delimiter::delimiter_texts(content).1;
            delimiter::decorated(content, width) == seq![
                bar(1),
                blank(),
                SpanView {
                    text: t,
                    style: (Style { fg: Some(Color::Cyan), bold: true, ..style::bare() }),
                },
                blank(),
                bar(width - wrap::text_width(t) - wrap::text_width(d) - 6),
                blank(),
                SpanView { text: d, style: (Style { fg: Some(Color::Cyan), ..style::bare() }) },
                blank(),
                bar(1),
            ]
        }),
{
    reveal_strlit(" ");
    reveal_strlit("\u{2500}");
    assert(" "@ =~= seq![' ']);
    assert("\u{2500}"@ =~= bar(1).text);
    let d = delimiter::delimiter_texts(content).0;
    let t = delimiter::delimiter_texts(content).1;
    let m = width - wrap::text_width(t) - wrap::text_width(d) - 6;
    assert(delimiter::rule(m) =~= bar(m).text);
    assert(delimiter::decorated(content, width) =~= seq![
        bar(1),
        blank(),
        SpanView {
            text: t,
            style: (Style { fg: Some(Color::Cyan), bold: true, ..style::bare() }),
        },
        blank(),
        bar(m),
        blank(),
        SpanView { text: d, style: (Style { fg: Some(Color::Cyan), ..style::bare() }) },
        blank(),
        bar(1),
    ]);
}

proof fn lemma_fitting_ascii(t: Seq<char>, i: int, room: int)
    requires
        forall|x: int| 0 <= x < t.len() ==> ' ' <= #[trigger] t[x] <= '~',
        0 <= i <= t.len(),
        0 <= room,
    ensures
        wrap::fitting(t, i, room) == if i + room < t.len() {
            i + room
        } else {
            t.len() as int
        },
    decreases t.len() - i,
{
    if i < t.len() {
        assert(' ' <= t[i] <= '~');
        if room > 0 {
            lemma_fitting_ascii(t, i + 1, room - 1);
        }
    }
}

/// A title of ASCII characters that is too long for the screen is cut: as much as fits, an
/// ellipsis for the rest. Its block takes three cells more, and a date beside it its own
/// block of three more and three cells of rule.
pub proof fn law_title_is_cut(content: Seq<char>, width: int)
    requires
        ({
            let d = delimiter::delimiter_texts(content).0;
            let t = delimiter::delimiter_texts(content).1;
            let room = width - 3 - if d.len() > 0 {
                d.len() + 6
            } else {
                0
            };
            &&& forall|x: int| 0 <= x < t.len() ==> ' ' <= #[trigger] t[x] <= '~'
            &&& forall|x: int| 0 <= x < d.len() ==> ' ' <= #[trigger] d[x] <= '~'
            &&& 2 <= room < t.len()
        }),
    ensures
        ({
            let d = delimiter::delimiter_texts(content).0;
            let t = delimiter::delimiter_texts(content).1;
            let room = width - 3 - if d.len() > 0 {
                d.len() + 6
            } else {
                0
            };
            delimiter::shown_title(content, width) == Some(
                t.subrange(0, room - 1).push('\u{2026}'),
            ) && delimiter::shown_date(content, width) == d
        }),
{
    let d = delimiter::delimiter_texts(content).0;
    let t = delimiter::delimiter_texts(content).1;
    let room = width - 3 - if d.len() > 0 {
        d.len() + 6
    } else {
        0
    };
    assert(wrap::is_narrow(d));
    assert(wrap::is_narrow(t));
    assert(wrap::text_width(d) == d.len());
    assert(wrap::text_width(t) == t.len());
    lemma_fitting_ascii(t, 0, room - 1);
    let s = t.subrange(0, room - 1).push('\u{2026}');
    assert forall|x: int| 0 <= x < s.len() implies ' ' <= #[trigger] s[x] <= '~' || s[x]
        == '\u{2500}' || s[x] == '\u{2026}' by {
        if x < room - 1 {
            assert(s[x] == t[x]);
        }
    }
    assert(wrap::is_narrow(s));
    assert(wrap::text_width(s) == room);
    assert(delimiter::shown_date(content, width) =~= d);
}

/// A delimiter with neither title nor date is a rule across the screen.
pub proof fn law_bare_delimiter(content: Seq<char>, width: int)
    requires
        width >= 0,
        delimiter::delimiter_texts(content).0.len() == 0,
        delimiter::delimiter_texts(content).1.len() == 0,
    ensures
        delimiter::decorated(content, width) == seq![bar(width)],
{
    let d = delimiter::delimiter_texts(content).0;
    assert(wrap::is_narrow(d));
    assert(wrap::text_width(d) == 0);
    assert(delimiter::rule(width) =~= bar(width).text);
    assert(delimiter::decorated(content, width) =~= seq![bar(width)]);
}

} // verus!
