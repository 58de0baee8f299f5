//! Delimiter lines on screen: a horizontal rule with the title on the left and
//! the date on the right.

use vstd::prelude::*;
use vstd::string::StrSliceExecFns;
use vstd::utf8::*;

use crate::parser;
use crate::style;
use crate::style::{Color, SpanView, Style, StyledLine};
use crate::text;
use crate::words;
use crate::wrap;

verus! {

/// What follows the `===` of a delimiter line, trimmed; nothing for other lines.
pub open spec fn header_text(content: Seq<char>) -> Seq<char> {
    if text::begins_with(content, "==="@) {
        words::trim(content.subrange("==="@.len() as int, content.len() as int))
    } else {
        Seq::empty()
    }
}

/// The trimmed sides of the first `|`.
pub open spec fn sides(body: Seq<char>) -> (Seq<char>, Option<Seq<char>>) {
    let i = words::piece_end(body, 0, '|');
    if i < body.len() {
        (
            words::trim(body.subrange(0, i)),
            Some(words::trim(body.subrange(i + 1, body.len() as int))),
        )
    } else {
        (body, None)
    }
}

/// `s` starts with `YYYY-MM-DD`.
pub open spec fn starts_with_date(s: Seq<char>) -> bool {
    parser::date_at(encode_utf8(s), 0)
}

pub open spec fn or_empty(s: Option<Seq<char>>) -> Seq<char> {
    match s {
        Some(t) => t,
        None => Seq::empty(),
    }
}

/// The date text and the title text of a delimiter line; either may be empty.
pub open spec fn delimiter_texts(content: Seq<char>) -> (Seq<char>, Seq<char>) {
    let (left, right) = sides(header_text(content));
    if starts_with_date(left) {
        (left, or_empty(right))
    } else if right is Some && starts_with_date(right->Some_0) {
        (right->Some_0, left)
    } else if left.len() > 0 {
        (Seq::empty(), left)
    } else {
        (Seq::empty(), or_empty(right))
    }
}

/// True if `s` starts with a `YYYY-MM-DD` token at position 0.
pub fn looks_like_date_prefix(s: &str) -> (r: bool)
    ensures
        r == starts_with_date(s@),
{
    parser::is_date_at(s.as_bytes(), 0)
}

/// Split a delimiter line into (date+time text, optional title). The date may
/// appear on either side of the `|` separator; whichever side starts with
/// `YYYY-MM-DD` is treated as the date, the other side as the title. Returns
/// empty date / `None` title when neither half is recognised.
pub fn parse_delimiter_for_render(content: &str) -> (r: (String, Option<String>))
    ensures
        r.0@ == delimiter_texts(content@).0,
        r.1 is Some <==> delimiter_texts(content@).1.len() > 0,
        r.1 matches Some(t) ==> t@ == delimiter_texts(content@).1,
{
    let body: &str = match words::strip_prefix(content, "===") {
        Some(rest) => words::trimmed(rest),
        None => "",
    };
    proof {
        reveal_strlit("");
        assert(""@ =~= Seq::<char>::empty());
    }
    let cs = text::chars_of(body);
    let mut i: usize = 0;
    while i < cs.len() && cs[i] != '|'
        invariant
            i <= cs.len(),
            words::piece_end(cs@, i as int, '|') == words::piece_end(cs@, 0, '|'),
        decreases cs.len() - i,
    {
        i += 1;
    }
    let (left, right): (&str, Option<&str>) = if i < cs.len() {
        (
            words::trimmed(body.substring_char(0, i)),
            Some(words::trimmed(body.substring_char(i + 1, cs.len()))),
        )
    } else {
        (body, None)
    };
    let right_text: &str = match right {
        Some(t) => t,
        None => "",
    };
    let (date_text, title_text): (&str, &str) = if looks_like_date_prefix(left) {
        (left, right_text)
    } else if right.is_some() && looks_like_date_prefix(right_text) {
        (right_text, left)
    } else if !left.is_empty() {
        ("", left)
    } else {
        ("", right_text)
    };
    let title = if title_text.is_empty() {
        None
    } else {
        Some(title_text.to_owned())
    };
    (date_text.to_owned(), title)
}

// ---------------------------------------------------------------------------
// Layout
// ---------------------------------------------------------------------------

/// `a - b`, at least 0.
pub open spec fn minus(a: int, b: int) -> int {
    if a > b {
        a - b
    } else {
        0
    }
}

/// Cells of a title block: edge rule, space, title, space.
pub open spec fn title_block(title: Option<Seq<char>>) -> int {
    match title {
        Some(t) => if wrap::text_width(t) > 0 {
            wrap::text_width(t) + 3
        } else {
            0
        },
        None => 0,
    }
}

/// Cells of a date block: space, date, space, edge rule.
pub open spec fn date_block(date: Seq<char>) -> int {
    if wrap::text_width(date) > 0 {
        wrap::text_width(date) + 3
    } else {
        0
    }
}

/// Between a title and a date there are at least three cells of rule.
pub open spec fn least_rule(title: Option<Seq<char>>, date: Seq<char>) -> int {
    if title_block(title) > 0 && date_block(date) > 0 {
        3
    } else {
        0
    }
}

/// The date as it is shown at the given width: whole, or left out if it does not
/// fit.
pub open spec fn shown_date(content: Seq<char>, width: int) -> Seq<char> {
    let date = delimiter_texts(content).0;
    if date_block(date) <= width {
        date
    } else {
        Seq::empty()
    }
}

/// The longest of the first `n` characters of `t` that fit in `room` cells when
/// ended by `…`.
pub open spec fn cut(t: Seq<char>, n: int, room: int) -> Option<Seq<char>>
    decreases n + 1,
{
    if n < 0 {
        None
    } else if wrap::text_width(t.subrange(0, n).push('\u{2026}')) <= room {
        Some(t.subrange(0, n).push('\u{2026}'))
    } else {
        cut(t, n - 1, room)
    }
}

/// The title `t` as it is shown beside the date `date`: whole if the line is
/// wide enough for both and the rule between them, else cut and ended by `…`,
/// or left out if not even one character fits.
pub open spec fn fitted(t: Seq<char>, date: Seq<char>, width: int) -> Option<Seq<char>> {
    let least = least_rule(Some(t), date);
    if title_block(Some(t)) > 0 && title_block(Some(t)) + least + date_block(date) > width {
        let room = minus(minus(width, date_block(date) + least), 3);
        if room <= 1 {
            None
        } else {
            cut(t, wrap::fitting(t, 0, room - 1), room)
        }
    } else {
        Some(t)
    }
}

/// The title as it is shown at the given width.
pub open spec fn shown_title(content: Seq<char>, width: int) -> Option<Seq<char>> {
    let title = delimiter_texts(content).1;
    if title.len() > 0 {
        fitted(title, shown_date(content, width), width)
    } else {
        None
    }
}

pub open spec fn rule_style() -> Style {
    Style::colored(Color::Indexed(244)).spec_dim()
}

/// `n` horizontal rules.
pub open spec fn rule(n: int) -> Seq<char> {
    Seq::new(n as nat, |i: int| '\u{2500}')
}

/// The runs of a decorated delimiter line.
pub open spec fn decorated(content: Seq<char>, width: int) -> Seq<SpanView> {
    let date = shown_date(content, width);
    let title = shown_title(content, width);
    let middle = minus(width, title_block(title) + date_block(date));
    let left = if title_block(title) > 0 {
        seq![
            style::run("\u{2500}"@, rule_style()),
            style::raw(" "@),
            style::run(title->Some_0, Style::colored(Color::Cyan).spec_bold()),
            style::raw(" "@),
        ]
    } else {
        Seq::empty()
    };
    let right = if date_block(date) > 0 {
        seq![
            style::raw(" "@),
            style::run(date, Style::colored(Color::Cyan)),
            style::raw(" "@),
            style::run("\u{2500}"@, rule_style()),
        ]
    } else {
        Seq::empty()
    };
    left + seq![style::run(rule(middle), rule_style())] + right
}

fn rule_of(n: usize) -> (r: String)
    ensures
        r@ == rule(n as int),
{
    let mut out = String::new();
    let mut i: usize = 0;
    while i < n
        invariant
            i <= n,
            out@ == rule(i as int),
        decreases n - i,
    {
        words::push_char(&mut out, '\u{2500}');
        i += 1;
        proof {
            assert(out@ =~= rule(i as int));
        }
    }
    proof {
        assert(n == 0 ==> out@ =~= rule(0));
    }
    out
}

fn block_of(w: usize) -> (r: u128)
    ensures
        r == if w > 0 {
            w + 3
        } else {
            0
        },
{
    if w > 0 {
        w as u128 + 3
    } else {
        0
    }
}

fn less(a: u128, b: u128) -> (r: u128)
    ensures
        r == minus(a as int, b as int),
{
    if a > b {
        a - b
    } else {
        0
    }
}

fn cut_title(t: &str, room: usize) -> (r: Option<String>)
    requires
        room >= 1,
    ensures
        match (r, cut(t@, wrap::fitting(t@, 0, room - 1), room as int)) {
            (Some(a), Some(b)) => a@ == b,
            (None, None) => true,
            _ => false,
        },
{
    let fits = wrap::truncate_to_width(t, room - 1);
    proof {
        wrap::lemma_fitting(t@, 0, room - 1);
    }
    let mut n = text::chars_of(fits.as_str()).len();
    loop
        invariant
            room >= 1,
            0 <= n <= fits@.len() <= t@.len(),
            fits@ == t@.subrange(0, fits@.len() as int),
            fits@.len() == wrap::fitting(t@, 0, room - 1),
            cut(t@, n as int, room as int) == cut(t@, fits@.len() as int, room as int),
        decreases n,
    {
        let mut shown = fits.as_str().substring_char(0, n).to_owned();
        words::push_char(&mut shown, '\u{2026}');
        proof {
            assert(fits@.subrange(0, n as int) =~= t@.subrange(0, n as int));
        }
        if wrap::display_width(shown.as_str()) <= room {
            return Some(shown);
        }
        if n == 0 {
            proof {
                reveal_with_fuel(cut, 2);
            }
            return None;
        }
        n -= 1;
    }
}

fn fit_title(title: Option<String>, date: &str, date_cells: u128, width: usize) -> (r: Option<
    String,
>)
    requires
        date_cells == date_block(date@),
        date_cells <= width,
    ensures
        match (r, title) {
            (Some(s), Some(t)) => fitted(t@, date@, width as int) == Some(s@),
            (None, Some(t)) => fitted(t@, date@, width as int) is None,
            (Some(_), None) => false,
            (None, None) => true,
        },
{
    match title {
        None => None,
        Some(t) => {
            let title_cells = block_of(wrap::display_width(t.as_str()));
            let least: u128 = if title_cells > 0 && date_cells > 0 {
                3
            } else {
                0
            };
            if title_cells > 0 && title_cells + least + date_cells > width as u128 {
                let room = less(less(width as u128, date_cells + least), 3);
                if room <= 1 {
                    None
                } else {
                    cut_title(t.as_str(), room as usize)
                }
            } else {
                Some(t)
            }
        },
    }
}

/// Build a decorated delimiter line: a horizontal rule running edge-to-edge,
/// with the title (left) and date (right) "punched out" with 1-space gaps on
/// each side. Total width is exactly `width`: a title that does not fit is cut
/// with `…`, and a date that does not fit is left out.
///
/// Examples (W = total width):
/// - Both: `─ Title ─────────── Date ─`
/// - Title only: `─ Title ──────────────`
/// - Date only: `──────────────── Date ─`
/// - Bare: `─────────────────────────`
pub fn render_decorated_delimiter(content: &str, width: usize) -> (r: StyledLine)
    ensures
        r@ == decorated(content@, width as int),
{
    let (date_text, title_opt) = parse_delimiter_for_render(content);
    let date_width = block_of(wrap::display_width(date_text.as_str()));
    let (date, date_cells): (&str, u128) = if date_width <= width as u128 {
        (date_text.as_str(), date_width)
    } else {
        ("", 0)
    };
    proof {
        reveal_strlit("");
        assert(""@ =~= Seq::<char>::empty());
        assert(date_block(Seq::empty()) == 0);
    }
    let title = fit_title(title_opt, date, date_cells, width);
    let title_cells: u128 = match &title {
        Some(t) => block_of(wrap::display_width(t.as_str())),
        None => 0,
    };
    let middle = less(width as u128, title_cells + date_cells) as usize;
    let rule_st = Style::fg(Color::Indexed(244)).with_dim();
    let mut line = StyledLine::new();
    if let Some(t) = &title {
        if title_cells > 0 {
            line.push("\u{2500}", rule_st);
            line.push_raw(" ");
            line.push(t.as_str(), Style::fg(Color::Cyan).with_bold());
            line.push_raw(" ");
        }
    }
    line.push(rule_of(middle).as_str(), rule_st);
    if date_cells > 0 {
        line.push_raw(" ");
        line.push(date, Style::fg(Color::Cyan));
        line.push_raw(" ");
        line.push("\u{2500}", rule_st);
    }
    proof {
        assert(line@ =~= decorated(content@, width as int));
    }
    line
}

// ---------------------------------------------------------------------------
// Laws
// ---------------------------------------------------------------------------

/// Cells of the runs of a line, one by one.
pub open spec fn line_width(runs: Seq<SpanView>) -> int
    decreases runs.len(),
{
    if runs.len() == 0 {
        0
    } else {
        line_width(runs.drop_last()) + wrap::text_width(runs.last().text)
    }
}

proof fn lemma_line_width_concat(a: Seq<SpanView>, b: Seq<SpanView>)
    ensures
        line_width(a + b) == line_width(a) + line_width(b),
    decreases b.len(),
{
    if b.len() == 0 {
        assert(a + b =~= a);
    } else {
        assert((a + b).drop_last() =~= a + b.drop_last());
        lemma_line_width_concat(a, b.drop_last());
    }
}

proof fn lemma_line_width_four(a: SpanView, b: SpanView, c: SpanView, d: SpanView)
    ensures
        line_width(seq![a, b, c, d]) == wrap::text_width(a.text) + wrap::text_width(b.text)
            + wrap::text_width(c.text) + wrap::text_width(d.text),
{
    reveal_with_fuel(line_width, 5);
    let s = seq![a, b, c, d];
    assert(s.drop_last() =~= seq![a, b, c]);
    assert(s.drop_last().drop_last() =~= seq![a, b]);
    assert(s.drop_last().drop_last().drop_last() =~= seq![a]);
}

proof fn lemma_cut(t: Seq<char>, n: int, room: int)
    ensures
        cut(t, n, room) matches Some(s) ==> wrap::text_width(s) <= room,
    decreases n + 1,
{
    if n >= 0 {
        lemma_cut(t, n - 1, room);
    }
}

/// A decorated line is exactly as wide as the screen.
pub proof fn law_decorated_width(content: Seq<char>, width: int)
    requires
        width >= 0,
    ensures
        line_width(decorated(content, width)) == width,
{
    let date = shown_date(content, width);
    let title = shown_title(content, width);
    let middle = minus(width, title_block(title) + date_block(date));
    assert(title_block(title) + date_block(date) <= width) by {
        let t = delimiter_texts(content).1;
        let room = minus(minus(width, date_block(date) + least_rule(Some(t), date)), 3);
        lemma_cut(t, wrap::fitting(t, 0, room - 1), room);
        assert(date_block(Seq::empty()) == 0);
    }
    reveal_strlit(" ");
    reveal_strlit("\u{2500}");
    assert(wrap::text_width(" "@) == 1);
    assert(wrap::text_width("\u{2500}"@) == 1);
    assert(wrap::is_narrow(rule(middle)));
    assert(wrap::text_width(rule(middle)) == middle);
    let mid = seq![style::run(rule(middle), rule_style())];
    reveal_with_fuel(line_width, 2);
    assert(mid.drop_last() =~= Seq::<SpanView>::empty());
    assert(line_width(mid) == middle);
    let left = if title_block(title) > 0 {
        seq![
            style::run("\u{2500}"@, rule_style()),
            style::raw(" "@),
            style::run(title->Some_0, Style::colored(Color::Cyan).spec_bold()),
            style::raw(" "@),
        ]
    } else {
        Seq::empty()
    };
    let right = if date_block(date) > 0 {
        seq![
            style::raw(" "@),
            style::run(date, Style::colored(Color::Cyan)),
            style::raw(" "@),
            style::run("\u{2500}"@, rule_style()),
        ]
    } else {
        Seq::empty()
    };
    if title_block(title) > 0 {
        lemma_line_width_four(left[0], left[1], left[2], left[3]);
        assert(left =~= seq![left[0], left[1], left[2], left[3]]);
    }
    if date_block(date) > 0 {
        lemma_line_width_four(right[0], right[1], right[2], right[3]);
        assert(right =~= seq![right[0], right[1], right[2], right[3]]);
    }
    lemma_line_width_concat(left, mid);
    lemma_line_width_concat(left + mid, right);
}

} // verus!
