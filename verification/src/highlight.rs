//! Syntax highlighting of note text: one styled line per line of text.

use vstd::prelude::*;
use vstd::string::StrSliceExecFns;

use crate::style;
use crate::style::{Color, SpanView, Style, StyledLine};
use crate::text;
use crate::words;

verus! {

// ---------------------------------------------------------------------------
// Styles
// ---------------------------------------------------------------------------

pub open spec fn marker_style() -> Style {
    Style::colored(Color::DarkGray)
}

pub open spec fn strong_style() -> Style {
    style::bare().spec_bold()
}

pub open spec fn emphasis_style() -> Style {
    style::bare().spec_italic()
}

pub open spec fn strike_style() -> Style {
    Style { crossed_out: true, ..Style::colored(Color::DarkGray) }
}

pub open spec fn link_style() -> Style {
    Style { underlined: true, ..Style::colored(Color::LightBlue) }
}

pub open spec fn code_style() -> Style {
    Style::colored(Color::Magenta)
}

pub open spec fn tag_style() -> Style {
    Style::colored(Color::Green)
}

// ---------------------------------------------------------------------------
// Inline tokens
// ---------------------------------------------------------------------------

/// `n` times the character `c` at `i`.
pub open spec fn repeated_at(s: Seq<char>, i: int, c: char, n: int) -> bool {
    0 <= i && i + n <= s.len() && forall|k: int| i <= k < i + n ==> s[k] == c
}

/// The first place at or after `from` where `c` stands `n` times in a row.
pub open spec fn find_repeated(s: Seq<char>, from: int, c: char, n: int) -> Option<int>
    decreases s.len() - from,
{
    if from < 0 || from >= s.len() {
        None
    } else if repeated_at(s, from, c, n) {
        Some(from)
    } else {
        find_repeated(s, from + 1, c, n)
    }
}

pub proof fn lemma_find_repeated(s: Seq<char>, from: int, c: char, n: int)
    requires
        n >= 1,
    ensures
        find_repeated(s, from, c, n) matches Some(i) ==> from <= i && i + n <= s.len()
            && repeated_at(s, i, c, n),
    decreases s.len() - from,
{
    if 0 <= from < s.len() && !repeated_at(s, from, c, n) {
        lemma_find_repeated(s, from + 1, c, n);
    }
}

fn find_repeated_char(cs: &Vec<char>, from: usize, c: char, n: usize) -> (r: Option<usize>)
    requires
        from <= cs.len(),
        1 <= n <= 2,
    ensures
        match (r, find_repeated(cs@, from as int, c, n as int)) {
            (Some(i), Some(j)) => i == j && from <= i && i + n <= cs.len(),
            (None, None) => true,
            _ => false,
        },
{
    let mut i: usize = from;
    while i < cs.len()
        invariant
            from <= i <= cs.len(),
            1 <= n <= 2,
            find_repeated(cs@, i as int, c, n as int) == find_repeated(
                cs@,
                from as int,
                c,
                n as int,
            ),
        decreases cs.len() - i,
    {
        if cs[i] == c && (n == 1 || (cs.len() - i >= 2 && cs[i + 1] == c)) {
            proof {
                assert(repeated_at(cs@, i as int, c, n as int));
            }
            return Some(i);
        }
        proof {
            if repeated_at(cs@, i as int, c, n as int) {
                assert(cs@[i as int] == c);
                if n == 2 {
                    assert(cs@[i + 1] == c);
                }
            }
        }
        i += 1;
    }
    None
}

/// A highlighted piece of a line.
#[derive(Debug, Clone, Copy, PartialEq, Eq, Structural)]
pub enum Token {
    /// Marker of `width` characters, body up to `close`, marker again.
    Delimited { width: usize, close: usize, style: Style },
    /// `[text](url)`, or `![alt](url)`; `open`, `mid` and `close` are the places
    /// of `[`, `]` and `)`.
    Link { open: usize, mid: usize, close: usize },
    /// Inline code up to `end`.
    Code { end: usize },
    /// A tag up to `end`.
    Tag { end: usize },
}

/// A body between two equal markers of `n` characters `c`.
pub open spec fn delimited(s: Seq<char>, pos: int, c: char, n: int, style: Style) -> Option<Token> {
    match find_repeated(s, pos + n, c, n) {
        Some(close) => if close > pos + n {
            Some(Token::Delimited { width: n as usize, close: close as usize, style })
        } else {
            None
        },
        None => None,
    }
}

/// A link whose `[` stands at `open`.
pub open spec fn link_at(s: Seq<char>, open: int) -> Option<Token> {
    match find_repeated(s, open + 1, ']', 1) {
        Some(mid) => if mid + 1 < s.len() && s[mid + 1] == '(' {
            match find_repeated(s, mid + 2, ')', 1) {
                Some(close) => if mid > open + 1 && close > mid + 2 {
                    Some(
                        Token::Link {
                            open: open as usize,
                            mid: mid as usize,
                            close: close as usize,
                        },
                    )
                } else {
                    None
                },
                None => None,
            }
        } else {
            None
        },
        None => None,
    }
}

pub open spec fn is_tag_char(c: char) -> bool {
    ('A' <= c <= 'Z') || ('a' <= c <= 'z') || ('0' <= c <= '9') || c == '_' || c == '/' || c == '-'
}

/// One past the run of tag characters at `p`.
pub open spec fn tag_stop(s: Seq<char>, p: int) -> int
    decreases s.len() - p,
{
    if 0 <= p < s.len() && is_tag_char(s[p]) {
        tag_stop(s, p + 1)
    } else {
        p
    }
}

pub proof fn lemma_tag_stop(s: Seq<char>, p: int)
    requires
        0 <= p <= s.len(),
    ensures
        p <= tag_stop(s, p) <= s.len(),
    decreases s.len() - p,
{
    if p < s.len() && is_tag_char(s[p]) {
        lemma_tag_stop(s, p + 1);
    }
}

/// Some character of `s[p..q]` is no digit.
pub open spec fn not_all_digits(s: Seq<char>, p: int, q: int) -> bool {
    exists|k: int| p <= k < q && !('0' <= #[trigger] s[k] <= '9')
}

/// The token that starts at `pos`, if one does. Bold comes before strikethrough,
/// italic, links, code and tags.
#[verifier::opaque]
pub open spec fn token_at(s: Seq<char>, pos: int) -> Option<Token> {
    let c = s[pos];
    let next = if pos + 1 < s.len() {
        Some(s[pos + 1])
    } else {
        None
    };
    if (c == '*' || c == '_') && next == Some(c) {
        delimited(s, pos, c, 2, strong_style())
    } else if c == '~' && next == Some(c) {
        delimited(s, pos, c, 2, strike_style())
    } else if (c == '*' || c == '_') && next is Some {
        delimited(s, pos, c, 1, emphasis_style())
    } else if c == '[' {
        link_at(s, pos)
    } else if c == '!' && next == Some('[') {
        link_at(s, pos + 1)
    } else if c == '`' {
        match find_repeated(s, pos + 1, '`', 1) {
            Some(close) => Some(Token::Code { end: (close + 1) as usize }),
            None => None,
        }
    } else if c == '#' && (pos == 0 || words::is_white(s[pos - 1])) {
        let end = tag_stop(s, pos + 1);
        if not_all_digits(s, pos + 1, end) {
            Some(Token::Tag { end: end as usize })
        } else {
            None
        }
    } else {
        None
    }
}

/// The end of a token.
pub open spec fn token_end(t: Token) -> int {
    match t {
        Token::Delimited { width, close, style } => close + width,
        Token::Link { open, mid, close } => close + 1,
        Token::Code { end } => end as int,
        Token::Tag { end } => end as int,
    }
}

/// The runs of a token that starts at `pos`: markers dim, bodies in their style.
#[verifier::opaque]
pub open spec fn token_runs(s: Seq<char>, pos: int, t: Token) -> Seq<SpanView> {
    match t {
        Token::Delimited { width, close, style } => seq![
            style::run(s.subrange(pos, pos + width), marker_style()),
            style::run(s.subrange(pos + width, close as int), style),
            style::run(s.subrange(close as int, close + width), marker_style()),
        ],
        Token::Link { open, mid, close } => {
            let bang = if open > pos {
                seq![style::run(s.subrange(pos, open as int), marker_style())]
            } else {
                Seq::empty()
            };
            bang + seq![
                style::run(s.subrange(open as int, open + 1), marker_style()),
                style::run(s.subrange(open + 1, mid as int), link_style()),
                style::run(s.subrange(mid as int, mid + 2), marker_style()),
                style::run(s.subrange(mid + 2, close as int), marker_style()),
                style::run(s.subrange(close as int, close + 1), marker_style()),
            ]
        },
        Token::Code { end } => seq![style::run(s.subrange(pos, end as int), code_style())],
        Token::Tag { end } => seq![style::run(s.subrange(pos, end as int), tag_style())],
    }
}

/// A token starts at `pos` and its parts follow each other within the line.
pub open spec fn token_fits(s: Seq<char>, pos: int, t: Token) -> bool {
    &&& pos < token_end(t) <= s.len()
    &&& match t {
        Token::Delimited { width, close, style } => 1 <= width && pos + width < close,
        Token::Link { open, mid, close } => pos <= open <= pos + 1 && open + 1 < mid && mid + 2
            < close,
        _ => true,
    }
}

pub proof fn lemma_token_fits(s: Seq<char>, pos: int)
    requires
        0 <= pos < s.len(),
        s.len() <= usize::MAX,
    ensures
        token_at(s, pos) matches Some(t) ==> token_fits(s, pos, t),
{
    reveal(token_at);
    let c = s[pos];
    lemma_find_repeated(s, pos + 2, c, 2);
    lemma_find_repeated(s, pos + 1, c, 1);
    lemma_find_repeated(s, pos + 1, '`', 1);
    lemma_tag_stop(s, pos + 1);
    lemma_link_fits(s, pos);
    lemma_link_fits(s, pos + 1);
}

proof fn lemma_link_fits(s: Seq<char>, open: int)
    requires
        0 <= open,
        s.len() <= usize::MAX,
    ensures
        link_at(s, open) matches Some(t) ==> {
            &&& t is Link
            &&& t->open == open
            &&& open + 1 < t->mid
            &&& t->mid + 2 < t->Link_close < s.len()
        },
{
    lemma_find_repeated(s, open + 1, ']', 1);
    if let Some(mid) = find_repeated(s, open + 1, ']', 1) {
        lemma_find_repeated(s, mid + 2, ')', 1);
    }
}

/// The runs of a line from `pos` on, where unstyled text has been pending since
/// `start`.
pub open spec fn inline_runs(s: Seq<char>, start: int, pos: int) -> Seq<SpanView>
    decreases s.len() - pos,
{
    if pos < 0 || pos >= s.len() || s.len() > usize::MAX {
        if start < s.len() {
            seq![style::raw(s.subrange(start, s.len() as int))]
        } else {
            Seq::empty()
        }
    } else {
        proof {
            lemma_token_fits(s, pos);
        }
        match token_at(s, pos) {
            Some(t) => {
                let plain = if start < pos {
                    seq![style::raw(s.subrange(start, pos))]
                } else {
                    Seq::empty()
                };
                plain + token_runs(s, pos, t) + inline_runs(s, token_end(t), token_end(t))
            },
            None => inline_runs(s, start, pos + 1),
        }
    }
}

/// The runs of a line; an empty line has one empty run.
pub open spec fn inline(s: Seq<char>) -> Seq<SpanView> {
    if s.len() == 0 {
        seq![style::raw(s)]
    } else {
        inline_runs(s, 0, 0)
    }
}

fn delimited_token(cs: &Vec<char>, pos: usize, c: char, n: usize, style: Style) -> (r: Option<
    Token,
>)
    requires
        1 <= n <= 2,
        pos + n <= cs.len(),
    ensures
        r == delimited(cs@, pos as int, c, n as int, style),
{
    match find_repeated_char(cs, pos + n, c, n) {
        Some(close) => if close > pos + n {
            Some(Token::Delimited { width: n, close, style })
        } else {
            None
        },
        None => None,
    }
}

fn link_token(cs: &Vec<char>, open: usize) -> (r: Option<Token>)
    requires
        open < cs.len(),
    ensures
        r == link_at(cs@, open as int),
{
    match find_repeated_char(cs, open + 1, ']', 1) {
        Some(mid) => if cs.len() - mid > 1 && cs[mid + 1] == '(' {
            match find_repeated_char(cs, mid + 2, ')', 1) {
                Some(close) => if mid > open + 1 && close > mid + 2 {
                    Some(Token::Link { open, mid, close })
                } else {
                    None
                },
                None => None,
            }
        } else {
            None
        },
        None => None,
    }
}

pub fn is_tag_name_char(c: char) -> (r: bool)
    ensures
        r == is_tag_char(c),
{
    ('A' <= c && c <= 'Z') || ('a' <= c && c <= 'z') || ('0' <= c && c <= '9') || c == '_' || c
        == '/' || c == '-'
}

/// The end of the tag whose `#` stands at `pos`, if its characters are not all
/// digits.
pub fn find_tag_end(cs: &Vec<char>, pos: usize) -> (r: Option<usize>)
    requires
        pos < cs.len(),
    ensures
        r is Some <==> not_all_digits(cs@, pos + 1, tag_stop(cs@, pos + 1)),
        r matches Some(end) ==> end == tag_stop(cs@, pos + 1) && end <= cs.len(),
{
    let mut end: usize = pos + 1;
    let mut named = false;
    while end < cs.len() && is_tag_name_char(cs[end])
        invariant
            pos + 1 <= end <= cs.len(),
            tag_stop(cs@, end as int) == tag_stop(cs@, pos + 1),
            named == not_all_digits(cs@, pos + 1, end as int),
        decreases cs.len() - end,
    {
        if !('0' <= cs[end] && cs[end] <= '9') {
            named = true;
            proof {
                assert(!('0' <= cs@[end as int] <= '9'));
            }
        }
        end += 1;
    }
    if named {
        Some(end)
    } else {
        None
    }
}

fn next_token(cs: &Vec<char>, pos: usize) -> (r: Option<Token>)
    requires
        pos < cs.len(),
    ensures
        r == token_at(cs@, pos as int),
{
    proof {
        reveal(token_at);
    }
    let c = cs[pos];
    let more = cs.len() - pos > 1;
    if (c == '*' || c == '_') && more && cs[pos + 1] == c {
        delimited_token(cs, pos, c, 2, Style::plain().with_bold())
    } else if c == '~' && more && cs[pos + 1] == c {
        delimited_token(cs, pos, c, 2, Style::fg(Color::DarkGray).with_strike())
    } else if (c == '*' || c == '_') && more {
        delimited_token(cs, pos, c, 1, Style::plain().with_italic())
    } else if c == '[' {
        link_token(cs, pos)
    } else if c == '!' && more && cs[pos + 1] == '[' {
        link_token(cs, pos + 1)
    } else if c == '`' {
        match find_repeated_char(cs, pos + 1, '`', 1) {
            Some(close) => Some(Token::Code { end: close + 1 }),
            None => None,
        }
    } else if c == '#' && (pos == 0 || words::is_whitespace(cs[pos - 1])) {
        match find_tag_end(cs, pos) {
            Some(end) => Some(Token::Tag { end }),
            None => None,
        }
    } else {
        None
    }
}

fn push_token(line: &mut StyledLine, content: &str, pos: usize, t: Token)
    requires
        token_fits(content@, pos as int, t),
    ensures
        final(line)@ == old(line)@ + token_runs(content@, pos as int, t),
{
    let dim = Style::fg(Color::DarkGray);
    let _n = content.unicode_len();
    let ghost before = line@;
    match t {
        Token::Delimited { width, close, style } => {
            line.push(content.substring_char(pos, pos + width), dim);
            line.push(content.substring_char(pos + width, close), style);
            line.push(content.substring_char(close, close + width), dim);
        },
        Token::Link { open, mid, close } => {
            if open > pos {
                line.push(content.substring_char(pos, open), dim);
            }
            line.push(content.substring_char(open, open + 1), dim);
            line.push(
                content.substring_char(open + 1, mid),
                Style::fg(Color::LightBlue).with_underline(),
            );
            line.push(content.substring_char(mid, mid + 2), dim);
            line.push(content.substring_char(mid + 2, close), dim);
            line.push(content.substring_char(close, close + 1), dim);
        },
        Token::Code { end } => {
            line.push(content.substring_char(pos, end), Style::fg(Color::Magenta));
        },
        Token::Tag { end } => {
            line.push(content.substring_char(pos, end), Style::fg(Color::Green));
        },
    }
    proof {
        reveal(token_runs);
        assert(line@ =~= before + token_runs(content@, pos as int, t));
    }
}

/// Scan `content` for Markdown markup, `#tagname` and `` `code` `` tokens and
/// return a line with those regions styled, leaving the rest as plain text.
pub fn highlight_inline(content: &str) -> (r: StyledLine)
    ensures
        r@ == inline(content@),
{
    let cs = text::chars_of(content);
    let mut line = StyledLine::new();
    if cs.len() == 0 {
        line.push_raw(content);
        proof {
            assert(line@ =~= inline(content@));
        }
        return line;
    }
    let mut plain_start: usize = 0;
    let mut pos: usize = 0;
    proof {
        assert(line@ + inline_runs(cs@, 0, 0) =~= inline(content@));
    }
    while pos < cs.len()
        invariant
            plain_start <= pos <= cs.len(),
            cs@ == content@,
            line@ + inline_runs(cs@, plain_start as int, pos as int) == inline(content@),
        decreases cs.len() - pos,
    {
        proof {
            lemma_token_fits(cs@, pos as int);
        }
        match next_token(&cs, pos) {
            Some(t) => {
                let ghost before = line@;
                if plain_start < pos {
                    line.push_raw(content.substring_char(plain_start, pos));
                }
                push_token(&mut line, content, pos, t);
                let end = match t {
                    Token::Delimited { width, close, style } => close + width,
                    Token::Link { open, mid, close } => close + 1,
                    Token::Code { end } => end,
                    Token::Tag { end } => end,
                };
                proof {
                    let rest = inline_runs(cs@, end as int, end as int);
                    assert(line@ + rest =~= before + inline_runs(
                        cs@,
                        plain_start as int,
                        pos as int,
                    ));
                }
                plain_start = end;
                pos = end;
            },
            None => {
                pos += 1;
            },
        }
    }
    if plain_start < cs.len() {
        line.push_raw(content.substring_char(plain_start, cs.len()));
    }
    proof {
        assert(line@ =~= inline(content@));
    }
    line
}

/// Highlighting changes no text: the runs of a line, put together, are the line.
pub proof fn law_inline_keeps_text(s: Seq<char>)
    requires
        s.len() <= usize::MAX,
    ensures
        style::text_of(inline(s)) == s,
{
    if s.len() == 0 {
        style::lemma_text_of_one(style::raw(s));
    } else {
        lemma_inline_text(s, 0, 0);
        assert(s.subrange(0, s.len() as int) =~= s);
    }
}

proof fn lemma_inline_text(s: Seq<char>, start: int, pos: int)
    requires
        0 <= start <= pos <= s.len(),
        s.len() <= usize::MAX,
    ensures
        style::text_of(inline_runs(s, start, pos)) == s.subrange(start, s.len() as int),
    decreases s.len() - pos,
{
    if pos >= s.len() {
        if start < s.len() {
            style::lemma_text_of_one(style::raw(s.subrange(start, s.len() as int)));
        } else {
            assert(s.subrange(start, s.len() as int) =~= Seq::empty());
        }
    } else {
        lemma_token_fits(s, pos);
        match token_at(s, pos) {
            Some(t) => {
                let plain = if start < pos {
                    seq![style::raw(s.subrange(start, pos))]
                } else {
                    Seq::empty()
                };
                let end = token_end(t);
                if start < pos {
                    style::lemma_text_of_one(style::raw(s.subrange(start, pos)));
                }
                assert(style::text_of(plain) =~= s.subrange(start, pos));
                lemma_token_text(s, pos, t);
                lemma_inline_text(s, end, end);
                let runs = token_runs(s, pos, t);
                let rest = inline_runs(s, end, end);
                style::lemma_text_of_concat(plain, runs);
                style::lemma_text_of_concat(plain + runs, rest);
                assert(s.subrange(start, pos) + s.subrange(pos, end) + s.subrange(
                    end,
                    s.len() as int,
                ) =~= s.subrange(start, s.len() as int));
            },
            None => {
                lemma_inline_text(s, start, pos + 1);
            },
        }
    }
}

proof fn lemma_token_text(s: Seq<char>, pos: int, t: Token)
    requires
        0 <= pos,
        token_fits(s, pos, t),
    ensures
        style::text_of(token_runs(s, pos, t)) == s.subrange(pos, token_end(t)),
{
    reveal(token_runs);
    reveal_with_fuel(style::text_of, 7);
    let runs = token_runs(s, pos, t);
    match t {
        Token::Delimited { width, close, style } => {
            assert(runs.drop_last().drop_last() =~= seq![runs[0]]);
            assert(runs.drop_last() =~= seq![runs[0], runs[1]]);
        },
        Token::Link { open, mid, close } => {
            let n = runs.len() as int;
            assert(runs.drop_last() =~= runs.subrange(0, n - 1));
            assert(runs.drop_last().drop_last() =~= runs.subrange(0, n - 2));
            assert(runs.drop_last().drop_last().drop_last() =~= runs.subrange(0, n - 3));
            assert(runs.drop_last().drop_last().drop_last().drop_last() =~= runs.subrange(
                0,
                n - 4,
            ));
        },
        _ => {},
    }
    assert(style::text_of(runs) =~= s.subrange(pos, token_end(t)));
}

// ---------------------------------------------------------------------------
// Whole lines
// ---------------------------------------------------------------------------

/// A line that opens or closes a fenced code block on screen.
pub open spec fn fence_line(s: Seq<char>) -> bool {
    text::begins_with(s, "```"@) || text::begins_with(s, "~~~"@)
}

pub fn is_fence_line(content: &str) -> (r: bool)
    ensures
        r == fence_line(content@),
{
    text::starts_with(content, "```") || text::starts_with(content, "~~~")
}

/// A delimiter line on screen.
pub open spec fn delimiter_line(s: Seq<char>) -> bool {
    s == "==="@ || text::begins_with(s, "=== "@)
}

pub fn is_delimiter(content: &str) -> (r: bool)
    ensures
        r == delimiter_line(content@),
{
    text::same(content, "===") || text::starts_with(content, "=== ")
}

/// Number of characters `c` at the start of `s`, from `i` on.
pub open spec fn leading(s: Seq<char>, i: int, c: char) -> int
    decreases s.len() - i,
{
    if 0 <= i < s.len() && s[i] == c {
        leading(s, i + 1, c)
    } else {
        i
    }
}

/// `#` to `######`, alone or followed by a space.
pub open spec fn heading(s: Seq<char>) -> bool {
    let n = leading(s, 0, '#');
    1 <= n <= 6 && (n == s.len() || s[n] == ' ')
}

fn is_heading(cs: &Vec<char>) -> (r: bool)
    ensures
        r == heading(cs@),
{
    let mut n: usize = 0;
    while n < cs.len() && cs[n] == '#'
        invariant
            n <= cs.len(),
            leading(cs@, n as int, '#') == leading(cs@, 0, '#'),
        decreases cs.len() - n,
    {
        n += 1;
    }
    1 <= n && n <= 6 && (n == cs.len() || cs[n] == ' ')
}

/// Three or more of one of `-`, `*`, `_`, white space around them aside.
pub open spec fn rule_line(s: Seq<char>) -> bool {
    let t = words::trim(s);
    &&& t.len() >= 3
    &&& t[0] == '-' || t[0] == '*' || t[0] == '_'
    &&& forall|k: int| 0 <= k < t.len() ==> #[trigger] t[k] == t[0]
}

/// True iff `s` is composed of one of the HR characters (`-`, `*`, `_`)
/// repeated ≥3 times, optionally surrounded by whitespace.
pub fn is_hr_line(s: &str) -> (r: bool)
    ensures
        r == rule_line(s@),
{
    let t = text::chars_of(words::trimmed(s));
    if t.len() < 3 {
        return false;
    }
    let c = t[0];
    if !(c == '-' || c == '*' || c == '_') {
        return false;
    }
    let mut k: usize = 0;
    while k < t.len()
        invariant
            k <= t.len(),
            t@ == words::trim(s@),
            t.len() >= 3,
            c == t@[0],
            c == '-' || c == '*' || c == '_',
            forall|j: int| 0 <= j < k ==> t@[j] == c,
        decreases t.len() - k,
    {
        if t[k] != c {
            proof {
                assert(t@[k as int] != t@[0]);
            }
            return false;
        }
        k += 1;
    }
    true
}

/// `- `, `* ` or `+ `, but no checkbox.
pub open spec fn bullet_line(s: Seq<char>) -> bool {
    &&& s.len() >= 2
    &&& s[0] == '-' || s[0] == '*' || s[0] == '+'
    &&& s[1] == ' '
    &&& !(s[0] == '-' && s.len() >= 3 && s[2] == '[')
}

/// If `content` starts with an unordered list bullet (`- `, `* `, or `+ `)
/// — but not a checkbox prefix — return the rest of the line after the bullet
/// and its single trailing space.
pub fn list_bullet_rest(content: &str) -> (r: Option<&str>)
    ensures
        r is Some <==> bullet_line(content@),
        r matches Some(t) ==> t@ == content@.subrange(2, content@.len() as int),
{
    let cs = text::chars_of(content);
    if cs.len() >= 2 && (cs[0] == '-' || cs[0] == '*' || cs[0] == '+') && cs[1] == ' ' && !(cs[0]
        == '-' && cs.len() >= 3 && cs[2] == '[') {
        Some(content.substring_char(2, cs.len()))
    } else {
        None
    }
}

/// Number of digits at the start of `s`, from `i` on.
pub open spec fn digits(s: Seq<char>, i: int) -> int
    decreases s.len() - i,
{
    if 0 <= i < s.len() && '0' <= s[i] <= '9' {
        digits(s, i + 1)
    } else {
        i
    }
}

/// Length of the `N. ` at the start of `s`.
pub open spec fn ordered_prefix(s: Seq<char>) -> Option<int> {
    let n = digits(s, 0);
    if n >= 1 && n + 1 < s.len() && s[n] == '.' && s[n + 1] == ' ' {
        Some(n + 2)
    } else {
        None
    }
}

/// If `content` starts with `N. ` (one or more ASCII digits, a `.`, then a
/// space), return the length of that prefix.
pub fn ordered_list_prefix_len(content: &str) -> (r: Option<usize>)
    ensures
        match (r, ordered_prefix(content@)) {
            (Some(n), Some(m)) => n == m && n <= content@.len(),
            (None, None) => true,
            _ => false,
        },
{
    let cs = text::chars_of(content);
    let mut i: usize = 0;
    while i < cs.len() && '0' <= cs[i] && cs[i] <= '9'
        invariant
            i <= cs.len(),
            digits(cs@, i as int) == digits(cs@, 0),
        decreases cs.len() - i,
    {
        i += 1;
    }
    if i >= 1 && cs.len() - i > 1 && cs[i] == '.' && cs[i + 1] == ' ' {
        Some(i + 2)
    } else {
        None
    }
}

/// The runs with italics added to each.
pub open spec fn italicised(runs: Seq<SpanView>) -> Seq<SpanView> {
    runs.map_values(|r: SpanView| SpanView { style: r.style.spec_italic(), ..r })
}

fn push_italicised(line: &mut StyledLine, inner: StyledLine)
    ensures
        final(line)@ == old(line)@ + italicised(inner@),
{
    let ghost before = line@;
    let mut i: usize = 0;
    proof {
        assert(before + italicised(inner@).subrange(0, 0) =~= before);
    }
    while i < inner.spans.len()
        invariant
            i <= inner.spans.len(),
            line@ == before + italicised(inner@).subrange(0, i as int),
        decreases inner.spans.len() - i,
    {
        line.push(inner.spans[i].content.as_str(), inner.spans[i].style.with_italic());
        i += 1;
        proof {
            assert(inner@[i - 1] == inner.spans@[i - 1]@);
            assert(line@ =~= before + italicised(inner@).subrange(0, i as int));
        }
    }
    proof {
        assert(italicised(inner@).subrange(0, i as int) =~= italicised(inner@));
    }
}

/// What follows the first `n` characters of `s`.
pub open spec fn from(s: Seq<char>, n: int) -> Seq<char> {
    s.subrange(n, s.len() as int)
}

/// The runs of a line outside fenced code. The first rule that fits decides.
pub open spec fn normal_line(s: Seq<char>) -> Seq<SpanView> {
    if delimiter_line(s) {
        seq![style::run(s, Style::colored(Color::Cyan).spec_bold())]
    } else if heading(s) {
        seq![style::run(s, Style::colored(Color::Yellow).spec_bold())]
    } else if text::begins_with(s, "TODO:"@) {
        seq![style::run("TODO:"@, Style::colored(Color::LightYellow).spec_bold())] + inline(
            from(s, "TODO:"@.len() as int),
        )
    } else if text::begins_with(s, "DONE:"@) {
        seq![style::run(s, Style::colored(Color::DarkGray))]
    } else if text::begins_with(s, "- [ ]"@) {
        seq![style::run("- [ ]"@, Style::colored(Color::Yellow))] + inline(
            from(s, "- [ ]"@.len() as int),
        )
    } else if text::begins_with(s, "- [x]"@) || text::begins_with(s, "- [X]"@) {
        seq![style::run(s, Style::colored(Color::DarkGray))]
    } else if rule_line(s) {
        seq![style::run(s, Style::colored(Color::DarkGray).spec_dim())]
    } else if text::begins_with(s, "> "@) {
        seq![style::run("> "@, Style::colored(Color::Yellow))] + italicised(
            inline(from(s, "> "@.len() as int)),
        )
    } else if bullet_line(s) {
        seq![style::run(s.subrange(0, 2), Style::colored(Color::Yellow))] + inline(from(s, 2))
    } else if let Some(n) = ordered_prefix(s) {
        seq![style::run(s.subrange(0, n), Style::colored(Color::Yellow))] + inline(from(s, n))
    } else {
        inline(s)
    }
}

/// Build a styled line for a single non-fenced line.
pub fn highlight_normal_line(content: &str) -> (r: StyledLine)
    ensures
        r@ == normal_line(content@),
{
    // Note delimiter  ===  (with or without date / title)
    if is_delimiter(content) {
        return StyledLine::of(content, Style::fg(Color::Cyan).with_bold());
    }
    // Markdown headings  #  through  ######
    let cs = text::chars_of(content);
    if is_heading(&cs) {
        return StyledLine::of(content, Style::fg(Color::Yellow).with_bold());
    }
    // TODO:  prefix — colour the keyword, then highlight the rest inline
    if let Some(rest) = words::strip_prefix(content, "TODO:") {
        let mut line = StyledLine::of("TODO:", Style::fg(Color::LightYellow).with_bold());
        line.extend(highlight_inline(rest));
        return line;
    }
    // DONE:  prefix — dim the whole line
    if text::starts_with(content, "DONE:") {
        return StyledLine::of(content, Style::fg(Color::DarkGray));
    }
    // Open checkbox  - [ ]
    if let Some(rest) = words::strip_prefix(content, "- [ ]") {
        let mut line = StyledLine::of("- [ ]", Style::fg(Color::Yellow));
        line.extend(highlight_inline(rest));
        return line;
    }
    // Done checkbox  - [x]  or  - [X]
    if text::starts_with(content, "- [x]") || text::starts_with(content, "- [X]") {
        return StyledLine::of(content, Style::fg(Color::DarkGray));
    }
    // Horizontal rule  ---  ***  ___  (checked before list-bullet to avoid
    // catching `---` as `- --`).
    if is_hr_line(content) {
        return StyledLine::of(content, Style::fg(Color::DarkGray).with_dim());
    }
    // Blockquote  > body
    if let Some(rest) = words::strip_prefix(content, "> ") {
        let mut line = StyledLine::of("> ", Style::fg(Color::Yellow));
        push_italicised(&mut line, highlight_inline(rest));
        return line;
    }
    // Unordered list bullet  - text  /  * text  /  + text
    if let Some(rest) = list_bullet_rest(content) {
        let mut line = StyledLine::of(content.substring_char(0, 2), Style::fg(Color::Yellow));
        line.extend(highlight_inline(rest));
        return line;
    }
    // Ordered list  N. text
    if let Some(n) = ordered_list_prefix_len(content) {
        let mut line = StyledLine::of(content.substring_char(0, n), Style::fg(Color::Yellow));
        line.extend(highlight_inline(content.substring_char(n, cs.len())));
        return line;
    }
    // Everything else — inline scan
    highlight_inline(content)
}

/// Highlighting a line changes none of its text.
pub proof fn law_normal_line_keeps_text(s: Seq<char>)
    requires
        s.len() <= usize::MAX,
    ensures
        style::text_of(normal_line(s)) == s,
{
    law_inline_keeps_text(s);
    let whole = normal_line(s);
    if whole.len() == 1 {
        style::lemma_text_of_one(whole[0]);
        assert(whole =~= seq![whole[0]]);
    }
    if text::begins_with(s, "TODO:"@) {
        lemma_split_text(s, "TODO:"@.len() as int, Style::colored(Color::LightYellow).spec_bold());
    }
    if text::begins_with(s, "- [ ]"@) {
        lemma_split_text(s, "- [ ]"@.len() as int, Style::colored(Color::Yellow));
    }
    if text::begins_with(s, "> "@) {
        let rest = from(s, "> "@.len() as int);
        law_inline_keeps_text(rest);
        lemma_italics_keep_text(inline(rest));
        let head = style::run("> "@, Style::colored(Color::Yellow));
        style::lemma_text_of_one(head);
        style::lemma_text_of_concat(seq![head], italicised(inline(rest)));
        assert("> "@ + rest =~= s);
    }
    if bullet_line(s) {
        lemma_split_text(s, 2, Style::colored(Color::Yellow));
    }
    if let Some(n) = ordered_prefix(s) {
        lemma_digits(s, 0);
        lemma_split_text(s, n, Style::colored(Color::Yellow));
    }
}

proof fn lemma_digits(s: Seq<char>, i: int)
    ensures
        digits(s, i) >= i,
    decreases s.len() - i,
{
    if 0 <= i < s.len() && '0' <= s[i] <= '9' {
        lemma_digits(s, i + 1);
    }
}

proof fn lemma_split_text(s: Seq<char>, n: int, st: Style)
    requires
        0 <= n <= s.len() <= usize::MAX,
    ensures
        style::text_of(seq![style::run(s.subrange(0, n), st)] + inline(from(s, n))) == s,
{
    let head = style::run(s.subrange(0, n), st);
    law_inline_keeps_text(from(s, n));
    style::lemma_text_of_one(head);
    style::lemma_text_of_concat(seq![head], inline(from(s, n)));
    assert(s.subrange(0, n) + from(s, n) =~= s);
}

proof fn lemma_italics_keep_text(runs: Seq<SpanView>)
    ensures
        style::text_of(italicised(runs)) == style::text_of(runs),
    decreases runs.len(),
{
    if runs.len() > 0 {
        assert(italicised(runs).drop_last() =~= italicised(runs.drop_last()));
        lemma_italics_keep_text(runs.drop_last());
    }
}

} // verus!
