//! What highlighting shows: which characters of a line are strong, struck out, emphasised,
//! links, code or tags, and how lines of each kind look. A line is read from left to
//! right; what follows a piece of markup is shown as if it stood alone.

use vstd::prelude::*;

use crate::filter_laws::spacing;
use crate::highlight;
use crate::highlight::Token;
use crate::style;
use crate::style::{Color, SpanView, Style};
use crate::text;
use crate::words;
use crate::writing_laws::{all_spacing, law_trim};

verus! {

// ---------------------------------------------------------------------------
// A line and what stands before it
// ---------------------------------------------------------------------------

/// The runs that a line shows; none for an empty line.
pub open spec fn look(s: Seq<char>) -> Seq<SpanView> {
    highlight::inline_runs(s, 0, 0)
}

/// The part `[n, ..)` of a line can be read alone: no `#` at its start, behind which it
/// would be taken for a tag.
pub open spec fn alone(s: Seq<char>) -> bool {
    s.len() > 0 ==> s[0] != '#'
}

proof fn lemma_repeated_shift(s: Seq<char>, n: int, f: int, c: char, w: int)
    requires
        0 <= n <= s.len(),
        0 <= f,
        w >= 1,
    ensures
        highlight::find_repeated(s, n + f, c, w) == match highlight::find_repeated(
            s.subrange(n, s.len() as int),
            f,
            c,
            w,
        ) {
            Some(i) => Some(n + i),
            None => None,
        },
    decreases s.len() - n - f,
{
    let t = s.subrange(n, s.len() as int);
    if f < t.len() {
        lemma_repeated_shift(s, n, f + 1, c, w);
        if highlight::repeated_at(t, f, c, w) {
            assert forall|k: int| n + f <= k < n + f + w implies s[k] == c by {
                assert(t[k - n] == c);
            }
        }
        if highlight::repeated_at(s, n + f, c, w) {
            assert forall|k: int| f <= k < f + w implies t[k] == c by {
                assert(s[n + k] == c);
            }
        }
    }
}

proof fn lemma_tag_shift(s: Seq<char>, n: int, p: int)
    requires
        0 <= n <= s.len(),
        0 <= p <= s.len() - n,
    ensures
        highlight::tag_stop(s, n + p) == n + highlight::tag_stop(
            s.subrange(n, s.len() as int),
            p,
        ),
    decreases s.len() - n - p,
{
    let t = s.subrange(n, s.len() as int);
    if p < t.len() && highlight::is_tag_char(t[p]) {
        lemma_tag_shift(s, n, p + 1);
    }
}

/// A token `n` characters further on.
pub open spec fn moved(t: Token, n: int) -> Token {
    match t {
        Token::Delimited { width, close, style } => Token::Delimited {
            width,
            close: (close + n) as usize,
            style,
        },
        Token::Link { open, mid, close } => Token::Link {
            open: (open + n) as usize,
            mid: (mid + n) as usize,
            close: (close + n) as usize,
        },
        Token::Code { end } => Token::Code { end: (end + n) as usize },
        Token::Tag { end } => Token::Tag { end: (end + n) as usize },
    }
}

proof fn lemma_link_shift(s: Seq<char>, n: int, open: int)
    requires
        0 <= n <= s.len() <= usize::MAX,
        0 <= open,
    ensures
        highlight::link_at(s, n + open) == match highlight::link_at(
            s.subrange(n, s.len() as int),
            open,
        ) {
            Some(k) => Some(moved(k, n)),
            None => None,
        },
{
    let t = s.subrange(n, s.len() as int);
    lemma_repeated_shift(s, n, open + 1, ']', 1);
    highlight::lemma_find_repeated(t, open + 1, ']', 1);
    if let Some(mid) = highlight::find_repeated(t, open + 1, ']', 1) {
        if mid + 1 < t.len() {
            assert(t[mid + 1] == s[n + mid + 1]);
            lemma_repeated_shift(s, n, mid + 2, ')', 1);
            highlight::lemma_find_repeated(t, mid + 2, ')', 1);
        }
    }
}

#[verifier::spinoff_prover]
proof fn lemma_token_shift(s: Seq<char>, n: int, j: int)
    requires
        0 <= n <= s.len() <= usize::MAX,
        0 <= j < s.len() - n,
        alone(s.subrange(n, s.len() as int)),
    ensures
        highlight::token_at(s, n + j) == match highlight::token_at(
            s.subrange(n, s.len() as int),
            j,
        ) {
            Some(k) => Some(moved(k, n)),
            None => None,
        },
{
    reveal(highlight::token_at);
    let t = s.subrange(n, s.len() as int);
    let c = t[j];
    assert(s[n + j] == c);
    if j + 1 < t.len() {
        assert(s[n + j + 1] == t[j + 1]);
        lemma_repeated_shift(s, n, j + 2, c, 2);
        highlight::lemma_find_repeated(t, j + 2, c, 2);
    }
    if j > 0 {
        assert(s[n + j - 1] == t[j - 1]);
    }
    lemma_repeated_shift(s, n, j + 1, c, 1);
    highlight::lemma_find_repeated(t, j + 1, c, 1);
    lemma_link_shift(s, n, j);
    lemma_link_shift(s, n, j + 1);
    lemma_tag_shift(s, n, j + 1);
    highlight::lemma_tag_stop(t, j + 1);
    let e = highlight::tag_stop(t, j + 1);
    if highlight::not_all_digits(t, j + 1, e) {
        let k = choose|k: int| j + 1 <= k < e && !('0' <= #[trigger] t[k] <= '9');
        assert(s[n + k] == t[k]);
    }
    if highlight::not_all_digits(s, n + j + 1, n + e) {
        let k = choose|k: int| n + j + 1 <= k < n + e && !('0' <= #[trigger] s[k] <= '9');
        assert(s[k] == t[k - n]);
    }
}

proof fn lemma_runs_shift(s: Seq<char>, n: int, j: int, k: Token)
    requires
        0 <= n <= s.len() <= usize::MAX,
        0 <= j < s.len() - n,
        highlight::token_fits(s.subrange(n, s.len() as int), j, k),
    ensures
        highlight::token_runs(s, n + j, moved(k, n)) == highlight::token_runs(
            s.subrange(n, s.len() as int),
            j,
            k,
        ),
        highlight::token_end(moved(k, n)) == n + highlight::token_end(k),
{
    reveal(highlight::token_runs);
    let t = s.subrange(n, s.len() as int);
    match k {
        Token::Delimited { width, close, style } => {
            assert(s.subrange(n + j, n + j + width) =~= t.subrange(j, j + width));
            assert(s.subrange(n + j + width, n + close) =~= t.subrange(j + width, close as int));
            assert(s.subrange(n + close, n + close + width) =~= t.subrange(
                close as int,
                close + width,
            ));
        },
        Token::Link { open, mid, close } => {
            assert(s.subrange(n + j, n + open) =~= t.subrange(j, open as int));
            assert(s.subrange(n + open, n + open + 1) =~= t.subrange(open as int, open + 1));
            assert(s.subrange(n + open + 1, n + mid) =~= t.subrange(open + 1, mid as int));
            assert(s.subrange(n + mid, n + mid + 2) =~= t.subrange(mid as int, mid + 2));
            assert(s.subrange(n + mid + 2, n + close) =~= t.subrange(mid + 2, close as int));
            assert(s.subrange(n + close, n + close + 1) =~= t.subrange(close as int, close + 1));
        },
        Token::Code { end } => {
            assert(s.subrange(n + j, n + end) =~= t.subrange(j, end as int));
        },
        Token::Tag { end } => {
            assert(s.subrange(n + j, n + end) =~= t.subrange(j, end as int));
        },
    }
}

proof fn lemma_look_shift(s: Seq<char>, n: int, a: int, j: int)
    requires
        0 <= n <= s.len() <= usize::MAX,
        0 <= a <= j <= s.len() - n,
        alone(s.subrange(n, s.len() as int)),
    ensures
        highlight::inline_runs(s, n + a, n + j) == highlight::inline_runs(
            s.subrange(n, s.len() as int),
            a,
            j,
        ),
    decreases s.len() - n - j,
{
    let t = s.subrange(n, s.len() as int);
    if j >= t.len() {
        assert(s.subrange(n + a, s.len() as int) =~= t.subrange(a, t.len() as int));
    } else {
        lemma_token_shift(s, n, j);
        highlight::lemma_token_fits(t, j);
        match highlight::token_at(t, j) {
            Some(k) => {
                lemma_runs_shift(s, n, j, k);
                let e = highlight::token_end(k);
                lemma_look_shift(s, n, e, e);
                assert(s.subrange(n + a, n + j) =~= t.subrange(a, j));
            },
            None => {
                lemma_look_shift(s, n, a, j + 1);
            },
        }
    }
}

/// A character that starts no markup.
pub open spec fn ordinary(c: char) -> bool {
    c != '*' && c != '_' && c != '~' && c != '[' && c != '!' && c != '`' && c != '#'
}

/// Text of such characters.
pub open spec fn plain(s: Seq<char>) -> bool {
    forall|k: int| 0 <= k < s.len() ==> ordinary(#[trigger] s[k])
}

proof fn lemma_plain(s: Seq<char>, a: int, p: int, q: int)
    requires
        0 <= a <= p <= q <= s.len() <= usize::MAX,
        forall|k: int| p <= k < q ==> highlight::token_at(s, k) is None,
    ensures
        highlight::inline_runs(s, a, p) == highlight::inline_runs(s, a, q),
    decreases q - p,
{
    if p < q {
        assert(highlight::token_at(s, p) is None);
        lemma_plain(s, a, p + 1, q);
    }
}

proof fn lemma_no_token(s: Seq<char>, k: int)
    requires
        0 <= k < s.len(),
        ordinary(s[k]),
    ensures
        highlight::token_at(s, k) is None,
{
    reveal(highlight::token_at);
}

/// Unstyled text, if any.
pub open spec fn bare_run(a: Seq<char>) -> Seq<SpanView> {
    if a.len() == 0 {
        Seq::empty()
    } else {
        seq![
            SpanView {
                text: a,
                style: Style {
                    fg: None,
                    bg: None,
                    bold: false,
                    dim: false,
                    italic: false,
                    underlined: false,
                    crossed_out: false,
                },
            },
        ]
    }
}

/// Text in a colour.
pub open spec fn tinted(a: Seq<char>, c: Color) -> SpanView {
    SpanView {
        text: a,
        style: Style {
            fg: Some(c),
            bg: None,
            bold: false,
            dim: false,
            italic: false,
            underlined: false,
            crossed_out: false,
        },
    }
}

proof fn lemma_piece(a: Seq<char>, m: Seq<char>, rest: Seq<char>, t: Token)
    requires
        (a + m + rest).len() <= usize::MAX,
        plain(a),
        m.len() > 0,
        highlight::token_at(a + m + rest, a.len() as int) == Some(t),
        highlight::token_end(t) == a.len() + m.len(),
        alone(rest),
    ensures
        look(a + m + rest) == bare_run(a) + highlight::token_runs(a + m + rest, a.len() as int, t)
            + look(rest),
{
    let s = a + m + rest;
    let n = a.len() as int;
    let e = n + m.len();
    assert forall|k: int| 0 <= k < n implies highlight::token_at(s, k) is None by {
        assert(s[k] == a[k]);
        lemma_no_token(s, k);
    }
    lemma_plain(s, 0, 0, n);
    assert(s.subrange(e, s.len() as int) =~= rest);
    lemma_look_shift(s, e, 0, 0);
    assert(s.subrange(0, n) =~= a);
    assert(look(s) =~= bare_run(a) + highlight::token_runs(s, n, t) + look(rest));
}

// ---------------------------------------------------------------------------
// Markup in a line
// ---------------------------------------------------------------------------

/// Text without markup is one unstyled run, and so is text with a single marker that
/// nothing closes.
pub proof fn law_plain_text(a: Seq<char>, c: char, rest: Seq<char>)
    requires
        plain(a),
        plain(rest),
        a.len() + 1 + rest.len() <= usize::MAX,
        c != '#' || (a.len() > 0 && !spacing(a.last())),
        c != '[' || !rest.contains(']'),
    ensures
        look(a) == bare_run(a),
        look(a + seq![c] + rest) == bare_run(a + seq![c] + rest),
{
    assert forall|k: int| 0 <= k < a.len() implies highlight::token_at(a, k) is None by {
        lemma_no_token(a, k);
    }
    lemma_plain(a, 0, 0, a.len() as int);
    assert(a.subrange(0, a.len() as int) =~= a);
    let s = a + seq![c] + rest;
    let n = a.len() as int;
    assert forall|k: int| 0 <= k < s.len() implies highlight::token_at(s, k) is None by {
        if k == n {
            assert forall|i: int| n < i < s.len() implies ordinary(#[trigger] s[i]) && (c == '['
                ==> s[i] != ']') by {
                assert(s[i] == rest[i - n - 1]);
            }
            lemma_lone(s, n);
        } else {
            if k < n {
                assert(s[k] == a[k]);
            } else {
                assert(s[k] == rest[k - n - 1]);
            }
            lemma_no_token(s, k);
        }
    }
    lemma_plain(s, 0, 0, s.len() as int);
    assert(s.subrange(0, s.len() as int) =~= s);
}

proof fn lemma_lone(s: Seq<char>, n: int)
    requires
        0 <= n < s.len() <= usize::MAX,
        forall|k: int|
            n < k < s.len() ==> ordinary(#[trigger] s[k]) && (s[n] == '[' ==> s[k] != ']'),
        s[n] == '#' ==> n > 0 && !spacing(s[n - 1]),
    ensures
        highlight::token_at(s, n) is None,
{
    reveal(highlight::token_at);
    let c = s[n];
    highlight::lemma_find_repeated(s, n + 1, c, 1);
    if c == '*' || c == '_' || c == '`' {
        if let Some(i) = highlight::find_repeated(s, n + 1, c, 1) {
            assert(s[i] == c);
        }
    }
    if c == '[' {
        highlight::lemma_find_repeated(s, n + 1, ']', 1);
        if let Some(i) = highlight::find_repeated(s, n + 1, ']', 1) {
            assert(s[i] == ']');
        }
    }
    if c == '#' {
        assert(words::is_white(s[n - 1]) == spacing(s[n - 1]));
    }
    assert(n + 1 < s.len() ==> ordinary(s[n + 1]));
}

/// A pair of markers that nothing closes is text.
pub proof fn law_unclosed_pair(a: Seq<char>, c: char, rest: Seq<char>)
    requires
        plain(a),
        plain(rest),
        a.len() + 2 + rest.len() <= usize::MAX,
        c == '*' || c == '_' || c == '~',
    ensures
        look(a + seq![c, c] + rest) == bare_run(a + seq![c, c] + rest),
{
    let s = a + seq![c, c] + rest;
    let n = a.len() as int;
    assert(s[n] == c && s[n + 1] == c);
    assert forall|i: int| n + 2 <= i < s.len() implies ordinary(#[trigger] s[i]) by {
        assert(s[i] == rest[i - n - 2]);
    }
    assert forall|k: int| 0 <= k < s.len() implies highlight::token_at(s, k) is None by {
        if k == n {
            reveal(highlight::token_at);
            highlight::lemma_find_repeated(s, n + 2, c, 2);
            if let Some(i) = highlight::find_repeated(s, n + 2, c, 2) {
                assert(s[i] == c);
                assert(ordinary(s[i]));
            }
        } else if k == n + 1 {
            lemma_lone(s, n + 1);
        } else {
            if k < n {
                assert(s[k] == a[k]);
            }
            lemma_no_token(s, k);
        }
    }
    lemma_plain(s, 0, 0, s.len() as int);
    assert(s.subrange(0, s.len() as int) =~= s);
}

/// Brackets without an address behind them are text, and so is `#` with digits only.
pub proof fn law_no_link_no_tag(a: Seq<char>, label: Seq<char>, rest: Seq<char>)
    requires
        plain(a),
        plain(label),
        plain(rest),
        a.len() + label.len() + rest.len() + 2 <= usize::MAX,
    ensures
        !label.contains(']') && (rest.len() == 0 || rest[0] != '(') ==> look(
            a + seq!['['] + label + seq![']'] + rest,
        ) == bare_run(a + seq!['['] + label + seq![']'] + rest),
        (forall|k: int| 0 <= k < label.len() ==> '0' <= #[trigger] label[k] <= '9') && (rest.len()
            == 0 || !in_name(rest[0])) ==> look(a + seq!['#'] + label + rest) == bare_run(
            a + seq!['#'] + label + rest,
        ),
{
    let n = a.len() as int;
    if !label.contains(']') && (rest.len() == 0 || rest[0] != '(') {
        let s = a + seq!['['] + label + seq![']'] + rest;
        let mid = n + 1 + label.len();
        assert(s[n] == '[' && s[mid] == ']');
        assert forall|k: int| 0 <= k < s.len() && k != n implies ordinary(#[trigger] s[k]) by {
            if k < n {
                assert(s[k] == a[k]);
            } else if k < mid {
                assert(s[k] == label[k - n - 1]);
            } else if k > mid {
                assert(s[k] == rest[k - mid - 1]);
            }
        }
        assert forall|k: int| n + 1 <= k < mid implies #[trigger] s[k] != ']' by {
            assert(s[k] == label[k - n - 1]);
            assert(label.contains(label[k - n - 1]));
        }
        lemma_single(s, n + 1, mid, ']');
        if mid + 1 < s.len() {
            assert(s[mid + 1] == rest[0]);
        }
        assert forall|k: int| 0 <= k < s.len() implies highlight::token_at(s, k) is None by {
            if k == n {
                reveal(highlight::token_at);
            } else {
                lemma_no_token(s, k);
            }
        }
        lemma_plain(s, 0, 0, s.len() as int);
        assert(s.subrange(0, s.len() as int) =~= s);
    }
    if (forall|k: int| 0 <= k < label.len() ==> '0' <= #[trigger] label[k] <= '9') && (rest.len()
        == 0 || !in_name(rest[0])) {
        let s = a + seq!['#'] + label + rest;
        let q = n + 1 + label.len();
        assert(s[n] == '#');
        assert forall|k: int| 0 <= k < s.len() && k != n implies ordinary(#[trigger] s[k]) by {
            if k < n {
                assert(s[k] == a[k]);
            } else if k < q {
                assert(s[k] == label[k - n - 1]);
            } else {
                assert(s[k] == rest[k - q]);
            }
        }
        assert forall|k: int| n + 1 <= k < q implies '0' <= #[trigger] s[k] <= '9' by {
            assert(s[k] == label[k - n - 1]);
        }
        if q < s.len() {
            assert(s[q] == rest[0]);
        }
        lemma_tag_stops(s, n + 1, q);
        assert forall|k: int| 0 <= k < s.len() implies highlight::token_at(s, k) is None by {
            if k == n {
                reveal(highlight::token_at);
            } else {
                lemma_no_token(s, k);
            }
        }
        lemma_plain(s, 0, 0, s.len() as int);
        assert(s.subrange(0, s.len() as int) =~= s);
    }
}

proof fn lemma_first_repeated(s: Seq<char>, f: int, q: int, c: char, w: int)
    requires
        0 <= f <= q < s.len(),
        w >= 1,
        highlight::repeated_at(s, q, c, w),
        forall|k: int| f <= k < q ==> !#[trigger] highlight::repeated_at(s, k, c, w),
    ensures
        highlight::find_repeated(s, f, c, w) == Some(q),
    decreases q - f,
{
    if f < q {
        assert(!highlight::repeated_at(s, f, c, w));
        lemma_first_repeated(s, f + 1, q, c, w);
    }
}

/// Two characters `c`.
pub open spec fn pair(c: char) -> Seq<char> {
    seq![c, c]
}

/// The first pair of `c` in `w` and the pair behind it is that pair.
pub open spec fn no_pair_in(w: Seq<char>, c: char) -> bool {
    forall|k: int|
        0 <= k < w.len() ==> !(#[trigger] w[k] == c && (k + 1 == w.len() || w[k + 1] == c))
}

proof fn lemma_paired(a: Seq<char>, c: char, w: Seq<char>, rest: Seq<char>)
    requires
        w.len() > 0,
        no_pair_in(w, c),
    ensures
        highlight::find_repeated(
            a + (pair(c) + w + pair(c)) + rest,
            (a.len() + 2) as int,
            c,
            2,
        ) == Some((a.len() + 2 + w.len()) as int),
{
    let s = a + (pair(c) + w + pair(c)) + rest;
    let f = (a.len() + 2) as int;
    let q = f + w.len();
    assert(s[q] == c && s[q + 1] == c);
    assert(highlight::repeated_at(s, q, c, 2));
    assert forall|k: int| f <= k < q implies !#[trigger] highlight::repeated_at(s, k, c, 2) by {
        if highlight::repeated_at(s, k, c, 2) {
            assert(s[k] == c && s[k + 1] == c);
            assert(s[k] == w[k - f]);
            if k + 1 < q {
                assert(s[k + 1] == w[k - f + 1]);
            }
        }
    }
    lemma_first_repeated(s, f, q, c, 2);
}

proof fn lemma_delimited_runs(
    a: Seq<char>,
    m: Seq<char>,
    w: Seq<char>,
    rest: Seq<char>,
    st: Style,
)
    requires
        (a + (m + w + m) + rest).len() <= usize::MAX,
    ensures
        ({
            let s = a + (m + w + m) + rest;
            let t = Token::Delimited {
                width: m.len() as usize,
                close: (a.len() + m.len() + w.len()) as usize,
                style: st,
            };
            &&& highlight::token_runs(s, a.len() as int, t) == seq![
                tinted(m, Color::DarkGray),
                SpanView { text: w, style: st },
                tinted(m, Color::DarkGray),
            ]
            &&& highlight::token_end(t) == a.len() + (m + w + m).len()
        }),
{
    reveal(highlight::token_runs);
    let s = a + (m + w + m) + rest;
    let n = a.len() as int;
    let k = m.len() as int;
    let q = n + k + w.len();
    assert(s.subrange(n, n + k) =~= m);
    assert(s.subrange(n + k, q) =~= w);
    assert(s.subrange(q, q + k) =~= m);
}

/// `**strong**` and `__strong__`: the text between the pairs is bold, the pairs are dim
/// grey. The pair that closes is the first one.
pub proof fn law_strong(a: Seq<char>, c: char, w: Seq<char>, rest: Seq<char>)
    requires
        (a + (pair(c) + w + pair(c)) + rest).len() <= usize::MAX,
        plain(a),
        c == '*' || c == '_',
        w.len() > 0,
        no_pair_in(w, c),
        alone(rest),
    ensures
        look(a + (pair(c) + w + pair(c)) + rest) == bare_run(a) + seq![
            tinted(pair(c), Color::DarkGray),
            SpanView { text: w, style: (Style { bold: true, ..style::bare() }) },
            tinted(pair(c), Color::DarkGray),
        ] + look(rest),
{
    reveal(highlight::token_at);
    let s = a + (pair(c) + w + pair(c)) + rest;
    let n = a.len() as int;
    assert(s[n] == c && s[n + 1] == c);
    lemma_paired(a, c, w, rest);
    let st = Style { bold: true, ..style::bare() };
    lemma_delimited_runs(a, pair(c), w, rest, st);
    let t = Token::Delimited { width: 2, close: (n + 2 + w.len()) as usize, style: st };
    assert(highlight::token_at(s, n) == Some(t));
    lemma_piece(a, pair(c) + w + pair(c), rest, t);
}

/// `~~struck~~`: the text between the pairs is crossed out and grey.
pub proof fn law_struck(a: Seq<char>, w: Seq<char>, rest: Seq<char>)
    requires
        (a + (pair('~') + w + pair('~')) + rest).len() <= usize::MAX,
        plain(a),
        w.len() > 0,
        no_pair_in(w, '~'),
        alone(rest),
    ensures
        look(a + (pair('~') + w + pair('~')) + rest) == bare_run(a) + seq![
            tinted(pair('~'), Color::DarkGray),
            SpanView {
                text: w,
                style: (Style {
                    fg: Some(Color::DarkGray),
                    crossed_out: true,
                    ..style::bare()
                }),
            },
            tinted(pair('~'), Color::DarkGray),
        ] + look(rest),
{
    reveal(highlight::token_at);
    let c = '~';
    let s = a + (pair(c) + w + pair(c)) + rest;
    let n = a.len() as int;
    assert(s[n] == c && s[n + 1] == c);
    lemma_paired(a, c, w, rest);
    let st = Style { fg: Some(Color::DarkGray), crossed_out: true, ..style::bare() };
    lemma_delimited_runs(a, pair(c), w, rest, st);
    let t = Token::Delimited { width: 2, close: (n + 2 + w.len()) as usize, style: st };
    assert(highlight::token_at(s, n) == Some(t));
    lemma_piece(a, pair(c) + w + pair(c), rest, t);
}

proof fn lemma_single(s: Seq<char>, f: int, q: int, c: char)
    requires
        0 <= f <= q < s.len(),
        s[q] == c,
        forall|k: int| f <= k < q ==> #[trigger] s[k] != c,
    ensures
        highlight::find_repeated(s, f, c, 1) == Some(q),
{
    assert(highlight::repeated_at(s, q, c, 1));
    assert forall|k: int| f <= k < q implies !#[trigger] highlight::repeated_at(s, k, c, 1) by {
        if highlight::repeated_at(s, k, c, 1) {
            assert(s[k] == c);
        }
    }
    lemma_first_repeated(s, f, q, c, 1);
}

/// `*emphasis*` and `_emphasis_`: the text up to the next such character is italic.
pub proof fn law_emphasis(a: Seq<char>, c: char, w: Seq<char>, rest: Seq<char>)
    requires
        (a + (seq![c] + w + seq![c]) + rest).len() <= usize::MAX,
        plain(a),
        c == '*' || c == '_',
        w.len() > 0,
        !w.contains(c),
        alone(rest),
    ensures
        look(a + (seq![c] + w + seq![c]) + rest) == bare_run(a) + seq![
            tinted(seq![c], Color::DarkGray),
            SpanView { text: w, style: (Style { italic: true, ..style::bare() }) },
            tinted(seq![c], Color::DarkGray),
        ] + look(rest),
{
    reveal(highlight::token_at);
    let s = a + (seq![c] + w + seq![c]) + rest;
    let n = a.len() as int;
    let q = n + 1 + w.len();
    assert(s[n] == c && s[n + 1] == w[0] && s[q] == c);
    assert(w.contains(w[0]));
    assert forall|k: int| n + 1 <= k < q implies #[trigger] s[k] != c by {
        assert(s[k] == w[k - n - 1]);
        assert(w.contains(w[k - n - 1]));
    }
    lemma_single(s, n + 1, q, c);
    let st = Style { italic: true, ..style::bare() };
    lemma_delimited_runs(a, seq![c], w, rest, st);
    let t = Token::Delimited { width: 1, close: q as usize, style: st };
    assert(highlight::token_at(s, n) == Some(t));
    lemma_piece(a, seq![c] + w + seq![c], rest, t);
}

/// Inline code is shown in one colour from one backtick to the next, both with it.
pub proof fn law_code(a: Seq<char>, w: Seq<char>, rest: Seq<char>)
    requires
        (a + (seq!['`'] + w + seq!['`']) + rest).len() <= usize::MAX,
        plain(a),
        !w.contains('`'),
        alone(rest),
    ensures
        look(a + (seq!['`'] + w + seq!['`']) + rest) == bare_run(a) + seq![
            tinted(seq!['`'] + w + seq!['`'], Color::Magenta),
        ] + look(rest),
{
    reveal(highlight::token_at);
    reveal(highlight::token_runs);
    let c = '`';
    let m = seq![c] + w + seq![c];
    let s = a + m + rest;
    let n = a.len() as int;
    let q = n + 1 + w.len();
    assert(s[n] == c && s[q] == c);
    assert forall|k: int| n + 1 <= k < q implies #[trigger] s[k] != c by {
        assert(s[k] == w[k - n - 1]);
        assert(w.contains(w[k - n - 1]));
    }
    lemma_single(s, n + 1, q, c);
    let t = Token::Code { end: (q + 1) as usize };
    assert(highlight::token_at(s, n) == Some(t));
    lemma_piece(a, m, rest, t);
    assert(s.subrange(n, q + 1) =~= m);
}

/// A character of a tag name.
pub open spec fn in_name(c: char) -> bool {
    ('a' <= c <= 'z') || ('A' <= c <= 'Z') || ('0' <= c <= '9') || c == '_' || c == '/' || c == '-'
}

pub proof fn lemma_tag_stops(s: Seq<char>, p: int, q: int)
    requires
        0 <= p <= q <= s.len(),
        forall|k: int| p <= k < q ==> in_name(#[trigger] s[k]),
        q < s.len() ==> !in_name(s[q]),
    ensures
        highlight::tag_stop(s, p) == q,
    decreases q - p,
{
    if p < q {
        assert(in_name(s[p]));
        lemma_tag_stops(s, p + 1, q);
    }
}

/// A tag at the start of the line or behind white space is green, `#` and name, up to the
/// last character that a name may have.
pub proof fn law_tag(a: Seq<char>, name: Seq<char>, rest: Seq<char>)
    requires
        (a + (seq!['#'] + name) + rest).len() <= usize::MAX,
        plain(a),
        a.len() == 0 || spacing(a.last()),
        forall|k: int| 0 <= k < name.len() ==> in_name(#[trigger] name[k]),
        exists|k: int| 0 <= k < name.len() && !('0' <= #[trigger] name[k] <= '9'),
        rest.len() == 0 || !in_name(rest[0]),
        alone(rest),
    ensures
        look(a + (seq!['#'] + name) + rest) == bare_run(a) + seq![
            tinted(seq!['#'] + name, Color::Green),
        ] + look(rest),
{
    reveal(highlight::token_at);
    reveal(highlight::token_runs);
    let m = seq!['#'] + name;
    let s = a + m + rest;
    let n = a.len() as int;
    let q = n + 1 + name.len();
    assert(s[n] == '#');
    if n > 0 {
        assert(s[n - 1] == a.last());
        assert(words::is_white(s[n - 1]) == spacing(s[n - 1]));
    }
    assert forall|k: int| n + 1 <= k < q implies in_name(#[trigger] s[k]) by {
        assert(s[k] == name[k - n - 1]);
    }
    if rest.len() > 0 {
        assert(s[q] == rest[0]);
    }
    lemma_tag_stops(s, n + 1, q);
    let k = choose|k: int| 0 <= k < name.len() && !('0' <= #[trigger] name[k] <= '9');
    assert(s[n + 1 + k] == name[k]);
    let t = Token::Tag { end: q as usize };
    assert(highlight::token_at(s, n) == Some(t));
    lemma_piece(a, m, rest, t);
    assert(s.subrange(n, q) =~= m);
}

/// `[text](url)`, with `!` in front or without.
pub open spec fn link(bang: bool, label: Seq<char>, url: Seq<char>) -> Seq<char> {
    (if bang {
        seq!['!', '[']
    } else {
        seq!['[']
    }) + label + seq![']', '('] + url + seq![')']
}

#[verifier::spinoff_prover]
proof fn lemma_link_parts(
    a: Seq<char>,
    bang: bool,
    label: Seq<char>,
    url: Seq<char>,
    rest: Seq<char>,
)
    ensures
        ({
            let s = a + link(bang, label, url) + rest;
            let n = a.len() as int;
            let o = if bang {
                n + 1
            } else {
                n
            };
            let mid = o + 1 + label.len();
            let close = mid + 2 + url.len();
            &&& s.subrange(n, o) == if bang {
                seq!['!']
            } else {
                Seq::empty()
            }
            &&& s.subrange(o, o + 1) == seq!['[']
            &&& s.subrange(o + 1, mid) == label
            &&& s.subrange(mid, mid + 2) == seq![']', '(']
            &&& s.subrange(mid + 2, close) == url
            &&& s.subrange(close, close + 1) == seq![')']
            &&& close + 1 <= s.len()
            &&& link(bang, label, url).len() == close + 1 - n
        }),
{
    let s = a + link(bang, label, url) + rest;
    let n = a.len() as int;
    let o = if bang {
        n + 1
    } else {
        n
    };
    let mid = o + 1 + label.len();
    let close = mid + 2 + url.len();
    assert(s.subrange(n, o) =~= if bang {
        seq!['!']
    } else {
        Seq::empty()
    });
    assert(s.subrange(o, o + 1) =~= seq!['[']);
    assert(s.subrange(o + 1, mid) =~= label);
    assert(s.subrange(mid, mid + 2) =~= seq![']', '(']);
    assert(s.subrange(mid + 2, close) =~= url);
    assert(s.subrange(close, close + 1) =~= seq![')']);
}

proof fn lemma_link_found(s: Seq<char>, o: int, mid: int, close: int)
    requires
        0 <= o < mid - 1,
        mid + 2 < close < s.len() <= usize::MAX,
        s.subrange(o + 1, mid).len() == mid - o - 1,
        !s.subrange(o + 1, mid).contains(']'),
        s[mid] == ']',
        s[mid + 1] == '(',
        !s.subrange(mid + 2, close).contains(')'),
        s[close] == ')',
    ensures
        highlight::link_at(s, o) == Some(
            Token::Link { open: o as usize, mid: mid as usize, close: close as usize },
        ),
{
    let label = s.subrange(o + 1, mid);
    let url = s.subrange(mid + 2, close);
    assert forall|k: int| o + 1 <= k < mid implies #[trigger] s[k] != ']' by {
        assert(s[k] == label[k - o - 1]);
        assert(label.contains(label[k - o - 1]));
    }
    assert forall|k: int| mid + 2 <= k < close implies #[trigger] s[k] != ')' by {
        assert(s[k] == url[k - mid - 2]);
        assert(url.contains(url[k - mid - 2]));
    }
    lemma_single(s, o + 1, mid, ']');
    lemma_single(s, mid + 2, close, ')');
}

#[verifier::spinoff_prover]
proof fn lemma_link_runs(
    s: Seq<char>,
    n: int,
    t: Token,
    bang: bool,
    label: Seq<char>,
    url: Seq<char>,
)
    requires
        t is Link,
        t->open == if bang {
            n + 1
        } else {
            n
        },
        s.subrange(n, t->open as int) == if bang {
            seq!['!']
        } else {
            Seq::empty()
        },
        s.subrange(t->open as int, t->open + 1) == seq!['['],
        s.subrange(t->open + 1, t->mid as int) == label,
        s.subrange(t->mid as int, t->mid + 2) == seq![']', '('],
        s.subrange(t->mid + 2, t->Link_close as int) == url,
        s.subrange(t->Link_close as int, t->Link_close + 1) == seq![')'],
    ensures
        highlight::token_runs(s, n, t) == (if bang {
            seq![tinted(seq!['!'], Color::DarkGray)]
        } else {
            Seq::empty()
        }) + seq![
            tinted(seq!['['], Color::DarkGray),
            SpanView {
                text: label,
                style: (Style {
                    fg: Some(Color::LightBlue),
                    underlined: true,
                    ..style::bare()
                }),
            },
            tinted(seq![']', '('], Color::DarkGray),
            tinted(url, Color::DarkGray),
            tinted(seq![')'], Color::DarkGray),
        ],
{
    reveal(highlight::token_runs);
    assert(highlight::token_runs(s, n, t) =~= (if bang {
        seq![tinted(seq!['!'], Color::DarkGray)]
    } else {
        Seq::empty()
    }) + seq![
        tinted(seq!['['], Color::DarkGray),
        SpanView {
            text: label,
            style: (Style { fg: Some(Color::LightBlue), underlined: true, ..style::bare() }),
        },
        tinted(seq![']', '('], Color::DarkGray),
        tinted(url, Color::DarkGray),
        tinted(seq![')'], Color::DarkGray),
    ]);
}

/// A link shows its text underlined in light blue, and the brackets and the address grey.
#[verifier::spinoff_prover]
#[verifier::rlimit(40)]
pub proof fn law_link(
    a: Seq<char>,
    bang: bool,
    label: Seq<char>,
    url: Seq<char>,
    rest: Seq<char>,
)
    requires
        (a + link(bang, label, url) + rest).len() <= usize::MAX,
        plain(a),
        label.len() > 0,
        !label.contains(']'),
        url.len() > 0,
        !url.contains(')'),
        alone(rest),
    ensures
        look(a + link(bang, label, url) + rest) == bare_run(a) + ((if bang {
            seq![tinted(seq!['!'], Color::DarkGray)]
        } else {
            Seq::empty()
        }) + seq![
            tinted(seq!['['], Color::DarkGray),
            SpanView {
                text: label,
                style: (Style {
                    fg: Some(Color::LightBlue),
                    underlined: true,
                    ..style::bare()
                }),
            },
            tinted(seq![']', '('], Color::DarkGray),
            tinted(url, Color::DarkGray),
            tinted(seq![')'], Color::DarkGray),
        ]) + look(rest),
{
    let m = link(bang, label, url);
    let s = a + m + rest;
    let n = a.len() as int;
    let o = if bang {
        n + 1
    } else {
        n
    };
    let mid = o + 1 + label.len();
    let close = mid + 2 + url.len();
    lemma_link_parts(a, bang, label, url, rest);
    assert(s.subrange(o, o + 1)[0] == s[o]);
    assert(s.subrange(mid, mid + 2)[0] == s[mid]);
    assert(s.subrange(mid, mid + 2)[1] == s[mid + 1]);
    assert(s.subrange(close, close + 1)[0] == s[close]);
    if bang {
        assert(s.subrange(n, o)[0] == s[n]);
    }
    lemma_link_found(s, o, mid, close);
    let t = Token::Link { open: o as usize, mid: mid as usize, close: close as usize };
    assert(highlight::token_at(s, n) == Some(t)) by {
        reveal(highlight::token_at);
    }
    lemma_piece(a, m, rest, t);
    lemma_link_runs(s, n, t, bang, label, url);
}

// ---------------------------------------------------------------------------
// Lines
// ---------------------------------------------------------------------------

/// The runs of a line, or one empty run.
pub open spec fn shown(s: Seq<char>) -> Seq<SpanView> {
    if s.len() == 0 {
        seq![SpanView { text: s, style: style::bare() }]
    } else {
        look(s)
    }
}

proof fn lemma_opening(s: Seq<char>, p: Seq<char>)
    ensures
        text::begins_with(s, p) <==> p.len() <= s.len() && forall|k: int|
            0 <= k < p.len() ==> s[k] == #[trigger] p[k],
{
    if p.len() <= s.len() {
        let t = s.subrange(0, p.len() as int);
        if forall|k: int| 0 <= k < p.len() ==> s[k] == #[trigger] p[k] {
            assert(t =~= p);
        }
        if t == p {
            assert forall|k: int| 0 <= k < p.len() implies s[k] == #[trigger] p[k] by {
                assert(t[k] == s[k]);
            }
        }
    }
}

pub proof fn lemma_openings(s: Seq<char>)
    ensures
        highlight::delimiter_line(s) <==> s.len() >= 3 && s[0] == '=' && s[1] == '=' && s[2] == '='
            && (s.len() == 3 || s[3] == ' '),
        text::begins_with(s, "TODO:"@) <==> s.len() >= 5 && s[0] == 'T' && s[1] == 'O' && s[2]
            == 'D' && s[3] == 'O' && s[4] == ':',
        text::begins_with(s, "DONE:"@) <==> s.len() >= 5 && s[0] == 'D' && s[1] == 'O' && s[2]
            == 'N' && s[3] == 'E' && s[4] == ':',
        text::begins_with(s, "- [ ]"@) <==> s.len() >= 5 && s[0] == '-' && s[1] == ' ' && s[2]
            == '[' && s[3] == ' ' && s[4] == ']',
        text::begins_with(s, "- [x]"@) <==> s.len() >= 5 && s[0] == '-' && s[1] == ' ' && s[2]
            == '[' && s[3] == 'x' && s[4] == ']',
        text::begins_with(s, "- [X]"@) <==> s.len() >= 5 && s[0] == '-' && s[1] == ' ' && s[2]
            == '[' && s[3] == 'X' && s[4] == ']',
        text::begins_with(s, "> "@) <==> s.len() >= 2 && s[0] == '>' && s[1] == ' ',
        "TODO:"@ == seq!['T', 'O', 'D', 'O', ':'],
        "- [ ]"@ == seq!['-', ' ', '[', ' ', ']'],
        "> "@ == seq!['>', ' '],
{
    reveal_strlit("===");
    reveal_strlit("=== ");
    reveal_strlit("TODO:");
    reveal_strlit("DONE:");
    reveal_strlit("- [ ]");
    reveal_strlit("- [x]");
    reveal_strlit("- [X]");
    reveal_strlit("> ");
    assert("TODO:"@ =~= seq!['T', 'O', 'D', 'O', ':']);
    assert("DONE:"@ =~= seq!['D', 'O', 'N', 'E', ':']);
    assert("- [ ]"@ =~= seq!['-', ' ', '[', ' ', ']']);
    assert("- [x]"@ =~= seq!['-', ' ', '[', 'x', ']']);
    assert("- [X]"@ =~= seq!['-', ' ', '[', 'X', ']']);
    assert("> "@ =~= seq!['>', ' ']);
    assert("=== "@ =~= seq!['=', '=', '=', ' ']);
    assert("==="@ =~= seq!['=', '=', '=']);
    lemma_opening(s, "=== "@);
    lemma_opening(s, "TODO:"@);
    lemma_opening(s, "DONE:"@);
    lemma_opening(s, "- [ ]"@);
    lemma_opening(s, "- [x]"@);
    lemma_opening(s, "- [X]"@);
    lemma_opening(s, "> "@);
    if s.len() == 3 && s[0] == '=' && s[1] == '=' && s[2] == '=' {
        assert(s =~= "==="@);
    }
    assert(opened(s, seq!['T', 'O', 'D', 'O', ':']) == (s.len() >= 5 && s[0] == 'T' && s[1] == 'O'
        && s[2] == 'D' && s[3] == 'O' && s[4] == ':')) by {
        lemma_opened5(s, 'T', 'O', 'D', 'O', ':');
    }
    lemma_opened5(s, 'D', 'O', 'N', 'E', ':');
    lemma_opened5(s, '-', ' ', '[', ' ', ']');
    lemma_opened5(s, '-', ' ', '[', 'x', ']');
    lemma_opened5(s, '-', ' ', '[', 'X', ']');
    let q = seq!['>', ' '];
    if opened(s, q) {
        assert(s[0] == q[0] && s[1] == q[1]);
    }
    let d = seq!['=', '=', '=', ' '];
    if opened(s, d) {
        assert(s[0] == d[0] && s[1] == d[1] && s[2] == d[2] && s[3] == d[3]);
    }
}

/// `s` opens with `p`.
pub open spec fn opened(s: Seq<char>, p: Seq<char>) -> bool {
    p.len() <= s.len() && forall|k: int| 0 <= k < p.len() ==> s[k] == #[trigger] p[k]
}

proof fn lemma_opened5(s: Seq<char>, a: char, b: char, c: char, d: char, e: char)
    ensures
        opened(s, seq![a, b, c, d, e]) <==> s.len() >= 5 && s[0] == a && s[1] == b && s[2] == c
            && s[3] == d && s[4] == e,
{
    let p = seq![a, b, c, d, e];
    if opened(s, p) {
        assert(s[0] == p[0] && s[1] == p[1] && s[2] == p[2] && s[3] == p[3] && s[4] == p[4]);
    }
}

proof fn lemma_leading(s: Seq<char>, i: int, n: int)
    requires
        0 <= i <= n <= s.len(),
        forall|k: int| i <= k < n ==> #[trigger] s[k] == '#',
        n < s.len() ==> s[n] != '#',
    ensures
        highlight::leading(s, i, '#') == n,
    decreases n - i,
{
    if i < n {
        assert(s[i] == '#');
        lemma_leading(s, i + 1, n);
    }
}

/// A line of one to six `#`, alone or with a space behind, is a heading.
pub open spec fn is_headline(s: Seq<char>, n: int) -> bool {
    &&& 1 <= n <= 6
    &&& n <= s.len()
    &&& forall|k: int| 0 <= k < n ==> #[trigger] s[k] == '#'
    &&& n < s.len() ==> s[n] == ' '
}

/// Delimiters are bold cyan, headings bold yellow, finished todos grey, as whole lines.
pub proof fn law_whole_lines(s: Seq<char>, n: int)
    ensures
        opened(s, seq!['=', '=', '=', ' ']) || s == seq!['=', '=', '='] ==> highlight::normal_line(
            s,
        ) == seq![
            SpanView {
                text: s,
                style: (Style { fg: Some(Color::Cyan), bold: true, ..style::bare() }),
            },
        ],
        is_headline(s, n) ==> highlight::normal_line(s) == seq![
            SpanView {
                text: s,
                style: (Style { fg: Some(Color::Yellow), bold: true, ..style::bare() }),
            },
        ],
        opened(s, seq!['D', 'O', 'N', 'E', ':']) || opened(s, seq!['-', ' ', '[', 'x', ']'])
            || opened(s, seq!['-', ' ', '[', 'X', ']']) ==> highlight::normal_line(s) == seq![
            tinted(s, Color::DarkGray),
        ],
{
    lemma_openings(s);
    lemma_opened5(s, 'D', 'O', 'N', 'E', ':');
    lemma_opened5(s, '-', ' ', '[', 'x', ']');
    lemma_opened5(s, '-', ' ', '[', 'X', ']');
    let d = seq!['=', '=', '=', ' '];
    if opened(s, d) {
        assert(s[0] == d[0] && s[1] == d[1] && s[2] == d[2] && s[3] == d[3]);
    }
    if is_headline(s, n) {
        lemma_leading(s, 0, n);
        assert(s[0] == '#');
    }
    if s.len() > 0 && s[0] != '#' {
        lemma_leading(s, 0, 0);
    }
}

/// In front of a task that is open the marker is shown in colour, and the task as any
/// text.
pub proof fn law_open_todo_lines(rest: Seq<char>)
    ensures
        highlight::normal_line(seq!['T', 'O', 'D', 'O', ':'] + rest) == seq![
            SpanView {
                text: seq!['T', 'O', 'D', 'O', ':'],
                style: (Style { fg: Some(Color::LightYellow), bold: true, ..style::bare() }),
            },
        ] + shown(rest),
        highlight::normal_line(seq!['-', ' ', '[', ' ', ']'] + rest) == seq![
            tinted(seq!['-', ' ', '[', ' ', ']'], Color::Yellow),
        ] + shown(rest),
{
    let t = seq!['T', 'O', 'D', 'O', ':'] + rest;
    lemma_openings(t);
    lemma_leading(t, 0, 0);
    assert(t.subrange(5, t.len() as int) =~= rest);
    let t = seq!['-', ' ', '[', ' ', ']'] + rest;
    lemma_openings(t);
    lemma_leading(t, 0, 0);
    assert(t.subrange(5, t.len() as int) =~= rest);
}

proof fn lemma_second_differs(s: Seq<char>)
    requires
        s.len() >= 2,
        s[1] == ' ',
        !spacing(s[0]),
    ensures
        !highlight::rule_line(s),
{
    let t = words::trim(s);
    if highlight::rule_line(s) {
        lemma_trim_start_stays(s);
        lemma_trim_end_prefix(s);
        assert(t[1] == s[1]);
        assert(t[1] == t[0] && t[0] == s[0]);
    }
}

proof fn lemma_trim_start_stays(s: Seq<char>)
    requires
        s.len() > 0,
        !spacing(s[0]),
    ensures
        words::trim_start(s) == s,
{
    assert(words::is_white(s[0]) == spacing(s[0]));
}

proof fn lemma_trim_end_prefix(s: Seq<char>)
    ensures
        words::trim_end(s).len() <= s.len(),
        words::trim_end(s) == s.subrange(0, words::trim_end(s).len() as int),
    decreases s.len(),
{
    if s.len() > 0 && words::is_white(s.last()) {
        lemma_trim_end_prefix(s.drop_last());
        let n = words::trim_end(s).len() as int;
        assert(s.drop_last().subrange(0, n) =~= s.subrange(0, n));
    } else {
        assert(s.subrange(0, s.len() as int) =~= s);
    }
}

/// Every run in italics as well.
pub open spec fn slanted(runs: Seq<SpanView>) -> Seq<SpanView> {
    Seq::new(
        runs.len(),
        |k: int|
            SpanView {
                text: runs[k].text,
                style: Style { italic: true, ..runs[k].style },
            },
    )
}

/// Quotes and list items: the mark at the start is yellow, a quote goes on in italics, an
/// item as any text.
pub proof fn law_quotes_and_items(c: char, rest: Seq<char>)
    requires
        c == '-' || c == '*' || c == '+',
        c == '-' ==> rest.len() == 0 || rest[0] != '[',
    ensures
        highlight::normal_line(seq!['>', ' '] + rest) == seq![
            tinted(seq!['>', ' '], Color::Yellow),
        ] + slanted(shown(rest)),
        highlight::normal_line(seq![c, ' '] + rest) == seq![
            tinted(seq![c, ' '], Color::Yellow),
        ] + shown(rest),
{
    let t = seq!['>', ' '] + rest;
    lemma_openings(t);
    lemma_leading(t, 0, 0);
    lemma_second_differs(t);
    assert(t.subrange(2, t.len() as int) =~= rest);
    assert(highlight::italicised(highlight::inline(rest)) =~= slanted(shown(rest)));
    let t = seq![c, ' '] + rest;
    lemma_openings(t);
    lemma_leading(t, 0, 0);
    lemma_second_differs(t);
    if rest.len() > 0 {
        assert(t[2] == rest[0]);
    }
    assert(t.subrange(2, t.len() as int) =~= rest);
    assert(t.subrange(0, 2) =~= seq![c, ' ']);
}

proof fn lemma_digits(s: Seq<char>, i: int, n: int)
    requires
        0 <= i <= n < s.len(),
        forall|k: int| i <= k < n ==> '0' <= #[trigger] s[k] <= '9',
        !('0' <= s[n] <= '9'),
    ensures
        highlight::digits(s, i) == n,
    decreases n - i,
{
    if i < n {
        assert('0' <= s[i] <= '9');
        lemma_digits(s, i + 1, n);
    }
}

/// A numbered item: digits, a dot and a space are yellow, and the item is shown as any
/// text.
pub proof fn law_numbered_items(number: Seq<char>, rest: Seq<char>)
    requires
        number.len() > 0,
        forall|k: int| 0 <= k < number.len() ==> '0' <= #[trigger] number[k] <= '9',
    ensures
        highlight::normal_line(number + seq!['.', ' '] + rest) == seq![
            tinted(number + seq!['.', ' '], Color::Yellow),
        ] + shown(rest),
{
    let n = number.len() as int;
    let t = number + seq!['.', ' '] + rest;
    assert(t[0] == number[0]);
    assert(t[n] == '.' && t[n + 1] == ' ');
    lemma_openings(t);
    lemma_leading(t, 0, 0);
    assert forall|k: int| 0 <= k < n implies '0' <= #[trigger] t[k] <= '9' by {
        assert(t[k] == number[k]);
    }
    lemma_digits(t, 0, n);
    if highlight::rule_line(t) {
        lemma_trim_start_stays(t);
        lemma_trim_end_prefix(t);
        assert(words::trim(t)[0] == t[0]);
    }
    assert(t.subrange(n + 2, t.len() as int) =~= rest);
    assert(t.subrange(0, n + 2) =~= number + seq!['.', ' ']);
}

/// Three or more of one of `-`, `*` and `_`, with nothing but white space around, are a
/// rule, dim and grey.
pub proof fn law_rules(lead: Seq<char>, c: char, bar: Seq<char>, tail: Seq<char>)
    requires
        all_spacing(lead),
        all_spacing(tail),
        c == '-' || c == '*' || c == '_',
        bar.len() >= 3,
        forall|k: int| 0 <= k < bar.len() ==> #[trigger] bar[k] == c,
    ensures
        highlight::normal_line(lead + bar + tail) == seq![
            SpanView {
                text: lead + bar + tail,
                style: (Style { fg: Some(Color::DarkGray), dim: true, ..style::bare() }),
            },
        ],
{
    let t = lead + bar + tail;
    assert(!spacing(c));
    law_trim(lead, bar, tail);
    if lead.len() > 0 {
        assert(t[0] == lead[0]);
        assert(spacing(t[0]));
    } else {
        assert(t[0] == bar[0]);
        assert(t[1] == bar[1]);
    }
    lemma_openings(t);
    lemma_leading(t, 0, 0);
}

/// Any other line is shown as text: one that starts with none of the marks.
pub proof fn law_other_lines(s: Seq<char>)
    requires
        s.len() > 0 ==> s[0] != '=' && s[0] != '#' && s[0] != 'T' && s[0] != 'D' && s[0] != '-'
            && s[0] != '*' && s[0] != '+' && s[0] != '_' && s[0] != '>' && !('0' <= s[0] <= '9')
            && !spacing(s[0]),
    ensures
        highlight::normal_line(s) == shown(s),
{
    lemma_openings(s);
    if s.len() > 0 {
        lemma_leading(s, 0, 0);
        lemma_digits(s, 0, 0);
        if highlight::rule_line(s) {
            lemma_trim_start_stays(s);
            lemma_trim_end_prefix(s);
            assert(words::trim(s)[0] == s[0]);
        }
    }
}

} // verus!
