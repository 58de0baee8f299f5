//! The two orders of a header, `=== date | title` and `=== title | date`, say the
//! same.

use vstd::prelude::*;
use vstd::utf8::*;

use crate::delimiter;
use crate::parser;
use crate::text;
use crate::words;

verus! {

// ---------------------------------------------------------------------------
// Parsing
// ---------------------------------------------------------------------------

/// The texts of a header's date, time and title.
#[verifier::ext_equal]
pub struct HeaderTexts {
    pub date: Option<Seq<u8>>,
    pub time: Option<Seq<u8>>,
    pub title: Option<Seq<u8>>,
}

pub open spec fn header_texts(s: Seq<u8>) -> HeaderTexts {
    let h = parser::header_of(s);
    HeaderTexts {
        date: match h.date {
            Some(p) => Some(s.subrange(p, p + 10)),
            None => None,
        },
        time: match h.time {
            Some(p) => Some(s.subrange(p, p + 5)),
            None => None,
        },
        title: match h.title {
            Some((p, q)) => Some(s.subrange(p, q)),
            None => None,
        },
    }
}

/// A side of a header: on one line, without a `|`, and with no space at its ends.
pub open spec fn is_side(x: Seq<u8>) -> bool {
    &&& forall|k: int| 0 <= k < x.len() ==> #[trigger] x[k] != 124 && !text::is_newline(x[k])
    &&& x.len() > 0 ==> x[0] != 32 && x.last() != 32
}

/// The end of a line.
pub open spec fn is_line_end(nl: Seq<u8>) -> bool {
    forall|k: int| 0 <= k < nl.len() ==> text::is_newline(#[trigger] nl[k])
}

/// A header line with two sides.
pub open spec fn header_line(a: Seq<u8>, b: Seq<u8>, nl: Seq<u8>) -> Seq<u8> {
    seq![61u8, 61u8, 61u8, 32u8] + a + seq![32u8, 124u8, 32u8] + b + nl
}

pub proof fn lemma_line_end(s: Seq<u8>, n: int)
    requires
        0 <= n <= s.len(),
        n > 0 ==> !text::is_newline(s[n - 1]),
        forall|k: int| n <= k < s.len() ==> text::is_newline(#[trigger] s[k]),
    ensures
        text::content_len(s) == n,
    decreases s.len(),
{
    if n < s.len() {
        assert(text::is_newline(s.last()));
        lemma_line_end(s.drop_last(), n);
    }
}

proof fn lemma_first(s: Seq<u8>, from: int, to: int, p: int)
    requires
        0 <= from <= p < to <= s.len(),
        s[p] == 124,
        forall|k: int| from <= k < p ==> #[trigger] s[k] != 124,
    ensures
        text::find_first(s, from, to, 124) == Some(p),
    decreases p - from,
{
    if from < p {
        lemma_first(s, from + 1, to, p);
    }
}

/// The sides of a header line are its segments.
proof fn lemma_sides(a: Seq<u8>, b: Seq<u8>, nl: Seq<u8>)
    requires
        is_side(a),
        is_side(b),
        is_line_end(nl),
    ensures
        ({
            let s = header_line(a, b, nl);
            let (left, right) = parser::header_segments(s);
            let r = a.len() as int + 7;
            &&& left.1 - left.0 == a.len()
            &&& a.len() > 0 ==> left.0 == 4
            &&& s.subrange(left.0, left.1) == a
            &&& right == Some((r, r + b.len()))
            &&& s.subrange(r, r + b.len()) == b
            &&& 0 <= left.0 <= left.1 <= s.len()
            &&& r + b.len() <= s.len()
        }),
{
    let s = header_line(a, b, nl);
    let n = a.len() as int;
    let m = b.len() as int;
    let end = n + 7 + m;
    let p = n + 5;
    assert(s.len() == end + nl.len());
    assert forall|k: int| 0 <= k < n implies s[4 + k] == #[trigger] a[k] by {}
    assert forall|k: int| 0 <= k < m implies s[n + 7 + k] == #[trigger] b[k] by {}
    assert forall|k: int| end <= k < s.len() implies text::is_newline(#[trigger] s[k]) by {
        assert(s[k] == nl[k - end]);
    }
    assert(s[3] == 32 && s[n + 4] == 32 && s[n + 5] == 124 && s[n + 6] == 32);
    if m > 0 {
        assert(s[end - 1] == b[m - 1]);
        assert(!text::is_newline(b[m - 1]));
    }
    lemma_line_end(s, end);
    let from = text::skip_spaces(s, 3);
    reveal_with_fuel(text::skip_spaces, 4);
    if n > 0 {
        assert(s[4] == a[0]);
        assert(from == 4);
    } else {
        assert(from == 5);
    }
    assert forall|k: int| from <= k < p implies #[trigger] s[k] != 124 by {
        if k < n + 4 {
            assert(s[k] == a[k - 4]);
        }
    }
    lemma_first(s, from, end, p);
    reveal_with_fuel(text::trim_spaces, 3);
    if n > 0 {
        assert(s[n + 3] == a[n - 1]);
        assert(text::trim_spaces(s, from, p) == n + 4);
    } else {
        assert(text::trim_spaces(s, from, p) == p);
    }
    let right = text::skip_spaces(s, p + 1);
    if m > 0 {
        assert(s[n + 7] == b[0]);
    } else if end < s.len() {
        assert(text::is_newline(s[end]));
    }
    assert(right == n + 7);
    assert(text::trim_spaces(s, right, end) == end);
    assert(s.subrange(from, from + n) =~= a);
    assert(s.subrange(n + 7, end) =~= b);
}

proof fn lemma_spaces_in_piece(s: Seq<u8>, f: int, x: Seq<u8>, k: int)
    requires
        0 <= f,
        f + x.len() <= s.len(),
        s.subrange(f, f + x.len()) == x,
        0 <= k < x.len(),
        x.last() != 32,
    ensures
        text::skip_spaces(s, f + k) == f + text::skip_spaces(x, k),
        text::skip_spaces(x, k) < x.len(),
    decreases x.len() - k,
{
    assert(s[f + k] == x[k]);
    if x[k] == 32 {
        lemma_spaces_in_piece(s, f, x, k + 1);
    }
}

/// The stamp of a side does not depend on where the side stands.
proof fn lemma_stamp_in_piece(s: Seq<u8>, f: int, x: Seq<u8>)
    requires
        0 <= f,
        f + x.len() <= s.len(),
        s.subrange(f, f + x.len()) == x,
        x.len() > 0 ==> x.last() != 32,
    ensures
        parser::stamp_in(s, f, f + x.len()) == match parser::stamp_in(x, 0, x.len() as int) {
            Some(Some(q)) => Some(Some(f + q)),
            Some(None) => Some(None),
            None => None,
        },
        parser::stamp_in(x, 0, x.len() as int) is Some <==> parser::date_at(x, 0),
        parser::stamp_in(x, 0, x.len() as int) matches Some(Some(q)) ==> 0 <= q && q + 5
            <= x.len(),
{
    assert forall|k: int| 0 <= k < x.len() implies s[f + k] == #[trigger] x[k] by {}
    if x.len() >= 10 {
        assert(s[f] == x[0] && s[f + 1] == x[1] && s[f + 2] == x[2] && s[f + 3] == x[3]);
        assert(s[f + 4] == x[4] && s[f + 5] == x[5] && s[f + 6] == x[6] && s[f + 7] == x[7]);
        assert(s[f + 8] == x[8] && s[f + 9] == x[9]);
        if x.len() > 10 {
            lemma_spaces_in_piece(s, f, x, 10);
            let q = text::skip_spaces(x, 10);
            text::lemma_skip_spaces(x, 10);
            if q + 5 <= x.len() {
                assert(s[f + q] == x[q] && s[f + q + 1] == x[q + 1] && s[f + q + 2] == x[q + 2]);
                assert(s[f + q + 3] == x[q + 3] && s[f + q + 4] == x[q + 4]);
            }
        } else {
            text::lemma_skip_spaces(x, 10);
            text::lemma_skip_spaces(s, f + 10);
        }
    }
}

proof fn lemma_sub_piece(s: Seq<u8>, f: int, x: Seq<u8>, i: int, j: int)
    requires
        0 <= f,
        f + x.len() <= s.len(),
        s.subrange(f, f + x.len()) == x,
        0 <= i <= j <= x.len(),
    ensures
        s.subrange(f + i, f + j) == x.subrange(i, j),
{
    assert forall|k: int| 0 <= k < x.len() implies s[f + k] == #[trigger] x[k] by {
        assert(s.subrange(f, f + x.len())[k] == x[k]);
    }
    assert(s.subrange(f + i, f + j) =~= x.subrange(i, j));
}

/// What a header says whose side `date` starts with a date, and whose other side is
/// `title`.
pub open spec fn texts_of(date: Seq<u8>, title: Seq<u8>) -> HeaderTexts {
    HeaderTexts {
        date: Some(date.subrange(0, 10)),
        time: match parser::stamp_in(date, 0, date.len() as int) {
            Some(Some(q)) => Some(date.subrange(q, q + 5)),
            _ => None,
        },
        title: if title.len() > 0 {
            Some(title)
        } else {
            None
        },
    }
}

proof fn lemma_date_first(date: Seq<u8>, title: Seq<u8>, nl: Seq<u8>)
    requires
        is_side(date),
        is_side(title),
        is_line_end(nl),
        parser::date_at(date, 0),
    ensures
        header_texts(header_line(date, title, nl)) == texts_of(date, title),
{
    let s = header_line(date, title, nl);
    lemma_sides(date, title, nl);
    lemma_stamp_in_piece(s, 4, date);
    lemma_sub_piece(s, 4, date, 0, 10);
    if let Some(Some(q)) = parser::stamp_in(date, 0, date.len() as int) {
        lemma_sub_piece(s, 4, date, q, q + 5);
    }
}

proof fn lemma_title_first(date: Seq<u8>, title: Seq<u8>, nl: Seq<u8>)
    requires
        is_side(date),
        is_side(title),
        is_line_end(nl),
        parser::date_at(date, 0),
        !parser::date_at(title, 0),
    ensures
        header_texts(header_line(title, date, nl)) == texts_of(date, title),
{
    let s = header_line(title, date, nl);
    lemma_sides(title, date, nl);
    let left = parser::header_segments(s).0;
    let r = title.len() as int + 7;
    lemma_stamp_in_piece(s, left.0, title);
    lemma_stamp_in_piece(s, r, date);
    lemma_sub_piece(s, r, date, 0, 10);
    if let Some(Some(q)) = parser::stamp_in(date, 0, date.len() as int) {
        lemma_sub_piece(s, r, date, q, q + 5);
    }
}

/// Both orders of a header give the same date, time and title. `date` is the side
/// that starts with a date.
pub proof fn law_header_orders_agree(date: Seq<u8>, title: Seq<u8>, nl: Seq<u8>)
    requires
        is_side(date),
        is_side(title),
        is_line_end(nl),
        parser::date_at(date, 0),
        !parser::date_at(title, 0),
    ensures
        header_texts(header_line(date, title, nl)) == texts_of(date, title),
        header_texts(header_line(title, date, nl)) == texts_of(date, title),
{
    lemma_date_first(date, title, nl);
    lemma_title_first(date, title, nl);
}

// ---------------------------------------------------------------------------
// On screen
// ---------------------------------------------------------------------------

/// A side of a header, as text: without a `|` and with no white space at its ends.
pub open spec fn is_text_side(x: Seq<char>) -> bool {
    &&& !x.contains('|')
    &&& x.len() > 0 ==> !words::is_white(x[0]) && !words::is_white(x.last())
}

/// A header line with two sides.
pub open spec fn delimiter_with(a: Seq<char>, b: Seq<char>) -> Seq<char> {
    "=== "@ + a + " | "@ + b
}

proof fn lemma_trim_front(w: Seq<char>, x: Seq<char>)
    requires
        forall|k: int| 0 <= k < w.len() ==> words::is_white(#[trigger] w[k]),
        x.len() > 0 ==> !words::is_white(x[0]),
    ensures
        words::trim_start(w + x) == x,
    decreases w.len(),
{
    if w.len() > 0 {
        assert((w + x)[0] == w[0]);
        assert((w + x).drop_first() =~= w.drop_first() + x);
        lemma_trim_front(w.drop_first(), x);
    } else {
        assert(w + x =~= x);
    }
}

proof fn lemma_trim_back(x: Seq<char>, w: Seq<char>)
    requires
        forall|k: int| 0 <= k < w.len() ==> words::is_white(#[trigger] w[k]),
        x.len() > 0 ==> !words::is_white(x.last()),
    ensures
        words::trim_end(x + w) == x,
    decreases w.len(),
{
    if w.len() > 0 {
        assert((x + w).last() == w.last());
        assert((x + w).drop_last() =~= x + w.drop_last());
        lemma_trim_back(x, w.drop_last());
    } else {
        assert(x + w =~= x);
    }
}

proof fn lemma_trim_around(w: Seq<char>, x: Seq<char>, u: Seq<char>)
    requires
        forall|k: int| 0 <= k < w.len() ==> words::is_white(#[trigger] w[k]),
        forall|k: int| 0 <= k < u.len() ==> words::is_white(#[trigger] u[k]),
        x.len() > 0,
        !words::is_white(x[0]),
        !words::is_white(x.last()),
    ensures
        words::trim(w + x + u) == x,
{
    assert(w + x + u =~= w + (x + u));
    lemma_trim_front(w, x + u);
    lemma_trim_back(x, u);
}

proof fn lemma_bar(x: Seq<char>, i: int, n: int)
    requires
        0 <= i <= n < x.len(),
        x[n] == '|',
        forall|k: int| 0 <= k < n ==> #[trigger] x[k] != '|',
    ensures
        words::piece_end(x, i, '|') == n,
    decreases n - i,
{
    if i < n {
        lemma_bar(x, i + 1, n);
    }
}

/// The sides that the renderer sees.
proof fn lemma_text_sides(a: Seq<char>, b: Seq<char>)
    requires
        is_text_side(a),
        is_text_side(b),
    ensures
        delimiter::sides(delimiter::header_text(delimiter_with(a, b))) == (a, Some(b)),
{
    let s = delimiter_with(a, b);
    reveal_strlit("=== ");
    reveal_strlit("===");
    reveal_strlit(" | ");
    assert(s.subrange(0, 3) =~= "==="@);
    let rest = s.subrange(3, s.len() as int);
    let bar = seq!['|'];
    let sp = seq![' '];
    // The body begins with the left side, or with the bar, and ends alike.
    let front = if a.len() > 0 {
        sp
    } else {
        seq![' ', ' ']
    };
    let left = if a.len() > 0 {
        a + sp
    } else {
        Seq::empty()
    };
    let right = if b.len() > 0 {
        sp + b
    } else {
        Seq::empty()
    };
    let back = if b.len() > 0 {
        Seq::empty()
    } else {
        sp
    };
    let body = left + bar + right;
    assert(rest =~= front + body + back);
    assert(!words::is_white('|'));
    if a.len() > 0 {
        assert(body[0] == a[0]);
    } else {
        assert(body[0] == '|');
    }
    if b.len() > 0 {
        assert(body.last() == b.last());
    } else {
        assert(body.last() == '|');
    }
    lemma_trim_around(front, body, back);
    assert(delimiter::header_text(s) == body);
    let n = left.len() as int;
    assert(body[n] == '|');
    assert forall|k: int| 0 <= k < n implies #[trigger] body[k] != '|' by {
        if k < a.len() {
            assert(body[k] == a[k]);
        } else {
            assert(body[k] == ' ');
        }
    }
    lemma_bar(body, 0, n);
    assert(body.subrange(0, n) =~= left);
    assert(body.subrange(n + 1, body.len() as int) =~= right);
    if a.len() > 0 {
        assert(left =~= Seq::<char>::empty() + a + sp);
        lemma_trim_around(Seq::empty(), a, sp);
    } else {
        assert(words::trim(left) =~= a);
    }
    if b.len() > 0 {
        assert(right =~= sp + b + Seq::<char>::empty());
        lemma_trim_around(sp, b, Seq::empty());
    } else {
        assert(words::trim(right) =~= b);
    }
}

/// Both orders of a header look the same on screen.
pub proof fn law_orders_look_alike(date: Seq<char>, title: Seq<char>, width: int)
    requires
        is_text_side(date),
        is_text_side(title),
        delimiter::starts_with_date(date),
        !delimiter::starts_with_date(title),
    ensures
        delimiter::delimiter_texts(delimiter_with(date, title)) == (date, title),
        delimiter::delimiter_texts(delimiter_with(title, date)) == (date, title),
        delimiter::decorated(delimiter_with(date, title), width) == delimiter::decorated(
            delimiter_with(title, date),
            width,
        ),
{
    lemma_text_sides(date, title);
    lemma_text_sides(title, date);
}

} // verus!
