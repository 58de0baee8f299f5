//! What a tag is, said of the bytes of a file: every `#name` in the running text of a
//! note is found, under exactly its name, and nothing else is.

use vstd::prelude::*;

use crate::filter_laws::small;
use crate::index;
use crate::note_laws;
use crate::parser;
use crate::scan_laws;
use crate::spans::{Span, TagSpan};
use crate::text;
use crate::words;

verus! {

// ---------------------------------------------------------------------------
// Lines and fences
// ---------------------------------------------------------------------------

/// A line of `b` starts at `p`.
pub open spec fn starts_line(b: Seq<u8>, p: int) -> bool {
    p == 0 || b[p - 1] == 10
}

/// No line ends in `b[p..q]`.
pub open spec fn on_one_line(b: Seq<u8>, p: int, q: int) -> bool {
    forall|k: int| p <= k < q ==> #[trigger] b[k] != 10
}

/// Nothing but spaces and tabs in `b[p..q]`.
pub open spec fn all_blank(b: Seq<u8>, p: int, q: int) -> bool {
    forall|k: int| p <= k < q ==> #[trigger] b[k] == 32 || b[k] == 9
}

/// The byte `x` three times at `p`, before `end`.
pub open spec fn thrice(b: Seq<u8>, p: int, end: int, x: u8) -> bool {
    p + 3 <= end && b[p] == x && b[p + 1] == x && b[p + 2] == x
}

/// The line that starts at `p` is three backticks or tildes behind blanks.
pub open spec fn fence_at(b: Seq<u8>, p: int, end: int) -> bool {
    exists|x: int|
        p <= x && #[trigger] all_blank(b, p, x) && (thrice(b, x, end, 96) || thrice(b, x, end, 126))
}

/// How many of the lines that start in `b[from..p]` are fences.
pub open spec fn fences(b: Seq<u8>, from: int, p: int, end: int) -> int
    decreases p - from,
{
    if p <= from {
        0
    } else {
        fences(b, from, p - 1, end) + if starts_line(b, p - 1) && fence_at(b, p - 1, end) {
            1int
        } else {
            0
        }
    }
}

/// The line at `p` of the body `b[from..end]` is running text: no fence, and every fence
/// before it is closed.
pub open spec fn running(b: Seq<u8>, from: int, p: int, end: int) -> bool {
    fences(b, from, p, end) % 2 == 0 && !fence_at(b, p, end)
}

/// A line is a fence by its bytes.
pub proof fn lemma_fence_at(b: Seq<u8>, p: int, q: int, end: int)
    requires
        0 <= p < q <= end <= b.len(),
        q == parser::line_after(b, p, end),
    ensures
        parser::fence(b.subrange(p, q)) == fence_at(b, p, end),
{
    let line = b.subrange(p, q);
    let n = parser::skip_blanks(line, 0);
    reveal_strlit("```");
    reveal_strlit("~~~");
    vstd::utf8::is_ascii_chars_encode_utf8("```"@);
    vstd::utf8::is_ascii_chars_encode_utf8("~~~"@);
    let t = vstd::utf8::encode_utf8("```"@);
    let u = vstd::utf8::encode_utf8("~~~"@);
    assert(t =~= seq![96u8, 96u8, 96u8]);
    assert(u =~= seq![126u8, 126u8, 126u8]);
    parser::lemma_skip_blanks(line, 0);
    lemma_blanks_end(line, 0);
    text::lemma_find_first(b, p, end, 10);
    if parser::fence(line) {
        let x = p + n;
        assert(all_blank(b, p, x)) by {
            assert forall|k: int| p <= k < x implies #[trigger] b[k] == 32 || b[k] == 9 by {
                assert(line[k - p] == b[k]);
            }
        }
        let s = line.subrange(n, n + 3);
        assert(s[0] == line[n] && s[1] == line[n + 1] && s[2] == line[n + 2]);
        assert(line[n] == b[x] && line[n + 1] == b[x + 1] && line[n + 2] == b[x + 2]);
        assert(thrice(b, x, end, 96) || thrice(b, x, end, 126));
    }
    if fence_at(b, p, end) {
        let x = choose|x: int|
            p <= x && #[trigger] all_blank(b, p, x) && (thrice(b, x, end, 96) || thrice(
                b,
                x,
                end,
                126,
            ));
        assert(x + 3 <= q) by {
            if x + 3 > q {
                assert(q < end && b[q - 1] == 10);
                assert(q - 1 < x ==> b[q - 1] == 32 || b[q - 1] == 9);
            }
        }
        assert(n == x - p) by {
            if n < x - p {
                assert(b[p + n] == 32 || b[p + n] == 9);
                assert(line[n] == b[p + n]);
            } else if n > x - p {
                assert(parser::is_blank(line[x - p]));
                assert(line[x - p] == b[x]);
            }
        }
        assert(line[n] == b[x] && line[n + 1] == b[x + 1] && line[n + 2] == b[x + 2]);
        if thrice(b, x, end, 96) {
            assert(line.subrange(n, n + 3) =~= t);
        } else {
            assert(line.subrange(n, n + 3) =~= u);
        }
    }
}

/// The blanks at `pos` end where none follows.
pub proof fn lemma_blanks_end(line: Seq<u8>, pos: int)
    requires
        0 <= pos <= line.len(),
    ensures
        parser::skip_blanks(line, pos) < line.len() ==> !parser::is_blank(
            line[parser::skip_blanks(line, pos)],
        ),
    decreases line.len() - pos,
{
    if pos < line.len() && parser::is_blank(line[pos]) {
        lemma_blanks_end(line, pos + 1);
    }
}

proof fn lemma_fences_split(b: Seq<u8>, from: int, m: int, p: int, end: int)
    requires
        from <= m <= p,
    ensures
        fences(b, from, p, end) == fences(b, from, m, end) + fences(b, m, p, end),
    decreases p - m,
{
    if m < p {
        lemma_fences_split(b, from, m, p - 1, end);
    }
}

/// Within one line only its start can be a fence.
proof fn lemma_fences_of_line(b: Seq<u8>, from: int, q: int, end: int)
    requires
        from < q,
        starts_line(b, from),
        forall|k: int| from <= k < q - 1 ==> #[trigger] b[k] != 10,
        from >= 0,
    ensures
        fences(b, from, q, end) == if fence_at(b, from, end) {
            1int
        } else {
            0
        },
    decreases q - from,
{
    if q - 1 > from {
        lemma_fences_of_line(b, from, q - 1, end);
        assert(b[q - 2] != 10);
    } else {
        assert(fences(b, from, q - 1, end) == 0);
    }
}

/// Which lines of a body are read, by the count of the fences before them.
pub proof fn lemma_read(b: Seq<u8>, from: int, p: int, end: int, fenced: bool, o: int)
    requires
        0 <= from <= p <= o < end <= b.len(),
        starts_line(b, from),
        starts_line(b, p),
        on_one_line(b, p, o),
    ensures
        scan_laws::read_line(b, from, end, fenced, o) == if (fences(b, from, p, end) % 2 == 1)
            != fenced || fence_at(b, p, end) {
            None::<int>
        } else {
            Some(p)
        },
    decreases end - from,
{
    let q = parser::line_after(b, from, end);
    text::lemma_find_first(b, from, end, 10);
    lemma_fence_at(b, from, q, end);
    if o < q {
        assert(p == from) by {
            if p > from {
                assert(b[p - 1] != 10);
            }
        }
        assert(fences(b, from, p, end) == 0);
    } else {
        assert(b[q - 1] == 10);
        assert(q <= p) by {
            if p < q {
                assert(b[q - 1] != 10);
            }
        }
        let f = parser::fence(b.subrange(from, q));
        lemma_read(b, q, p, end, fenced != f, o);
        lemma_fences_split(b, from, q, p, end);
        lemma_fences_of_line(b, from, q, end);
    }
}

/// A body starts with a line.
pub proof fn lemma_body_starts_line(b: Seq<u8>, i: int)
    requires
        b.len() <= usize::MAX,
        0 <= i < parser::notes_of(b).len(),
    ensures
        ({
            let body = parser::notes_of(b)[i].body;
            &&& 0 <= body.start <= body.end <= b.len()
            &&& body.start < body.end ==> starts_line(b, body.start as int)
        }),
{
    crate::toggle_laws::lemma_body_lines(b, i);
    parser::lemma_note_ranges(b, i);
}

// ---------------------------------------------------------------------------
// Inline code
// ---------------------------------------------------------------------------

/// How many backticks `b[p..o]` holds.
pub open spec fn ticks(b: Seq<u8>, p: int, o: int) -> int
    decreases o - p,
{
    if o <= p {
        0
    } else {
        ticks(b, p, o - 1) + if b[o - 1] == 96 {
            1int
        } else {
            0
        }
    }
}

/// A backtick follows `o` on its line, before `end`.
pub open spec fn tick_follows(b: Seq<u8>, o: int, end: int) -> bool {
    exists|k: int| o < k < end && b[k] == 96 && #[trigger] on_one_line(b, o, k)
}

/// `o` stands between a backtick and the one that closes it, on the line that starts at
/// `p`: the backticks before it do not pair up, and one follows.
pub open spec fn in_backticks(b: Seq<u8>, p: int, o: int, end: int) -> bool {
    ticks(b, p, o) % 2 == 1 && tick_follows(b, o, end)
}

proof fn lemma_ticks_step(b: Seq<u8>, p: int, o: int)
    requires
        p < o,
    ensures
        ticks(b, p, o) == ticks(b, p + 1, o) + if b[p] == 96 {
            1int
        } else {
            0
        },
    decreases o - p,
{
    if p + 1 < o {
        lemma_ticks_step(b, p, o - 1);
    } else {
        assert(ticks(b, p, o - 1) == 0);
        assert(ticks(b, p + 1, o) == 0);
    }
}

proof fn lemma_ticks_split(b: Seq<u8>, p: int, m: int, o: int)
    requires
        p <= m <= o,
    ensures
        ticks(b, p, o) == ticks(b, p, m) + ticks(b, m, o),
    decreases o - m,
{
    if m < o {
        lemma_ticks_split(b, p, m, o - 1);
    }
}

proof fn lemma_no_ticks(b: Seq<u8>, p: int, o: int)
    requires
        forall|k: int| p <= k < o ==> #[trigger] b[k] != 96,
    ensures
        ticks(b, p, o) == 0,
    decreases o - p,
{
    if p < o {
        lemma_no_ticks(b, p, o - 1);
    }
}

/// Some span of the list holds `x`.
spec fn spanned(cs: Seq<(int, int)>, x: int) -> bool {
    exists|k: int| 0 <= k < cs.len() && (#[trigger] cs[k]).0 <= x < cs[k].1
}

proof fn lemma_spanned_joined(c: (int, int), cs: Seq<(int, int)>, x: int)
    ensures
        spanned(seq![c] + cs, x) == (c.0 <= x < c.1 || spanned(cs, x)),
{
    let all = seq![c] + cs;
    assert(all[0] == c);
    if spanned(cs, x) {
        let k = choose|k: int| 0 <= k < cs.len() && (#[trigger] cs[k]).0 <= x < cs[k].1;
        assert(all[k + 1] == cs[k]);
    }
    if spanned(all, x) {
        let k = choose|k: int| 0 <= k < all.len() && (#[trigger] all[k]).0 <= x < all[k].1;
        if k > 0 {
            assert(all[k] == cs[k - 1]);
        }
    }
}

proof fn lemma_code_close_first(line: Seq<u8>, p: int)
    requires
        0 <= p <= line.len(),
    ensures
        match parser::code_close(line, p) {
            Some(q) => p <= q < line.len() && line[q] == 96 && forall|k: int|
                p <= k < q ==> #[trigger] line[k] != 96 && line[k] != 10,
            None => !(exists|k: int|
                p <= k < line.len() && line[k] == 96 && #[trigger] on_one_line(line, p, k)),
        },
    decreases line.len() - p,
{
    if p < line.len() && line[p] != 10 && line[p] != 96 {
        lemma_code_close_first(line, p + 1);
        if parser::code_close(line, p) is None {
            assert forall|k: int| p <= k < line.len() && line[k] == 96 implies !(
            #[trigger] on_one_line(line, p, k)) by {
                assert(k != p);
                if on_one_line(line, p, k) {
                    assert(on_one_line(line, p + 1, k));
                }
            }
        }
    } else if p < line.len() && line[p] == 10 {
        assert forall|k: int| p <= k < line.len() && line[k] == 96 implies !(
        #[trigger] on_one_line(line, p, k)) by {
            assert(line[p] == 10 && p < k);
        }
    }
}

/// Code spans pair the backticks of a line up, from its start.
proof fn lemma_code_spans(line: Seq<u8>, p: int, x: int)
    requires
        0 <= p <= x < line.len(),
        line[x] != 96,
        on_one_line(line, 0, x),
    ensures
        spanned(parser::code_spans(line, p), x) == in_backticks(line, p, x, line.len() as int),
    decreases line.len() - p,
{
    let n = line.len() as int;
    let cs = parser::code_spans(line, p);
    if p == x {
        lemma_spans_from(line, p);
        assert(ticks(line, p, x) == 0);
        assert(!spanned(cs, x)) by {
            if spanned(cs, x) {
                let k = choose|k: int| 0 <= k < cs.len() && (#[trigger] cs[k]).0 <= x < cs[k].1;
                assert(line[cs[k].0] == 96);
            }
        }
    } else if line[p] != 96 {
        lemma_code_spans(line, p + 1, x);
        lemma_ticks_step(line, p, x);
    } else {
        lemma_code_close_first(line, p + 1);
        lemma_ticks_step(line, p, x);
        match parser::code_close(line, p + 1) {
            Some(q) => {
                let rest = parser::code_spans(line, q + 1);
                lemma_spanned_joined((p, q + 1), rest, x);
                lemma_spans_from(line, q + 1);
                if x < q {
                    lemma_no_ticks(line, p + 1, x);
                    assert(on_one_line(line, x, q));
                    assert(tick_follows(line, x, n));
                } else {
                    assert(x > q);
                    lemma_code_spans(line, q + 1, x);
                    lemma_ticks_split(line, p + 1, q, x);
                    lemma_no_ticks(line, p + 1, q);
                    lemma_ticks_step(line, q, x);
                }
            },
            None => {
                assert forall|k: int| p + 1 <= k < x implies #[trigger] line[k] != 96 by {
                    if line[k] == 96 {
                        assert(on_one_line(line, p + 1, k));
                    }
                }
                lemma_no_ticks(line, p + 1, x);
                assert(!tick_follows(line, x, n)) by {
                    if tick_follows(line, x, n) {
                        let k = choose|k: int|
                            x < k < n && line[k] == 96 && #[trigger] on_one_line(line, x, k);
                        assert(on_one_line(line, p + 1, k));
                    }
                }
            },
        }
    }
}

/// Code spans from `p` on start there or later, at backticks.
proof fn lemma_spans_from(line: Seq<u8>, p: int)
    requires
        0 <= p,
    ensures
        forall|k: int|
            0 <= k < parser::code_spans(line, p).len() ==> p <= (
            #[trigger] parser::code_spans(line, p)[k]).0 < line.len()
                && line[parser::code_spans(line, p)[k].0] == 96,
    decreases line.len() - p,
{
    let cs = parser::code_spans(line, p);
    if p < line.len() {
        if line[p] == 96 {
            parser::lemma_code_close(line, p + 1);
            match parser::code_close(line, p + 1) {
                Some(q) => {
                    lemma_spans_from(line, q + 1);
                    let rest = parser::code_spans(line, q + 1);
                    assert forall|k: int| 0 <= k < cs.len() implies p <= (#[trigger] cs[k]).0
                        < line.len() && line[cs[k].0] == 96 by {
                        if k > 0 {
                            assert(cs[k] == rest[k - 1]);
                        }
                    }
                },
                None => {
                    assert(cs.len() == 0);
                },
            }
        } else {
            lemma_spans_from(line, p + 1);
            assert(cs == parser::code_spans(line, p + 1));
        }
    }
}

/// Ticks and what follows them are the same on a line as in the file.
proof fn lemma_ticks_in_line(b: Seq<u8>, p: int, q: int, o: int, end: int)
    requires
        0 <= p <= o < q <= end <= b.len(),
        q == parser::line_after(b, p, end),
        b[o] != 96,
    ensures
        in_backticks(b.subrange(p, q), 0, o - p, q - p) == in_backticks(b, p, o, end),
{
    let line = b.subrange(p, q);
    text::lemma_find_first(b, p, end, 10);
    lemma_same_ticks(b, p, q, o);
    if tick_follows(line, o - p, q - p) {
        let k = choose|k: int|
            o - p < k < q - p && line[k] == 96 && #[trigger] on_one_line(line, o - p, k);
        assert(b[p + k] == 96);
        assert(on_one_line(b, o, p + k)) by {
            assert forall|j: int| o <= j < p + k implies #[trigger] b[j] != 10 by {
                assert(line[j - p] == b[j]);
            }
        }
    }
    if tick_follows(b, o, end) {
        let k = choose|k: int| o < k < end && b[k] == 96 && #[trigger] on_one_line(b, o, k);
        assert(k < q) by {
            if k >= q {
                assert(b[q - 1] == 10);
            }
        }
        assert(line[k - p] == 96);
        assert(on_one_line(line, o - p, k - p));
    }
}

proof fn lemma_same_ticks(b: Seq<u8>, p: int, q: int, o: int)
    requires
        0 <= p <= o <= q <= b.len(),
    ensures
        ticks(b.subrange(p, q), 0, o - p) == ticks(b, p, o),
    decreases o - p,
{
    if p < o {
        lemma_same_ticks(b, p, q, o - 1);
    }
}

// ---------------------------------------------------------------------------
// Tags
// ---------------------------------------------------------------------------

/// A character of a tag name: `[A-Za-z0-9_/-]`.
pub open spec fn name_byte(x: u8) -> bool {
    65 <= x <= 90 || 97 <= x <= 122 || 48 <= x <= 57 || x == 95 || x == 47 || x == 45
}

/// `#` and a name: the bytes `b[o..e]`, where the name is as long as it can be before
/// `end`, and no number.
pub open spec fn hash_name(b: Seq<u8>, o: int, e: int, end: int) -> bool {
    &&& o + 1 < e <= end
    &&& b[o] == 35
    &&& forall|k: int| o < k < e ==> name_byte(#[trigger] b[k])
    &&& e < end ==> !name_byte(b[e])
    &&& exists|k: int| o < k < e && !(48 <= #[trigger] b[k] <= 57)
}

/// The tag that the bytes `b[o..e]` are.
pub open spec fn tag_span(o: int, e: int) -> TagSpan {
    TagSpan {
        span: Span { start: o as usize, end: e as usize },
        name: Span { start: (o + 1) as usize, end: e as usize },
    }
}

/// Whatever stands around it, `#name` is a tag of note `i` exactly where it stands in
/// running text of its body, outside inline code, at the start of a line or behind
/// white space. `p` is the start of its line.
pub proof fn law_hash_name_is_tag(b: Seq<u8>, i: int, p: int, o: int, e: int)
    requires
        b.len() <= usize::MAX,
        0 <= i < parser::notes_of(b).len(),
        parser::notes_of(b)[i].body.start <= p <= o < e <= parser::notes_of(b)[i].body.end,
        starts_line(b, p),
        on_one_line(b, p, o),
    ensures
        ({
            let from = parser::notes_of(b)[i].body.start as int;
            let end = parser::notes_of(b)[i].body.end as int;
            scan_laws::has_tag(parser::tags_of(b), i, tag_span(o, e)) <==> {
                &&& hash_name(b, o, e, end)
                &&& running(b, from, p, end)
                &&& !in_backticks(b, p, o, end)
                &&& o == p || b[o - 1] == 32 || b[o - 1] == 9 || b[o - 1] == 13
            }
        }),
{
    let t = tag_span(o, e);
    let from = parser::notes_of(b)[i].body.start as int;
    let end = parser::notes_of(b)[i].body.end as int;
    scan_laws::law_tags_are_found(b, i, t);
    lemma_body_starts_line(b, i);
    lemma_read(b, from, p, end, false, o);
    let q = parser::line_after(b, p, end);
    text::lemma_find_first(b, p, end, 10);
    assert(o < q) by {
        if o >= q {
            assert(b[q - 1] == 10);
        }
    }
    let line = b.subrange(p, q);
    let x = o - p;
    assert(line[x] == b[o]);
    if b[o] == 35 {
        lemma_ticks_in_line(b, p, q, o, end);
        assert(on_one_line(line, 0, x)) by {
            assert forall|k: int| 0 <= k < x implies #[trigger] line[k] != 10 by {
                assert(line[k] == b[p + k]);
            }
        }
        lemma_code_spans(line, 0, x);
        assert(parser::in_code(line, x) == spanned(parser::code_spans(line, 0), x));
        parser::lemma_tag_run(line, x + 1);
        let r = parser::tag_run(line, x + 1);
        if hash_name(b, o, e, end) {
            assert(r == e - p) by {
                if r < e - p {
                    assert(name_byte(b[p + r]));
                    if r < line.len() {
                        assert(line[r] == b[p + r]);
                    } else {
                        assert(b[q - 1] == 10);
                        assert(name_byte(b[q - 1]));
                    }
                } else if r > e - p {
                    assert(parser::is_tag_byte(line[e - p]));
                    assert(line[e - p] == b[e]);
                }
            }
            let k = choose|k: int| o < k < e && !(48 <= #[trigger] b[k] <= 57);
            assert(line[k - p] == b[k]);
            assert(parser::has_non_digit(line, x + 1, r));
        }
        if parser::has_non_digit(line, x + 1, r) && p + r == e {
            assert forall|k: int| o < k < e implies name_byte(#[trigger] b[k]) by {
                assert(line[k - p] == b[k]);
            }
            if e < end {
                if e < q {
                    assert(line[e - p] == b[e]);
                } else {
                    assert(b[q - 1] == 10);
                    assert(parser::is_tag_byte(line[r - 1]));
                }
            }
            let k = choose|k: int| x + 1 <= k < r && !parser::is_digit(#[trigger] line[k]);
            assert(b[p + k] == line[k]);
            assert(hash_name(b, o, e, end));
        }
        if o > p {
            assert(line[x - 1] == b[o - 1]);
        }
        if scan_laws::has_tag(parser::tags_of(b), i, t) {
            assert(scan_laws::tag_on(line, p, x) == t);
            assert(p + r == e);
        }
    }
}

/// There are no other tags: each is a `#` and its name in the body of its note, and they
/// come in file order, none twice.
pub proof fn law_tags_are_hash_names(s: Seq<char>, k: int)
    requires
        vstd::utf8::encode_utf8(s).len() <= usize::MAX,
        0 <= k < parser::tags_of(vstd::utf8::encode_utf8(s)).len(),
    ensures
        ({
            let b = vstd::utf8::encode_utf8(s);
            let (i, t) = parser::tags_of(b)[k];
            &&& i < parser::notes_of(b).len()
            &&& t == tag_span(t.span.start as int, t.span.end as int)
            &&& parser::notes_of(b)[i as int].body.start <= t.span.start < t.span.end
                <= parser::notes_of(b)[i as int].body.end
            &&& forall|j: int|
                0 <= j < k ==> (#[trigger] parser::tags_of(b)[j]).1.span.end <= t.span.start
        }),
{
    let b = vstd::utf8::encode_utf8(s);
    note_laws::law_tags_lie_in_notes(s, parser::notes_of(b).len() as int);
    let ts = parser::tags_of(b);
    assert(note_laws::tag_ok(
        b,
        ts[k].1,
        parser::notes_of(b)[ts[k].0 as int].body.start as int,
        parser::notes_of(b)[ts[k].0 as int].body.end as int,
    ));
}

// ---------------------------------------------------------------------------
// All tags of a file
// ---------------------------------------------------------------------------

/// Two names are the same, ASCII case aside.
pub open spec fn alike(x: Seq<u8>, y: Seq<u8>) -> bool {
    x.len() == y.len() && forall|k: int| 0 <= k < x.len() ==> small(#[trigger] x[k]) == small(y[k])
}

/// `x` comes before `y` in the alphabet, ASCII case aside.
pub open spec fn comes_before(x: Seq<u8>, y: Seq<u8>) -> bool {
    exists|k: int|
        #![trigger x.subrange(0, k)]
        0 <= k <= x.len() && k < y.len() && (forall|i: int|
            0 <= i < k ==> small(#[trigger] x[i]) == small(y[i])) && (k == x.len() || small(x[k])
            < small(y[k]))
}

/// The bytes of the name of tag `j` of a file.
pub open spec fn name_bytes(b: Seq<u8>, j: int) -> Seq<u8> {
    let n = parser::tags_of(b)[j].1.name;
    b.subrange(n.start as int, n.end as int)
}

proof fn lemma_alike(x: Seq<u8>, y: Seq<u8>)
    ensures
        words::lower_bytes(x) == words::lower_bytes(y) <==> alike(x, y),
{
    let p = words::lower_bytes(x);
    let q = words::lower_bytes(y);
    assert(p.len() == x.len() && q.len() == y.len());
    if p == q {
        assert forall|k: int| 0 <= k < x.len() implies small(#[trigger] x[k]) == small(y[k]) by {
            assert(p[k] == q[k]);
        }
    }
    if alike(x, y) {
        assert forall|k: int| 0 <= k < p.len() implies p[k] == q[k] by {
            assert(small(x[k]) == small(y[k]));
        }
        assert(p =~= q);
    }
}

/// The list of all tags: every tag of the file is in it under its name or one that differs
/// in case only, spelled as where it first occurs; no two are the same but for case; and
/// they are in alphabetical order.
pub proof fn law_all_tags(names: Seq<Seq<u8>>, b: Seq<u8>, i: int, j: int)
    requires
        index::tag_names(names, b, parser::tags_of(b), parser::tags_of(b).len() as int),
        0 <= i < names.len(),
        0 <= j < parser::tags_of(b).len(),
    ensures
        exists|k: int| 0 <= k < names.len() && alike(#[trigger] names[k], name_bytes(b, j)),
        exists|k: int|
            0 <= k < parser::tags_of(b).len() && #[trigger] name_bytes(b, k) == names[i]
                && forall|m: int| 0 <= m < k ==> !alike(#[trigger] name_bytes(b, m), names[i]),
        i + 1 < names.len() ==> comes_before(names[i], names[i + 1]) && !alike(
            names[i],
            names[i + 1],
        ),
{
    let tags = parser::tags_of(b);
    let n = tags.len() as int;
    assert forall|k: int| 0 <= k < n implies index::name_of(b, tags, k) == #[trigger] name_bytes(
        b,
        k,
    ) by {}
    assert(index::listed(names, b, tags, j));
    let k = choose|k: int|
        0 <= k < names.len() && words::lower_bytes(#[trigger] names[k]) == words::lower_bytes(
            index::name_of(b, tags, j),
        );
    lemma_alike(names[k], name_bytes(b, j));
    assert(alike(names[k], name_bytes(b, j)));
    assert(index::used(names, b, tags, n, i));
    let u = choose|u: int|
        0 <= u < n && index::first_use(b, tags, u) && #[trigger] index::name_of(b, tags, u)
            == names[i];
    assert(name_bytes(b, u) == names[i]);
    assert forall|m: int| 0 <= m < u implies !alike(#[trigger] name_bytes(b, m), names[i]) by {
        lemma_alike(name_bytes(b, m), names[i]);
        assert(words::lower_bytes(index::name_of(b, tags, m)) != words::lower_bytes(
            index::name_of(b, tags, u),
        ));
    }
    if i + 1 < names.len() {
        let x = names[i];
        let y = names[i + 1];
        let p = words::lower_bytes(x);
        let q = words::lower_bytes(y);
        assert(index::lex_less(p, q));
        let d = choose|d: int| #[trigger] index::differ_at(p, q, d);
        assert(x.subrange(0, d).len() == d);
        assert forall|m: int| 0 <= m < d implies small(#[trigger] x[m]) == small(y[m]) by {
            assert(p[m] == q[m]);
        }
        index::lemma_lex_less_irreflexive(p, q);
        lemma_alike(x, y);
    }
}

} // verus!
