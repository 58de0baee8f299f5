//! What a search finds: every place of the query in the lines of the file, whatever its
//! case, each once, and in file order.

use vstd::prelude::*;
use vstd::utf8::*;

use crate::search;
use crate::spans;
use crate::text;
use crate::unicode;
use crate::wrap;

verus! {

/// The characters of `query` follow one another in `content` from character `i` on, case
/// aside.
pub open spec fn stands_at(content: Seq<char>, i: int, query: Seq<char>) -> bool {
    &&& 0 <= i
    &&& i + query.len() <= content.len()
    &&& forall|k: int|
        0 <= k < query.len() ==> unicode::folded_char(content[i + k]) == unicode::folded_char(
            #[trigger] query[k],
        )
}

/// The same ASCII character, or the same letter in the other case.
pub open spec fn same_ascii(x: char, y: char) -> bool {
    ||| x == y
    ||| 'A' <= x <= 'Z' && y as int == x as int + 32
    ||| 'A' <= y <= 'Z' && x as int == y as int + 32
}

/// Where a match of `n` characters at character `i` of line `l` stands: line, bytes before
/// it on the line, and its length in bytes.
pub open spec fn place_of(content: Seq<char>, l: int, i: int, n: int) -> (usize, usize, usize) {
    (
        l as usize,
        encode_utf8(content.subrange(0, i)).len() as usize,
        encode_utf8(content.subrange(i, i + n)).len() as usize,
    )
}

/// `w` is a place of the query before character `m` of line `l`.
pub open spec fn is_place(
    content: Seq<char>,
    l: int,
    query: Seq<char>,
    m: int,
    w: (usize, usize, usize),
) -> bool {
    exists|i: int|
        i < m && #[trigger] stands_at(content, i, query) && w == place_of(
            content,
            l,
            i,
            query.len() as int,
        )
}

/// `w` is a place of the query on one of the first `m` lines.
pub open spec fn is_place_in(b: Seq<u8>, query: Seq<char>, m: int, w: (usize, usize, usize)) -> bool {
    exists|l: int|
        0 <= l < m && #[trigger] is_place(
            wrap::line_chars(b, l),
            l,
            query,
            wrap::line_chars(b, l).len() as int,
            w,
        )
}

/// Of ASCII characters, those are alike that differ at most in case.
pub proof fn law_ascii_case(x: char, y: char)
    requires
        (x as u32) < 0x80,
        (y as u32) < 0x80,
    ensures
        unicode::folded_char(x) == unicode::folded_char(y) <==> same_ascii(x, y),
{
}

proof fn lemma_occurs(content: Seq<char>, i: int, query: Seq<char>)
    ensures
        text::occurs_at(unicode::folded(content), i, unicode::folded(query)) == stands_at(
            content,
            i,
            query,
        ),
{
    let f = unicode::folded(content);
    let q = unicode::folded(query);
    if stands_at(content, i, query) {
        assert(f.subrange(i, i + q.len()) =~= q);
    }
    if text::occurs_at(f, i, q) {
        assert forall|k: int| 0 <= k < query.len() implies unicode::folded_char(content[i + k])
            == unicode::folded_char(#[trigger] query[k]) by {
            assert(f.subrange(i, i + q.len())[k] == q[k]);
        }
    }
}

proof fn lemma_place(content: Seq<char>, l: int, i: int, n: int)
    requires
        0 <= i,
        0 <= n,
        i + n <= content.len(),
    ensures
        search::match_at(content, l, i, n) == place_of(content, l, i, n),
{
    assert(content.subrange(0, i + n) =~= content.subrange(0, i) + content.subrange(i, i + n));
    text::lemma_encode_concat(content.subrange(0, i), content.subrange(i, i + n));
}

/// Places on one line differ where the characters do.
proof fn lemma_places_differ(content: Seq<char>, l: int, i: int, j: int, n: int)
    requires
        0 <= i < j,
        0 <= n,
        j + n <= content.len(),
        encode_utf8(content).len() <= usize::MAX,
    ensures
        place_of(content, l, i, n).1 < place_of(content, l, j, n).1,
{
    text::lemma_byte_offset_monotone(content, i + 1, j);
    text::lemma_byte_offset_step(content, i);
    text::lemma_byte_offset_monotone(content, j, content.len() as int);
    text::lemma_byte_offset_ends(content);
}

/// What is found on one line before character `m`.
proof fn lemma_line(content: Seq<char>, l: int, query: Seq<char>, m: int)
    requires
        query.len() > 0,
        0 <= m <= content.len(),
        encode_utf8(content).len() <= usize::MAX,
        0 <= l <= usize::MAX,
    ensures
        ({
            let r = search::line_matches(content, l, unicode::folded(query), m);
            let n = query.len() as int;
            &&& forall|i: int|
                0 <= i < m && #[trigger] stands_at(content, i, query) ==> r.contains(
                    place_of(content, l, i, n),
                )
            &&& forall|k: int|
                0 <= k < r.len() ==> is_place(content, l, query, m, #[trigger] r[k])
            &&& forall|j: int, k: int|
                0 <= j < k < r.len() ==> (#[trigger] r[j]).1 < (#[trigger] r[k]).1
        }),
    decreases m,
{
    let q = unicode::folded(query);
    let n = query.len() as int;
    let r = search::line_matches(content, l, q, m);
    if m > 0 {
        lemma_line(content, l, query, m - 1);
        let before = search::line_matches(content, l, q, m - 1);
        lemma_occurs(content, m - 1, query);
        if stands_at(content, m - 1, query) {
            lemma_place(content, l, m - 1, n);
            let here = place_of(content, l, m - 1, n);
            assert(r == before.push(here));
            assert forall|i: int| 0 <= i < m && #[trigger] stands_at(
                content,
                i,
                query,
            ) implies r.contains(place_of(content, l, i, n)) by {
                if i == m - 1 {
                    assert(r[before.len() as int] == here);
                } else {
                    let w = place_of(content, l, i, n);
                    assert(before.contains(w));
                    let k = choose|k: int| 0 <= k < before.len() && before[k] == w;
                    assert(r[k] == w);
                }
            }
            assert forall|k: int| 0 <= k < r.len() implies is_place(
                content,
                l,
                query,
                m,
                #[trigger] r[k],
            ) by {
                if k < before.len() {
                    assert(r[k] == before[k]);
                    assert(is_place(content, l, query, m - 1, before[k]));
                } else {
                    assert(stands_at(content, m - 1, query));
                }
            }
            assert forall|j: int, k: int| 0 <= j < k < r.len() implies (#[trigger] r[j]).1 < (
            #[trigger] r[k]).1 by {
                assert(r[j] == before[j]);
                if k < before.len() {
                    assert(r[k] == before[k]);
                } else {
                    assert(is_place(content, l, query, m - 1, before[j]));
                    let i = choose|i: int|
                        i < m - 1 && #[trigger] stands_at(content, i, query) && before[j]
                            == place_of(content, l, i, n);
                    lemma_places_differ(content, l, i, m - 1, n);
                }
            }
        } else {
            assert(r == before);
            assert forall|k: int| 0 <= k < r.len() implies is_place(
                content,
                l,
                query,
                m,
                #[trigger] r[k],
            ) by {
                assert(is_place(content, l, query, m - 1, before[k]));
            }
        }
    }
}

/// What is found on the first `m` lines.
proof fn lemma_lines(b: Seq<u8>, query: Seq<char>, m: int)
    requires
        valid_utf8(b),
        b.len() <= usize::MAX,
        query.len() > 0,
        spans::line_starts(b).len() <= usize::MAX,
        0 <= m <= spans::line_starts(b).len(),
    ensures
        ({
            let r = search::matches_upto(b, unicode::folded(query), m);
            let n = query.len() as int;
            &&& forall|l: int, i: int|
                0 <= l < m && #[trigger] stands_at(wrap::line_chars(b, l), i, query)
                    ==> r.contains(place_of(wrap::line_chars(b, l), l, i, n))
            &&& forall|k: int| 0 <= k < r.len() ==> is_place_in(b, query, m, #[trigger] r[k])
            &&& forall|j: int, k: int|
                0 <= j < k < r.len() ==> (#[trigger] r[j]).0 < (#[trigger] r[k]).0 || (r[j].0
                    == r[k].0 && r[j].1 < r[k].1)
        }),
    decreases m,
{
    let q = unicode::folded(query);
    let n = query.len() as int;
    let r = search::matches_upto(b, q, m);
    if m > 0 {
        lemma_lines(b, query, m - 1);
        let c = wrap::line_chars(b, m - 1);
        wrap::lemma_line_valid(b, m - 1);
        spans::lemma_line_starts(b);
        lemma_line(c, m - 1, query, c.len() as int);
        let before = search::matches_upto(b, q, m - 1);
        let here = search::line_matches(c, m - 1, q, c.len() as int);
        assert(r == before + here);
        assert forall|l: int, i: int| 0 <= l < m && #[trigger] stands_at(
            wrap::line_chars(b, l),
            i,
            query,
        ) implies r.contains(place_of(wrap::line_chars(b, l), l, i, n)) by {
            let w = place_of(wrap::line_chars(b, l), l, i, n);
            if l == m - 1 {
                assert(here.contains(w));
                let k = choose|k: int| 0 <= k < here.len() && here[k] == w;
                assert(r[before.len() + k] == w);
            } else {
                assert(before.contains(w));
                let k = choose|k: int| 0 <= k < before.len() && before[k] == w;
                assert(r[k] == w);
            }
        }
        assert forall|k: int| 0 <= k < r.len() implies is_place_in(b, query, m, #[trigger] r[k]) by {
            if k < before.len() {
                assert(r[k] == before[k]);
                assert(is_place_in(b, query, m - 1, before[k]));
            } else {
                assert(r[k] == here[k - before.len()]);
                assert(is_place(c, m - 1, query, c.len() as int, here[k - before.len()]));
            }
        }
        assert forall|j: int, k: int| 0 <= j < k < r.len() implies (#[trigger] r[j]).0 < (
        #[trigger] r[k]).0 || (r[j].0 == r[k].0 && r[j].1 < r[k].1) by {
            let x = before.len();
            if k < x {
                assert(r[j] == before[j] && r[k] == before[k]);
            } else {
                assert(r[k] == here[k - x]);
                assert(is_place(c, m - 1, query, c.len() as int, here[k - x]));
                assert(r[k].0 == m - 1);
                if j < x {
                    assert(r[j] == before[j]);
                    assert(is_place_in(b, query, m - 1, before[j]));
                    assert(r[j].0 < m - 1);
                } else {
                    assert(r[j] == here[j - x]);
                    assert(is_place(c, m - 1, query, c.len() as int, here[j - x]));
                    assert(r[j].0 == m - 1);
                }
            }
        }
    }
}

/// Wherever the query stands in the text of a line, inside a word or not, there is a match
/// of exactly those characters.
pub proof fn law_every_place_is_found(b: Seq<u8>, query: Seq<char>, l: int, i: int)
    requires
        valid_utf8(b),
        b.len() <= usize::MAX,
        query.len() > 0,
        spans::line_starts(b).len() <= usize::MAX,
        0 <= l < spans::line_starts(b).len(),
        stands_at(wrap::line_chars(b, l), i, query),
    ensures
        search::matches_of(b, query).contains(
            place_of(wrap::line_chars(b, l), l, i, query.len() as int),
        ),
{
    lemma_lines(b, query, spans::line_starts(b).len() as int);
}

/// Nothing else is found: every match is a place of the query on some line.
pub proof fn law_only_places_are_found(b: Seq<u8>, query: Seq<char>, k: int)
    requires
        valid_utf8(b),
        b.len() <= usize::MAX,
        spans::line_starts(b).len() <= usize::MAX,
        0 <= k < search::matches_of(b, query).len(),
    ensures
        query.len() > 0,
        is_place_in(
            b,
            query,
            spans::line_starts(b).len() as int,
            search::matches_of(b, query)[k],
        ),
{
    lemma_lines(b, query, spans::line_starts(b).len() as int);
}

/// Matches come in file order, each once.
pub proof fn law_matches_in_order(b: Seq<u8>, query: Seq<char>, j: int, k: int)
    requires
        valid_utf8(b),
        b.len() <= usize::MAX,
        spans::line_starts(b).len() <= usize::MAX,
        0 <= j < k < search::matches_of(b, query).len(),
    ensures
        ({
            let x = search::matches_of(b, query)[j];
            let y = search::matches_of(b, query)[k];
            x.0 < y.0 || (x.0 == y.0 && x.1 < y.1)
        }),
{
    lemma_lines(b, query, spans::line_starts(b).len() as int);
}

/// The nearest match is the first one at or behind the cursor; where there is none the
/// search starts over with the first match of the file.
pub proof fn law_nearest_match(ms: Seq<(usize, usize, usize)>, line: int, byte: int)
    requires
        ms.len() > 0,
    ensures
        ({
            let r = search::nearest_from(ms, 0, line, byte);
            let behind = |m: (usize, usize, usize)| m.0 > line || (m.0 == line && m.1 >= byte);
            &&& 0 <= r < ms.len()
            &&& behind(ms[r]) || (r == 0 && forall|k: int|
                0 <= k < ms.len() ==> !behind(#[trigger] ms[k]))
            &&& behind(ms[r]) ==> forall|k: int| 0 <= k < r ==> !behind(#[trigger] ms[k])
        }),
{
    lemma_nearest(ms, 0, line, byte);
}

proof fn lemma_nearest(ms: Seq<(usize, usize, usize)>, i: int, line: int, byte: int)
    requires
        0 <= i <= ms.len(),
    ensures
        ({
            let r = search::nearest_from(ms, i, line, byte);
            let behind = |m: (usize, usize, usize)| m.0 > line || (m.0 == line && m.1 >= byte);
            if exists|k: int| i <= k < ms.len() && behind(#[trigger] ms[k]) {
                i <= r < ms.len() && behind(ms[r]) && forall|k: int|
                    i <= k < r ==> !behind(#[trigger] ms[k])
            } else {
                r == 0
            }
        }),
    decreases ms.len() - i,
{
    if i < ms.len() && !search::at_or_after(ms[i], line, byte) {
        lemma_nearest(ms, i + 1, line, byte);
    }
}

} // verus!
