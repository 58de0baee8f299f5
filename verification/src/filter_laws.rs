//! What a filter lists: the notes that meet every word of the query, newest first. A word
//! asks for a tag, a piece of the title, a date, or a piece of the body, ASCII case
//! aside.

use vstd::prelude::*;
use vstd::utf8::*;

use crate::commands;
use crate::date::{Date, Time};
use crate::parser;
use crate::text;
use crate::words;

verus! {

// ---------------------------------------------------------------------------
// Words
// ---------------------------------------------------------------------------

/// White space, as Unicode has it.
pub open spec fn spacing(c: char) -> bool {
    let x = c as u32;
    ||| 9 <= x <= 13
    ||| x == 32
    ||| x == 0x85
    ||| x == 0xa0
    ||| x == 0x1680
    ||| 0x2000 <= x <= 0x200a
    ||| x == 0x2028
    ||| x == 0x2029
    ||| x == 0x202f
    ||| x == 0x205f
    ||| x == 0x3000
}

proof fn lemma_spacing(c: char)
    ensures
        words::is_white(c) == spacing(c),
{
}

/// No white space in `s[i..j]`.
pub open spec fn solid(s: Seq<char>, i: int, j: int) -> bool {
    forall|k: int| i <= k < j ==> !spacing(#[trigger] s[k])
}

/// A word starts at `i`.
pub open spec fn word_starts(s: Seq<char>, i: int) -> bool {
    0 <= i < s.len() && !spacing(s[i]) && (i == 0 || spacing(s[i - 1]))
}

/// How many words start before `i`.
pub open spec fn words_before(s: Seq<char>, i: int) -> int
    decreases i,
{
    if i <= 0 {
        0
    } else {
        words_before(s, i - 1) + if word_starts(s, i - 1) {
            1int
        } else {
            0
        }
    }
}

/// The word `s[i..j]`: no white space in it, and nothing else around it.
pub open spec fn word_at(s: Seq<char>, i: int, j: int) -> bool {
    i < j <= s.len() && word_starts(s, i) && solid(s, i, j) && (j == s.len() || spacing(s[j]))
}

proof fn lemma_words_before_same(s: Seq<char>, i: int, j: int)
    requires
        0 <= i <= j <= s.len(),
        forall|k: int| i <= k < j ==> !#[trigger] word_starts(s, k),
    ensures
        words_before(s, i) == words_before(s, j),
    decreases j - i,
{
    if i < j {
        lemma_words_before_same(s, i, j - 1);
        assert(!word_starts(s, j - 1));
    }
}

proof fn lemma_words_from(s: Seq<char>, i: int)
    requires
        0 <= i <= s.len(),
        i == 0 || i == s.len() || spacing(s[i - 1]) || spacing(s[i]),
    ensures
        words_before(s, i) + words::words_from(s, i).len() == words_before(s, s.len() as int),
        forall|a: int, z: int|
            i <= a && #[trigger] word_at(s, a, z) ==> 0 <= words_before(s, a) - words_before(s, i)
                < words::words_from(s, i).len() && words::words_from(
                s,
                i,
            )[words_before(s, a) - words_before(s, i)] == s.subrange(a, z),
    decreases s.len() - i,
{
    assert forall|c: char| #[trigger] words::is_white(c) == spacing(c) by {
        lemma_spacing(c);
    }
    let ws = words::words_from(s, i);
    if i < s.len() {
        if spacing(s[i]) {
            lemma_words_from(s, i + 1);
            assert(words_before(s, i + 1) == words_before(s, i));
            assert forall|a: int, z: int| i <= a && #[trigger] word_at(s, a, z) implies 0
                <= words_before(s, a) - words_before(s, i) < ws.len() && ws[words_before(s, a)
                - words_before(s, i)] == s.subrange(a, z) by {
                assert(a != i);
                assert(word_at(s, a, z));
            }
        } else {
            let e = words::word_end(s, i + 1);
            words::lemma_word_end(s, i + 1);
            lemma_words_from(s, e);
            let rest = words::words_from(s, e);
            assert(ws =~= seq![s.subrange(i, e)] + rest);
            assert(word_starts(s, i));
            assert(words_before(s, i + 1) == words_before(s, i) + 1);
            assert forall|k: int| i + 1 <= k < e implies !#[trigger] word_starts(s, k) by {
                assert(!words::is_white(s[k - 1]));
            }
            lemma_words_before_same(s, i + 1, e);
            assert forall|a: int, z: int| i <= a && #[trigger] word_at(s, a, z) implies 0
                <= words_before(s, a) - words_before(s, i) < ws.len() && ws[words_before(s, a)
                - words_before(s, i)] == s.subrange(a, z) by {
                if a == i {
                    assert(z == e) by {
                        if z < e {
                            assert(spacing(s[z]));
                            assert(!words::is_white(s[z]));
                        } else if z > e {
                            assert(!spacing(s[e]));
                        }
                    }
                } else {
                    assert(a >= e) by {
                        if a < e {
                            assert(word_starts(s, a));
                        }
                    }
                    assert(word_at(s, a, z));
                    let k = words_before(s, a) - words_before(s, e);
                    assert(rest[k] == s.subrange(a, z));
                    assert(ws[k + 1] == rest[k]);
                }
            }
        }
    }
}

/// A query is split at white space: its words, in order, are the runs of other characters.
pub proof fn law_words(s: Seq<char>, i: int, j: int)
    ensures
        words::words(s).len() == words_before(s, s.len() as int),
        word_at(s, i, j) ==> words_before(s, i) < words::words(s).len()
            && words::words(s)[words_before(s, i)] == s.subrange(i, j),
{
    lemma_words_from(s, 0);
}

/// Words are solid.
proof fn lemma_words_solid(s: Seq<char>, i: int)
    requires
        0 <= i <= s.len(),
    ensures
        forall|k: int|
            0 <= k < words::words_from(s, i).len() ==> is_word(
                #[trigger] words::words_from(s, i)[k],
            ),
    decreases s.len() - i,
{
    assert forall|c: char| #[trigger] words::is_white(c) == spacing(c) by {
        lemma_spacing(c);
    }
    let ws = words::words_from(s, i);
    if i < s.len() {
        if spacing(s[i]) {
            lemma_words_solid(s, i + 1);
            assert(ws == words::words_from(s, i + 1));
        } else {
            let e = words::word_end(s, i + 1);
            words::lemma_word_end(s, i + 1);
            lemma_words_solid(s, e);
            let rest = words::words_from(s, e);
            let w = s.subrange(i, e);
            assert(ws =~= seq![w] + rest);
            assert forall|k: int| 0 <= k < ws.len() implies is_word(#[trigger] ws[k]) by {
                if k > 0 {
                    assert(ws[k] == rest[k - 1]);
                } else {
                    assert forall|x: int| 0 <= x < w.len() implies !spacing(#[trigger] w[x]) by {
                        assert(w[x] == s[i + x]);
                        if x > 0 {
                            assert(!words::is_white(s[i + x]));
                        }
                    }
                }
            }
        }
    } else {
        assert(ws.len() == 0);
    }
}

/// A word by itself.
pub open spec fn is_word(w: Seq<char>) -> bool {
    w.len() > 0 && solid(w, 0, w.len() as int)
}

proof fn lemma_trim_solid(s: Seq<char>)
    requires
        solid(s, 0, s.len() as int),
    ensures
        words::trim(s) == s,
{
    assert forall|c: char| #[trigger] words::is_white(c) == spacing(c) by {
        lemma_spacing(c);
    }
    if s.len() > 0 {
        assert(!spacing(s[0]));
        assert(!spacing(s[s.len() - 1]));
    }
}

// ---------------------------------------------------------------------------
// What a word asks for
// ---------------------------------------------------------------------------

/// `x` with an ASCII capital made small.
pub open spec fn small(x: u8) -> int {
    if 65 <= x <= 90 {
        x + 32
    } else {
        x as int
    }
}

/// `w` stands at `i` in `hay`, ASCII case aside.
pub open spec fn stands(hay: Seq<u8>, i: int, w: Seq<u8>) -> bool {
    &&& 0 <= i
    &&& i + w.len() <= hay.len()
    &&& forall|k: int| 0 <= k < w.len() ==> small(hay[i + k]) == small(#[trigger] w[k])
}

/// `w` stands somewhere in `hay`, ASCII case aside.
pub open spec fn holds(hay: Seq<u8>, w: Seq<u8>) -> bool {
    exists|i: int| #[trigger] stands(hay, i, w)
}

/// `w` opens with the characters of `p`.
pub open spec fn opens(w: Seq<char>, p: Seq<char>) -> bool {
    p.len() <= w.len() && forall|k: int| 0 <= k < p.len() ==> w[k] == #[trigger] p[k]
}

/// `w` from character `n` on, as bytes.
pub open spec fn rest_of(w: Seq<char>, n: int) -> Seq<u8> {
    encode_utf8(w.subrange(n, w.len() as int))
}

/// The bytes of a part of a note's header; none where it has no such part.
pub open spec fn part(b: Seq<u8>, s: Option<crate::spans::Span>) -> Seq<u8> {
    match s {
        Some(s) => b.subrange(s.start as int, s.end as int),
        None => Seq::empty(),
    }
}

/// Note `ni` has a tag of that name, ASCII case aside.
pub open spec fn carries(b: Seq<u8>, ni: int, name: Seq<u8>) -> bool {
    exists|k: int|
        0 <= k < parser::tags_of(b).len() && (#[trigger] parser::tags_of(b)[k]).0 == ni && {
            let t = parser::tags_of(b)[k].1.name;
            let own = b.subrange(t.start as int, t.end as int);
            own.len() == name.len() && stands(own, 0, name)
        }
}

/// A name in a list with commas: `w[i..j]`, from character `n` on.
pub open spec fn listed(w: Seq<char>, n: int, i: int, j: int) -> bool {
    &&& n <= i <= j <= w.len()
    &&& i == n || w[i - 1] == ','
    &&& j == w.len() || w[j] == ','
    &&& forall|k: int| i <= k < j ==> #[trigger] w[k] != ','
}

/// Note `ni` has one of the tags that the word lists behind `tag:`; a list without names
/// asks for none.
pub open spec fn meets_tags(b: Seq<u8>, ni: int, w: Seq<char>) -> bool {
    ||| forall|i: int, j: int| #[trigger] listed(w, 4, i, j) ==> i == j
    ||| exists|i: int, j: int|
        #[trigger] listed(w, 4, i, j) && i < j && carries(b, ni, encode_utf8(w.subrange(i, j)))
}

/// Note `ni` meets a word that asks for no date.
pub open spec fn meets(b: Seq<u8>, ni: int, w: Seq<char>) -> bool {
    let note = parser::notes_of(b)[ni];
    if opens(w, "tag:"@) {
        meets_tags(b, ni, w)
    } else if opens(w, "title:"@) {
        holds(part(b, note.title), rest_of(w, 6))
    } else {
        holds(
            b.subrange(note.body.start as int, note.body.end as int),
            encode_utf8(w),
        )
    }
}

/// A word that asks for a date.
pub open spec fn asks_date(w: Seq<char>) -> bool {
    opens(w, "date:"@)
}

/// The date of note `ni` begins as the word says.
pub open spec fn meets_date(b: Seq<u8>, ni: int, w: Seq<char>) -> bool {
    let p = rest_of(w, 5);
    let d = part(b, parser::notes_of(b)[ni].date);
    w.len() > 5 && p.len() <= d.len() && forall|k: int| 0 <= k < p.len() ==> d[k] == #[trigger] p[k]
}

/// Note `ni` meets all words but those for dates.
pub open spec fn meets_words(b: Seq<u8>, ni: int, ws: Seq<Seq<char>>) -> bool {
    forall|k: int| 0 <= k < ws.len() && !asks_date(#[trigger] ws[k]) ==> meets(b, ni, ws[k])
}

/// Note `ni` meets one of the words for dates, or there are none.
pub open spec fn meets_dates(b: Seq<u8>, ni: int, ws: Seq<Seq<char>>) -> bool {
    ||| forall|k: int| 0 <= k < ws.len() && asks_date(#[trigger] ws[k]) ==> ws[k].len() == 5
    ||| exists|k: int| 0 <= k < ws.len() && asks_date(#[trigger] ws[k]) && meets_date(b, ni, ws[k])
}

// ---------------------------------------------------------------------------
// Proofs about one word
// ---------------------------------------------------------------------------

proof fn lemma_opens(w: Seq<char>, p: Seq<char>)
    ensures
        text::begins_with(w, p) == opens(w, p),
{
    if opens(w, p) {
        assert(w.subrange(0, p.len() as int) =~= p);
    }
    if text::begins_with(w, p) {
        assert forall|k: int| 0 <= k < p.len() implies w[k] == #[trigger] p[k] by {
            assert(w.subrange(0, p.len() as int)[k] == p[k]);
        }
    }
}

proof fn lemma_prefixes(w: Seq<char>)
    ensures
        "tag:"@.len() == 4,
        "title:"@.len() == 6,
        "date:"@.len() == 5,
        text::begins_with(w, "tag:"@) == opens(w, "tag:"@),
        text::begins_with(w, "title:"@) == opens(w, "title:"@),
        text::begins_with(w, "date:"@) == opens(w, "date:"@),
        opens(w, "date:"@) ==> !opens(w, "tag:"@) && !opens(w, "title:"@),
{
    reveal_strlit("tag:");
    reveal_strlit("title:");
    reveal_strlit("date:");
    lemma_opens(w, "tag:"@);
    lemma_opens(w, "title:"@);
    lemma_opens(w, "date:"@);
    if opens(w, "date:"@) {
        assert(w[0] == "date:"@[0]);
        if opens(w, "tag:"@) {
            assert(w[0] == "tag:"@[0]);
        }
        if opens(w, "title:"@) {
            assert(w[0] == "title:"@[0]);
        }
    }
}

pub proof fn lemma_occurs(hay: Seq<u8>, i: int, w: Seq<u8>)
    ensures
        text::occurs_at(words::lower_bytes(hay), i, words::lower_bytes(w)) == stands(hay, i, w),
{
    let h = words::lower_bytes(hay);
    let l = words::lower_bytes(w);
    if stands(hay, i, w) {
        assert forall|k: int| 0 <= k < w.len() implies h[i + k] == l[k] by {
            assert(small(hay[i + k]) == small(w[k]));
        }
        assert(h.subrange(i, i + l.len()) =~= l);
    }
    if text::occurs_at(h, i, l) {
        assert forall|k: int| 0 <= k < w.len() implies small(hay[i + k]) == small(
            #[trigger] w[k],
        ) by {
            assert(h.subrange(i, i + l.len())[k] == l[k]);
        }
    }
}

proof fn lemma_holds(hay: Seq<u8>, w: Seq<char>)
    ensures
        text::contains_seq(words::lower_bytes(hay), encode_utf8(words::lower(w))) == holds(
            hay,
            encode_utf8(w),
        ),
{
    words::lemma_lower_bytes(w);
    let e = encode_utf8(w);
    assert forall|i: int| text::occurs_at(words::lower_bytes(hay), i, words::lower_bytes(e))
        == stands(hay, i, e) by {
        lemma_occurs(hay, i, e);
    }
    if holds(hay, e) {
        let i = choose|i: int| #[trigger] stands(hay, i, e);
        assert(text::occurs_at(words::lower_bytes(hay), i, words::lower_bytes(e)));
    }
    if text::contains_seq(words::lower_bytes(hay), words::lower_bytes(e)) {
        let i = choose|i: int|
            #[trigger] text::occurs_at(words::lower_bytes(hay), i, words::lower_bytes(e));
        assert(stands(hay, i, e));
    }
}

proof fn lemma_has_tag(b: Seq<u8>, ni: int, w: Seq<char>)
    ensures
        commands::has_tag(b, parser::tags_of(b), ni, words::lower(w)) == carries(
            b,
            ni,
            encode_utf8(w),
        ),
{
    let ts = parser::tags_of(b);
    let e = encode_utf8(w);
    words::lemma_lower_bytes(w);
    assert forall|k: int| 0 <= k < ts.len() implies (words::lower_bytes(
        (#[trigger] ts[k]).1.name.of(b),
    ) == words::lower_bytes(e)) == ({
        let t = ts[k].1.name;
        let own = b.subrange(t.start as int, t.end as int);
        own.len() == e.len() && stands(own, 0, e)
    }) by {
        let t = ts[k].1.name;
        let own = b.subrange(t.start as int, t.end as int);
        lemma_occurs(own, 0, e);
        let l = words::lower_bytes(own);
        if own.len() == e.len() {
            assert(l.subrange(0, l.len() as int) =~= l);
        }
    }
    if carries(b, ni, e) {
        let k = choose|k: int|
            0 <= k < ts.len() && (#[trigger] ts[k]).0 == ni && {
                let t = ts[k].1.name;
                let own = b.subrange(t.start as int, t.end as int);
                own.len() == e.len() && stands(own, 0, e)
            };
        assert(ts[k].0 == ni);
    }
    if commands::has_tag(b, ts, ni, words::lower(w)) {
        let k = choose|k: int|
            0 <= k < ts.len() && (#[trigger] ts[k]).0 == ni && words::lower_bytes(
                ts[k].1.name.of(b),
            ) == encode_utf8(words::lower(w));
        assert(ts[k].0 == ni);
    }
}

/// `p` is a name in the list `s`.
spec fn is_part(s: Seq<char>, from: int, p: Seq<char>) -> bool {
    exists|i: int, j: int| from <= i && #[trigger] listed(s, 0, i, j) && p == s.subrange(i, j)
}

proof fn lemma_pieces(s: Seq<char>, i: int)
    requires
        0 <= i <= s.len(),
        i == 0 || s[i - 1] == ',',
    ensures
        forall|k: int|
            0 <= k < words::pieces_from(s, i, ',').len() ==> is_part(
                s,
                i,
                #[trigger] words::pieces_from(s, i, ',')[k],
            ),
        forall|a: int, z: int|
            i <= a && #[trigger] listed(s, 0, a, z) ==> words::pieces_from(s, i, ',').contains(
                s.subrange(a, z),
            ),
    decreases s.len() - i,
{
    let ps = words::pieces_from(s, i, ',');
    let j = words::piece_end(s, i, ',');
    words::lemma_piece_end(s, i, ',');
    assert(listed(s, 0, i, j));
    let first = s.subrange(i, j);
    if j < s.len() {
        lemma_pieces(s, j + 1);
        let rest = words::pieces_from(s, j + 1, ',');
        assert(ps =~= seq![first] + rest);
        assert forall|k: int| 0 <= k < ps.len() implies is_part(s, i, #[trigger] ps[k]) by {
            if k > 0 {
                assert(ps[k] == rest[k - 1]);
                assert(is_part(s, j + 1, rest[k - 1]));
            }
        }
        assert forall|a: int, z: int| i <= a && #[trigger] listed(s, 0, a, z) implies ps.contains(
            s.subrange(a, z),
        ) by {
            let p = s.subrange(a, z);
            if a <= j {
                assert(a == i) by {
                    if a > i {
                        assert(s[a - 1] == ',');
                    }
                }
                assert(z == j) by {
                    if z > j {
                        assert(s[j] != ',');
                    } else if z < j {
                        assert(s[z] == ',');
                    }
                }
                assert(ps[0] == p);
            } else {
                assert(rest.contains(p));
                let k = choose|k: int| 0 <= k < rest.len() && rest[k] == p;
                assert(ps[k + 1] == p);
            }
        }
    } else {
        assert(ps =~= seq![first]);
        assert forall|a: int, z: int| i <= a && #[trigger] listed(s, 0, a, z) implies ps.contains(
            s.subrange(a, z),
        ) by {
            assert(a == i) by {
                if a > i {
                    assert(s[a - 1] == ',');
                }
            }
            assert(z == j) by {
                if z < j {
                    assert(s[z] == ',');
                }
            }
            assert(ps[0] == s.subrange(a, z));
        }
    }
}

/// The names of a group are the non-empty pieces, in small letters.
proof fn lemma_group(ps: Seq<Seq<char>>)
    requires
        forall|k: int|
            0 <= k < ps.len() ==> solid(#[trigger] ps[k], 0, ps[k].len() as int),
    ensures
        forall|k: int|
            0 <= k < ps.len() && (#[trigger] ps[k]).len() > 0 ==> commands::tag_group(ps).contains(
                words::lower(ps[k]),
            ),
        forall|g: int|
            0 <= g < commands::tag_group(ps).len() ==> from_piece(
                ps,
                #[trigger] commands::tag_group(ps)[g],
            ),
    decreases ps.len(),
{
    let all = commands::tag_group(ps);
    if ps.len() > 0 {
        let front = ps.drop_last();
        assert forall|k: int| 0 <= k < front.len() implies solid(
            #[trigger] front[k],
            0,
            front[k].len() as int,
        ) by {
            assert(front[k] == ps[k]);
        }
        lemma_group(front);
        let before = commands::tag_group(front);
        let p = ps.last();
        assert(p == ps[ps.len() - 1]);
        lemma_trim_solid(p);
        let t = words::lower(p);
        assert(t.len() == p.len());
        assert forall|k: int| 0 <= k < ps.len() && (#[trigger] ps[k]).len() > 0 implies all.contains(
            words::lower(ps[k]),
        ) by {
            if k < front.len() {
                assert(front[k] == ps[k]);
                assert(before.contains(words::lower(front[k])));
                let g = choose|g: int| 0 <= g < before.len() && before[g] == words::lower(front[k]);
                assert(all[g] == before[g]);
            } else {
                assert(all[before.len() as int] == t);
            }
        }
        assert forall|g: int| 0 <= g < all.len() implies from_piece(ps, #[trigger] all[g]) by {
            if g < before.len() {
                assert(all[g] == before[g]);
                assert(from_piece(front, before[g]));
                let k = choose|k: int|
                    0 <= k < front.len() && (#[trigger] front[k]).len() > 0 && before[g]
                        == words::lower(front[k]);
                assert(ps[k] == front[k]);
            } else {
                assert(ps[ps.len() - 1].len() > 0);
            }
        }
    }
}

/// `t` is a non-empty piece in small letters.
spec fn from_piece(ps: Seq<Seq<char>>, t: Seq<char>) -> bool {
    exists|k: int| 0 <= k < ps.len() && (#[trigger] ps[k]).len() > 0 && t == words::lower(ps[k])
}

proof fn lemma_listed_shift(w: Seq<char>, i: int, j: int)
    requires
        w.len() >= 4,
    ensures
        listed(w, 4, i + 4, j + 4) == listed(w.subrange(4, w.len() as int), 0, i, j),
{
    let s = w.subrange(4, w.len() as int);
    if listed(w, 4, i + 4, j + 4) {
        assert forall|k: int| i <= k < j implies #[trigger] s[k] != ',' by {
            assert(w[k + 4] != ',');
        }
    }
    if listed(s, 0, i, j) {
        assert forall|k: int| i + 4 <= k < j + 4 implies #[trigger] w[k] != ',' by {
            assert(s[k - 4] != ',');
        }
    }
}

/// The pieces of a word are solid.
proof fn lemma_pieces_solid(w: Seq<char>)
    requires
        is_word(w),
        w.len() >= 4,
    ensures
        ({
            let ps = words::pieces(w.subrange(4, w.len() as int), ',');
            forall|k: int| 0 <= k < ps.len() ==> solid(#[trigger] ps[k], 0, ps[k].len() as int)
        }),
{
    let s = w.subrange(4, w.len() as int);
    let ps = words::pieces(s, ',');
    lemma_pieces(s, 0);
    assert forall|k: int| 0 <= k < ps.len() implies solid(#[trigger] ps[k], 0, ps[k].len() as int) by {
        assert(is_part(s, 0, ps[k]));
        let (i, j) = choose|i: int, j: int|
            0 <= i && #[trigger] listed(s, 0, i, j) && ps[k] == s.subrange(i, j);
        assert forall|x: int| 0 <= x < ps[k].len() implies !spacing(#[trigger] ps[k][x]) by {
            assert(ps[k][x] == w[4 + i + x]);
        }
    }
}

/// A name of the group stands in the list.
proof fn lemma_name_listed(w: Seq<char>, x: int) -> (r: (int, int))
    requires
        is_word(w),
        w.len() >= 4,
        0 <= x < commands::tag_group(words::pieces(w.subrange(4, w.len() as int), ',')).len(),
    ensures
        listed(w, 4, r.0, r.1),
        r.0 < r.1,
        commands::tag_group(words::pieces(w.subrange(4, w.len() as int), ','))[x] == words::lower(
            w.subrange(r.0, r.1),
        ),
{
    let s = w.subrange(4, w.len() as int);
    let ps = words::pieces(s, ',');
    let g = commands::tag_group(ps);
    lemma_pieces(s, 0);
    lemma_pieces_solid(w);
    lemma_group(ps);
    assert(from_piece(ps, g[x]));
    let k = choose|k: int|
        0 <= k < ps.len() && (#[trigger] ps[k]).len() > 0 && g[x] == words::lower(ps[k]);
    assert(is_part(s, 0, ps[k]));
    let (i, j) = choose|i: int, j: int|
        0 <= i && #[trigger] listed(s, 0, i, j) && ps[k] == s.subrange(i, j);
    lemma_listed_shift(w, i, j);
    assert(w.subrange(i + 4, j + 4) =~= ps[k]);
    (i + 4, j + 4)
}

/// A name that stands in the list is one of the group.
proof fn lemma_listed_named(w: Seq<char>, i: int, j: int) -> (x: int)
    requires
        is_word(w),
        w.len() >= 4,
        listed(w, 4, i, j),
        i < j,
    ensures
        0 <= x < commands::tag_group(words::pieces(w.subrange(4, w.len() as int), ',')).len(),
        commands::tag_group(words::pieces(w.subrange(4, w.len() as int), ','))[x] == words::lower(
            w.subrange(i, j),
        ),
{
    let s = w.subrange(4, w.len() as int);
    let ps = words::pieces(s, ',');
    let g = commands::tag_group(ps);
    lemma_pieces(s, 0);
    lemma_pieces_solid(w);
    lemma_group(ps);
    lemma_listed_shift(w, i - 4, j - 4);
    let p = s.subrange(i - 4, j - 4);
    assert(listed(s, 0, i - 4, j - 4));
    assert(p =~= w.subrange(i, j));
    assert(ps.contains(p));
    let k = choose|k: int| 0 <= k < ps.len() && ps[k] == p;
    assert(ps[k].len() > 0);
    assert(g.contains(words::lower(ps[k])));
    choose|x: int| 0 <= x < g.len() && g[x] == words::lower(ps[k])
}

/// What a `tag:` word asks for.
proof fn lemma_tag_word(b: Seq<u8>, ni: int, w: Seq<char>)
    requires
        is_word(w),
        opens(w, "tag:"@),
    ensures
        ({
            let g = commands::tag_group(words::pieces(commands::after(w, "tag:"@), ','));
            meets_tags(b, ni, w) == (g.len() == 0 || commands::has_tag_of(
                b,
                parser::tags_of(b),
                ni,
                g,
            ))
        }),
{
    reveal_strlit("tag:");
    let s = w.subrange(4, w.len() as int);
    assert(commands::after(w, "tag:"@) == s);
    let g = commands::tag_group(words::pieces(s, ','));
    let ts = parser::tags_of(b);
    if g.len() == 0 {
        assert forall|i: int, j: int| #[trigger] listed(w, 4, i, j) implies i == j by {
            if i < j {
                let x = lemma_listed_named(w, i, j);
            }
        }
    } else {
        let (a, z) = lemma_name_listed(w, 0);
        assert(listed(w, 4, a, z) && a != z);
        if commands::has_tag_of(b, ts, ni, g) {
            let x = choose|x: int|
                0 <= x < g.len() && commands::has_tag(b, ts, ni, #[trigger] g[x]);
            let (i, j) = lemma_name_listed(w, x);
            lemma_has_tag(b, ni, w.subrange(i, j));
            assert(listed(w, 4, i, j));
        }
        if meets_tags(b, ni, w) {
            let (i, j) = choose|i: int, j: int|
                #[trigger] listed(w, 4, i, j) && i < j && carries(
                    b,
                    ni,
                    encode_utf8(w.subrange(i, j)),
                );
            let x = lemma_listed_named(w, i, j);
            lemma_has_tag(b, ni, w.subrange(i, j));
            assert(commands::has_tag(b, ts, ni, g[x]));
        }
    }
}

proof fn lemma_holds_all_push(hay: Seq<u8>, ts: Seq<Seq<char>>, t: Seq<char>)
    ensures
        commands::holds_all(hay, ts.push(t)) == (commands::holds_all(hay, ts)
            && text::contains_seq(words::lower_bytes(hay), encode_utf8(t))),
{
    let all = ts.push(t);
    if commands::holds_all(hay, all) {
        assert(all[ts.len() as int] == t);
        assert forall|i: int| 0 <= i < ts.len() implies text::contains_seq(
            words::lower_bytes(hay),
            encode_utf8(#[trigger] ts[i]),
        ) by {
            assert(all[i] == ts[i]);
        }
    }
    if commands::holds_all(hay, ts) && text::contains_seq(
        words::lower_bytes(hay),
        encode_utf8(t),
    ) {
        assert forall|i: int| 0 <= i < all.len() implies text::contains_seq(
            words::lower_bytes(hay),
            encode_utf8(#[trigger] all[i]),
        ) by {
            if i < ts.len() {
                assert(all[i] == ts[i]);
            }
        }
    }
}

proof fn lemma_empty_stands(hay: Seq<u8>, w: Seq<u8>)
    requires
        w.len() == 0,
    ensures
        holds(hay, w),
{
    assert(stands(hay, 0, w));
}

/// All groups of a query are satisfied.
spec fn groups_met(b: Seq<u8>, ni: int, gs: Seq<Seq<Seq<char>>>) -> bool {
    forall|i: int|
        0 <= i < gs.len() ==> commands::has_tag_of(b, parser::tags_of(b), ni, #[trigger] gs[i])
}

proof fn lemma_groups_push(b: Seq<u8>, ni: int, gs: Seq<Seq<Seq<char>>>, g: Seq<Seq<char>>)
    ensures
        groups_met(b, ni, gs.push(g)) == (groups_met(b, ni, gs) && commands::has_tag_of(
            b,
            parser::tags_of(b),
            ni,
            g,
        )),
{
    let all = gs.push(g);
    if groups_met(b, ni, all) {
        assert(all[gs.len() as int] == g);
        assert forall|i: int| 0 <= i < gs.len() implies commands::has_tag_of(
            b,
            parser::tags_of(b),
            ni,
            #[trigger] gs[i],
        ) by {
            assert(all[i] == gs[i]);
        }
    }
}

/// The terms of a query but its dates.
spec fn terms_met(b: Seq<u8>, ni: int, q: commands::QueryView) -> bool {
    let note = parser::notes_of(b)[ni];
    &&& groups_met(b, ni, q.tag_groups)
    &&& commands::holds_all(commands::opt_bytes(b, note.title), q.titles)
    &&& commands::holds_all(note.body.of(b), q.texts)
}

proof fn lemma_one_word(b: Seq<u8>, ni: int, q: commands::QueryView, w: Seq<char>)
    requires
        is_word(w),
    ensures
        ({
            let r = commands::with_token(q, w);
            let d = commands::opt_bytes(b, parser::notes_of(b)[ni].date);
            &&& terms_met(b, ni, r) == (terms_met(b, ni, q) && (asks_date(w) || meets(b, ni, w)))
            &&& (r.date_prefixes.len() == 0) == (q.date_prefixes.len() == 0 && !(asks_date(w)
                && w.len() > 5))
            &&& commands::begins_with_any(d, r.date_prefixes) == (commands::begins_with_any(
                d,
                q.date_prefixes,
            ) || (asks_date(w) && meets_date(b, ni, w)))
        }),
{
    let r = commands::with_token(q, w);
    let note = parser::notes_of(b)[ni];
    lemma_prefixes(w);
    if opens(w, "tag:"@) {
        lemma_tag_word(b, ni, w);
        let g = commands::tag_group(words::pieces(commands::after(w, "tag:"@), ','));
        lemma_groups_push(b, ni, q.tag_groups, g);
    } else if opens(w, "title:"@) {
        let t = w.subrange(6, w.len() as int);
        assert(solid(t, 0, t.len() as int)) by {
            assert forall|k: int| 0 <= k < t.len() implies !spacing(#[trigger] t[k]) by {
                assert(t[k] == w[k + 6]);
            }
        }
        lemma_trim_solid(t);
        assert(commands::after(w, "title:"@) == t);
        let l = words::lower(t);
        let hay = commands::opt_bytes(b, note.title);
        lemma_holds(hay, t);
        lemma_holds_all_push(hay, q.titles, l);
        if t.len() == 0 {
            lemma_empty_stands(hay, encode_utf8(t));
        }
    } else if opens(w, "date:"@) {
        let t = w.subrange(5, w.len() as int);
        assert(solid(t, 0, t.len() as int)) by {
            assert forall|k: int| 0 <= k < t.len() implies !spacing(#[trigger] t[k]) by {
                assert(t[k] == w[k + 5]);
            }
        }
        lemma_trim_solid(t);
        assert(commands::after(w, "date:"@) == t);
        let d = commands::opt_bytes(b, note.date);
        lemma_date_begins(d, encode_utf8(t));
        lemma_prefix_push(d, q.date_prefixes, t);
    } else {
        let hay = note.body.of(b);
        lemma_holds(hay, w);
        lemma_holds_all_push(hay, q.texts, words::lower(w));
    }
}

proof fn lemma_date_begins(d: Seq<u8>, p: Seq<u8>)
    ensures
        text::begins_with(d, p) == (p.len() <= d.len() && forall|k: int|
            0 <= k < p.len() ==> d[k] == #[trigger] p[k]),
{
    if text::begins_with(d, p) {
        assert forall|k: int| 0 <= k < p.len() implies d[k] == #[trigger] p[k] by {
            assert(d.subrange(0, p.len() as int)[k] == p[k]);
        }
    } else if p.len() <= d.len() && (forall|k: int| 0 <= k < p.len() ==> d[k] == #[trigger] p[k]) {
        assert(d.subrange(0, p.len() as int) =~= p);
    }
}

proof fn lemma_prefix_push(d: Seq<u8>, ps: Seq<Seq<char>>, p: Seq<char>)
    ensures
        commands::begins_with_any(d, ps.push(p)) == (commands::begins_with_any(d, ps)
            || text::begins_with(d, encode_utf8(p))),
{
    let all = ps.push(p);
    if commands::begins_with_any(d, ps) {
        let i = choose|i: int|
            0 <= i < ps.len() && text::begins_with(d, encode_utf8(#[trigger] ps[i]));
        assert(all[i] == ps[i]);
    }
    if text::begins_with(d, encode_utf8(p)) {
        assert(all[ps.len() as int] == p);
    }
    if commands::begins_with_any(d, all) {
        let i = choose|i: int|
            0 <= i < all.len() && text::begins_with(d, encode_utf8(#[trigger] all[i]));
        if i < ps.len() {
            assert(all[i] == ps[i]);
        }
    }
}

/// A date asked for is met.
spec fn some_date_met(b: Seq<u8>, ni: int, ws: Seq<Seq<char>>) -> bool {
    exists|k: int| 0 <= k < ws.len() && asks_date(#[trigger] ws[k]) && meets_date(b, ni, ws[k])
}

/// No date is asked for.
spec fn no_date(ws: Seq<Seq<char>>) -> bool {
    forall|k: int| 0 <= k < ws.len() && asks_date(#[trigger] ws[k]) ==> ws[k].len() == 5
}

proof fn lemma_query(b: Seq<u8>, ni: int, ws: Seq<Seq<char>>)
    requires
        forall|k: int| 0 <= k < ws.len() ==> is_word(#[trigger] ws[k]),
    ensures
        ({
            let q = commands::query_of(ws);
            let d = commands::opt_bytes(b, parser::notes_of(b)[ni].date);
            &&& terms_met(b, ni, q) == meets_words(b, ni, ws)
            &&& (q.date_prefixes.len() == 0) == no_date(ws)
            &&& commands::begins_with_any(d, q.date_prefixes) == some_date_met(b, ni, ws)
        }),
    decreases ws.len(),
{
    if ws.len() > 0 {
        let front = ws.drop_last();
        let w = ws.last();
        assert(w == ws[ws.len() - 1]);
        assert forall|k: int| 0 <= k < front.len() implies is_word(#[trigger] front[k]) by {
            assert(front[k] == ws[k]);
        }
        lemma_query(b, ni, front);
        lemma_one_word(b, ni, commands::query_of(front), w);
        lemma_opens(w, "date:"@);
        lemma_prefixes(w);
        assert(meets_words(b, ni, ws) == (meets_words(b, ni, front) && (asks_date(w) || meets(
            b,
            ni,
            w,
        )))) by {
            if meets_words(b, ni, ws) {
                assert forall|k: int| 0 <= k < front.len() && !asks_date(
                    #[trigger] front[k],
                ) implies meets(b, ni, front[k]) by {
                    assert(front[k] == ws[k]);
                }
            }
            if meets_words(b, ni, front) && (asks_date(w) || meets(b, ni, w)) {
                assert forall|k: int| 0 <= k < ws.len() && !asks_date(
                    #[trigger] ws[k],
                ) implies meets(b, ni, ws[k]) by {
                    if k < front.len() {
                        assert(front[k] == ws[k]);
                    }
                }
            }
        }
        assert(no_date(ws) == (no_date(front) && !(asks_date(w) && w.len() > 5))) by {
            if no_date(ws) {
                assert forall|k: int| 0 <= k < front.len() && asks_date(
                    #[trigger] front[k],
                ) implies front[k].len() == 5 by {
                    assert(front[k] == ws[k]);
                }
            }
            if no_date(front) && !(asks_date(w) && w.len() > 5) {
                assert forall|k: int| 0 <= k < ws.len() && asks_date(
                    #[trigger] ws[k],
                ) implies ws[k].len() == 5 by {
                    if k < front.len() {
                        assert(front[k] == ws[k]);
                    }
                }
            }
        }
        assert(some_date_met(b, ni, ws) == (some_date_met(b, ni, front) || (asks_date(w)
            && meets_date(b, ni, w)))) by {
            if some_date_met(b, ni, front) {
                let k = choose|k: int|
                    0 <= k < front.len() && asks_date(#[trigger] front[k]) && meets_date(
                        b,
                        ni,
                        front[k],
                    );
                assert(ws[k] == front[k]);
            }
            if some_date_met(b, ni, ws) {
                let k = choose|k: int|
                    0 <= k < ws.len() && asks_date(#[trigger] ws[k]) && meets_date(b, ni, ws[k]);
                if k < front.len() {
                    assert(front[k] == ws[k]);
                }
            }
        }
    } else {
        let q = commands::query_of(ws);
        assert(terms_met(b, ni, q));
    }
}

// ---------------------------------------------------------------------------
// Laws
// ---------------------------------------------------------------------------

/// A filter lists exactly the notes that meet all words of the query; of several dates one
/// is enough.
pub proof fn law_filter_lists(r: Seq<usize>, b: Seq<u8>, query: Seq<char>, ni: int)
    requires
        commands::is_filter_result(
            r,
            b,
            commands::query_of(words::words(query)),
            parser::notes_of(b).len() as int,
        ),
        parser::notes_of(b).len() <= usize::MAX,
        0 <= ni < parser::notes_of(b).len(),
    ensures
        r.contains(ni as usize) <==> meets_words(b, ni, words::words(query)) && meets_dates(
            b,
            ni,
            words::words(query),
        ),
{
    let ws = words::words(query);
    let q = commands::query_of(ws);
    lemma_words_solid(query, 0);
    lemma_query(b, ni, ws);
    assert(commands::note_matches(b, ni, q) == (terms_met(b, ni, q) && (q.date_prefixes.len() == 0
        || commands::begins_with_any(
        commands::opt_bytes(b, parser::notes_of(b)[ni].date),
        q.date_prefixes,
    ))));
    if r.contains(ni as usize) {
        let k = choose|k: int| 0 <= k < r.len() && r[k] == ni as usize;
        assert(commands::note_matches(b, r[k] as int, q));
    }
}

/// Free text is found whatever its case: the query that is one word, and asks for no tag,
/// title or date, lists the notes whose body holds it.
pub proof fn law_free_text(r: Seq<usize>, b: Seq<u8>, w: Seq<char>, ni: int)
    requires
        is_word(w),
        !opens(w, "tag:"@),
        !opens(w, "title:"@),
        !opens(w, "date:"@),
        commands::is_filter_result(
            r,
            b,
            commands::query_of(words::words(w)),
            parser::notes_of(b).len() as int,
        ),
        parser::notes_of(b).len() <= usize::MAX,
        0 <= ni < parser::notes_of(b).len(),
    ensures
        r.contains(ni as usize) <==> holds(
            b.subrange(
                parser::notes_of(b)[ni].body.start as int,
                parser::notes_of(b)[ni].body.end as int,
            ),
            encode_utf8(w),
        ),
{
    law_filter_lists(r, b, w, ni);
    law_words(w, 0, w.len() as int);
    let n = w.len() as int;
    assert(word_at(w, 0, n));
    assert forall|k: int| 1 <= k < n implies !#[trigger] word_starts(w, k) by {
        assert(!spacing(w[k - 1]));
    }
    lemma_words_before_same(w, 1, n);
    assert(word_starts(w, 0));
    assert(words_before(w, 1) == words_before(w, 0) + 1);
    assert(words_before(w, 0) == 0);
    let ws = words::words(w);
    assert(ws.len() == 1);
    assert(w.subrange(0, n) =~= w);
    assert(ws[0] == w);
}

/// A day comes before another, or there is none.
pub open spec fn older_day(x: Option<Date>, y: Option<Date>) -> bool {
    match (x, y) {
        (None, Some(_)) => true,
        (Some(x), Some(y)) => x.year < y.year || (x.year == y.year && x.month < y.month) || (x.year
            == y.year && x.month == y.month && x.day < y.day),
        _ => false,
    }
}

/// A time comes before another, or there is none.
pub open spec fn older_time(x: Option<Time>, y: Option<Time>) -> bool {
    match (x, y) {
        (None, Some(_)) => true,
        (Some(x), Some(y)) => x.hour < y.hour || (x.hour == y.hour && x.minute < y.minute),
        _ => false,
    }
}

/// The list is in order: the newer day first, on one day the later time, and of notes of
/// one time that which comes first in the file. No note is listed twice.
pub proof fn law_filter_order(r: Seq<usize>, b: Seq<u8>, query: Seq<char>, i: int, j: int)
    requires
        commands::is_filter_result(
            r,
            b,
            commands::query_of(words::words(query)),
            parser::notes_of(b).len() as int,
        ),
        0 <= i < j < r.len(),
    ensures
        ({
            let x = parser::notes_of(b)[r[i] as int];
            let y = parser::notes_of(b)[r[j] as int];
            let day = |n: crate::spans::NoteSpan| commands::day_in_span(b, n.date);
            let time = |n: crate::spans::NoteSpan| commands::time_in_span(b, n.time);
            &&& !older_day(day(x), day(y))
            &&& day(x) == day(y) ==> !older_time(time(x), time(y))
            &&& day(x) == day(y) && time(x) == time(y) ==> r[i] < r[j]
            &&& r[i] != r[j]
        }),
{
    assert(commands::listed_before(b, r[i] as int, r[j] as int));
}

} // verus!
