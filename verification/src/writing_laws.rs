//! What is written into a file: the text of a note or todo that is added, line by line,
//! the line ending that a file uses, and text brought to one line ending.

use vstd::prelude::*;
use vstd::utf8::*;

use crate::capture_laws::lemma_scalar_bytes;
use crate::commands;
use crate::date;
use crate::date::DateTime;
use crate::filter_laws::spacing;
use crate::parser;
use crate::persistence;
use crate::text;
use crate::words;

verus! {

// ---------------------------------------------------------------------------
// Line endings
// ---------------------------------------------------------------------------

/// `\r\n` stands at `i`.
pub open spec fn crlf_at(s: Seq<char>, i: int) -> bool {
    0 <= i && i + 1 < s.len() && s[i] == '\r' && s[i + 1] == '\n'
}

/// `\r\n` stands somewhere.
pub open spec fn uses_crlf(s: Seq<char>) -> bool {
    exists|i: int| crlf_at(s, i)
}

/// `\r\n`, if that stands somewhere in `s`, else `\n`.
pub open spec fn break_of(s: Seq<char>) -> Seq<char> {
    if uses_crlf(s) {
        seq!['\r', '\n']
    } else {
        seq!['\n']
    }
}

proof fn lemma_crlf(s: Seq<char>)
    ensures
        text::contains_seq(encode_utf8(s), seq![13u8, 10u8]) <==> uses_crlf(s),
    decreases s.len(),
{
    let b = encode_utf8(s);
    let pat = seq![13u8, 10u8];
    if s.len() > 0 {
        let rest = s.drop_first();
        let e = encode_scalar(s[0] as u32);
        let after = encode_utf8(rest);
        lemma_crlf(rest);
        lemma_scalar_bytes(s[0]);
        assert(b == e + after);
        if rest.len() > 0 {
            lemma_scalar_bytes(rest[0]);
            assert(after == encode_scalar(rest[0] as u32) + encode_utf8(rest.drop_first()));
            assert(after[0] == encode_scalar(rest[0] as u32)[0]);
        }
        if text::contains_seq(b, pat) {
            let i = choose|i: int| #[trigger] text::occurs_at(b, i, pat);
            assert(b.subrange(i, i + 2)[0] == 13 && b.subrange(i, i + 2)[1] == 10);
            assert(b[i] == 13 && b[i + 1] == 10);
            if i < e.len() {
                assert(e[i] == 13);
                assert(s[0] == '\r');
                assert(after[0] == 10);
                assert(rest[0] == '\n');
                assert(crlf_at(s, 0));
            } else {
                assert(after.subrange(i - e.len(), i - e.len() + 2) =~= pat);
                assert(text::occurs_at(after, i - e.len(), pat));
                let j = choose|j: int| crlf_at(rest, j);
                assert(crlf_at(s, j + 1));
            }
        }
        if uses_crlf(s) {
            let i = choose|i: int| crlf_at(s, i);
            if i == 0 {
                assert(rest[0] == '\n');
                assert(b.subrange(0, 2) =~= pat);
                assert(text::occurs_at(b, 0, pat));
            } else {
                assert(crlf_at(rest, i - 1));
                let j = choose|j: int| #[trigger] text::occurs_at(after, j, pat);
                assert(b.subrange(j + e.len(), j + e.len() + 2) =~= after.subrange(j, j + 2));
                assert(text::occurs_at(b, j + e.len(), pat));
            }
        }
    } else {
        assert(b =~= Seq::<u8>::empty());
    }
}

proof fn lemma_break_texts()
    ensures
        "\r\n"@ == seq!['\r', '\n'],
        "\n"@ == seq!['\n'],
        encode_utf8("\r\n"@) == seq![13u8, 10u8],
        encode_utf8("\n"@) == seq![10u8],
{
    reveal_strlit("\r\n");
    reveal_strlit("\n");
    assert("\r\n"@ =~= seq!['\r', '\n']);
    assert("\n"@ =~= seq!['\n']);
    is_ascii_chars_encode_utf8("\r\n"@);
    is_ascii_chars_encode_utf8("\n"@);
    assert(encode_utf8("\r\n"@) =~= seq![13u8, 10u8]);
    assert(encode_utf8("\n"@) =~= seq![10u8]);
}

/// A file with one `\r\n` anywhere has that as its line ending, any other file `\n`.
pub proof fn law_line_ending(s: Seq<char>)
    ensures
        persistence::line_ending(s) == break_of(s),
        persistence::has_crlf(s) == uses_crlf(s),
{
    lemma_break_texts();
    lemma_crlf(s);
}

/// No line break in `s`.
pub open spec fn no_break(s: Seq<char>) -> bool {
    forall|k: int| 0 <= k < s.len() ==> #[trigger] s[k] != '\r' && s[k] != '\n'
}

proof fn lemma_rest(s: Seq<char>, n: int, i: int, le: Seq<char>)
    requires
        0 <= n <= s.len(),
        0 <= i,
    ensures
        persistence::normalised_from(s, n + i, le) == persistence::normalised_from(
            s.subrange(n, s.len() as int),
            i,
            le,
        ),
    decreases s.len() - n - i,
{
    let t = s.subrange(n, s.len() as int);
    if i < t.len() {
        assert(s[n + i] == t[i]);
        lemma_rest(s, n, i + 1, le);
        if i + 1 < t.len() {
            assert(s[n + i + 1] == t[i + 1]);
            lemma_rest(s, n, i + 2, le);
        }
    }
}

proof fn lemma_up_to(a: Seq<char>, s: Seq<char>, i: int, le: Seq<char>)
    requires
        0 <= i <= a.len() <= s.len(),
        s.subrange(0, a.len() as int) == a,
        no_break(a),
    ensures
        persistence::normalised_from(s, i, le) == a.subrange(i, a.len() as int)
            + persistence::normalised_from(s, a.len() as int, le),
    decreases a.len() - i,
{
    let n = a.len() as int;
    if i < n {
        lemma_up_to(a, s, i + 1, le);
        assert(s.subrange(0, n)[i] == s[i]);
        assert(a[i] == s[i]);
        assert(a.subrange(i, n) =~= seq![s[i]] + a.subrange(i + 1, n));
        assert(persistence::normalised_from(s, i, le) =~= a.subrange(i, n)
            + persistence::normalised_from(s, n, le));
    } else {
        assert(a.subrange(i, n) =~= Seq::<char>::empty());
        assert(persistence::normalised_from(s, i, le) =~= a.subrange(i, n)
            + persistence::normalised_from(s, n, le));
    }
}

/// Text without a line break stays as it is. Of a text with one, what stands before the
/// first break stays, the break, which is `\r\n`, `\n` or a `\r` alone, becomes `le`, and
/// what follows is brought to `le` in the same way.
pub proof fn law_normalised(a: Seq<char>, rest: Seq<char>, le: Seq<char>)
    requires
        no_break(a),
    ensures
        persistence::normalised_from(a, 0, le) == a,
        persistence::normalised_from(a + seq!['\n'] + rest, 0, le) == a + le
            + persistence::normalised_from(rest, 0, le),
        persistence::normalised_from(a + seq!['\r', '\n'] + rest, 0, le) == a + le
            + persistence::normalised_from(rest, 0, le),
        (rest.len() == 0 || rest[0] != '\n') ==> persistence::normalised_from(
            a + seq!['\r'] + rest,
            0,
            le,
        ) == a + le + persistence::normalised_from(rest, 0, le),
{
    let n = a.len() as int;
    assert(a.subrange(0, n) =~= a);
    lemma_up_to(a, a, 0, le);
    assert(a + Seq::<char>::empty() =~= a);
    let s = a + seq!['\n'] + rest;
    assert(s.subrange(0, n) =~= a);
    lemma_up_to(a, s, 0, le);
    assert(s.subrange(n + 1, s.len() as int) =~= rest);
    lemma_rest(s, n + 1, 0, le);
    assert(persistence::normalised_from(s, 0, le) =~= a + le + persistence::normalised_from(
        rest,
        0,
        le,
    ));
    let s = a + seq!['\r', '\n'] + rest;
    assert(s.subrange(0, n) =~= a);
    lemma_up_to(a, s, 0, le);
    assert(s.subrange(n + 2, s.len() as int) =~= rest);
    lemma_rest(s, n + 2, 0, le);
    assert(persistence::normalised_from(s, 0, le) =~= a + le + persistence::normalised_from(
        rest,
        0,
        le,
    ));
    if rest.len() == 0 || rest[0] != '\n' {
        let s = a + seq!['\r'] + rest;
        assert(s.subrange(0, n) =~= a);
        lemma_up_to(a, s, 0, le);
        assert(s.subrange(n + 1, s.len() as int) =~= rest);
        lemma_rest(s, n + 1, 0, le);
        if rest.len() > 0 {
            assert(s[n + 1] == rest[0]);
        }
        assert(persistence::normalised_from(s, 0, le) =~= a + le + persistence::normalised_from(
            rest,
            0,
            le,
        ));
    }
}

// ---------------------------------------------------------------------------
// Ends
// ---------------------------------------------------------------------------

/// Every character of `s` is white space.
pub open spec fn all_spacing(s: Seq<char>) -> bool {
    forall|k: int| 0 <= k < s.len() ==> spacing(#[trigger] s[k])
}

proof fn lemma_white()
    ensures
        forall|c: char| #[trigger] words::is_white(c) == spacing(c),
{
}

proof fn lemma_trim_start(lead: Seq<char>, s: Seq<char>)
    requires
        all_spacing(lead),
        s.len() == 0 || !spacing(s[0]),
    ensures
        words::trim_start(lead + s) == s,
    decreases lead.len(),
{
    lemma_white();
    let t = lead + s;
    if lead.len() > 0 {
        assert(t[0] == lead[0]);
        assert(t.drop_first() =~= lead.drop_first() + s);
        assert forall|k: int| 0 <= k < lead.drop_first().len() implies spacing(
            #[trigger] lead.drop_first()[k],
        ) by {
            assert(lead.drop_first()[k] == lead[k + 1]);
        }
        lemma_trim_start(lead.drop_first(), s);
    } else {
        assert(t =~= s);
    }
}

proof fn lemma_trim_end(s: Seq<char>, tail: Seq<char>)
    requires
        all_spacing(tail),
        s.len() == 0 || !spacing(s.last()),
    ensures
        words::trim_end(s + tail) == s,
    decreases tail.len(),
{
    lemma_white();
    let t = s + tail;
    if tail.len() > 0 {
        assert(t.last() == tail.last());
        assert(t.drop_last() =~= s + tail.drop_last());
        assert forall|k: int| 0 <= k < tail.drop_last().len() implies spacing(
            #[trigger] tail.drop_last()[k],
        ) by {
            assert(tail.drop_last()[k] == tail[k]);
        }
        lemma_trim_end(s, tail.drop_last());
    } else {
        assert(t =~= s);
    }
}

/// Trimming takes the white space off both ends and nothing else.
pub proof fn law_trim(lead: Seq<char>, s: Seq<char>, tail: Seq<char>)
    requires
        all_spacing(lead),
        all_spacing(tail),
        s.len() == 0 || (!spacing(s[0]) && !spacing(s.last())),
    ensures
        words::trim(lead + s + tail) == s,
        s.len() == 0 || words::trim_end(s + tail) == s,
        s.len() == 0 || words::trim_start(lead + s) == s,
{
    if s.len() > 0 {
        assert(lead + s + tail =~= lead + (s + tail));
        assert((s + tail)[0] == s[0]);
        lemma_trim_start(lead, s + tail);
        lemma_trim_start(lead, s);
        lemma_trim_end(s, tail);
    } else {
        let all = lead + s + tail;
        assert forall|k: int| 0 <= k < all.len() implies spacing(#[trigger] all[k]) by {
            if k < lead.len() {
                assert(all[k] == lead[k]);
            } else {
                assert(all[k] == tail[k - lead.len()]);
            }
        }
        assert(all + s =~= all);
        lemma_trim_start(all, s);
        assert(words::trim_end(s) == s);
    }
}

proof fn lemma_pieces_shift(s: Seq<char>, n: int, i: int, sep: char)
    requires
        0 <= n <= s.len(),
        0 <= i <= s.len() - n,
    ensures
        words::pieces_from(s, n + i, sep) == words::pieces_from(
            s.subrange(n, s.len() as int),
            i,
            sep,
        ),
    decreases s.len() - n - i,
{
    let t = s.subrange(n, s.len() as int);
    words::lemma_piece_end(s, n + i, sep);
    words::lemma_piece_end(t, i, sep);
    let j = words::piece_end(s, n + i, sep);
    let k = words::piece_end(t, i, sep);
    if j - n < k {
        assert(t[j - n] == s[j]);
    }
    if k < j - n {
        assert(s[n + k] == t[k]);
    }
    assert(t.subrange(i, k) =~= s.subrange(n + i, j));
    if j < s.len() {
        lemma_pieces_shift(s, n, k + 1, sep);
    }
}

/// A text without the separator is one piece; otherwise the first piece is what stands
/// before the first separator, and the others are the pieces of what stands behind it.
pub proof fn law_pieces(a: Seq<char>, rest: Seq<char>, sep: char)
    requires
        !a.contains(sep),
    ensures
        words::pieces(a, sep) == seq![a],
        words::pieces(a + seq![sep] + rest, sep) == seq![a] + words::pieces(rest, sep),
{
    let n = a.len() as int;
    words::lemma_piece_end(a, 0, sep);
    assert(words::piece_end(a, 0, sep) == n);
    assert(a.subrange(0, n) =~= a);
    let s = a + seq![sep] + rest;
    words::lemma_piece_end(s, 0, sep);
    let j = words::piece_end(s, 0, sep);
    if j < n {
        assert(a[j] == s[j]);
        assert(a.contains(sep));
    }
    assert(s[n] == sep);
    assert(j == n);
    assert(s.subrange(0, n) =~= a);
    assert(s.subrange(n + 1, s.len() as int) =~= rest);
    lemma_pieces_shift(s, n + 1, 0, sep);
}

// ---------------------------------------------------------------------------
// Numbers
// ---------------------------------------------------------------------------

/// The number that digits stand for, the first one counting most.
pub open spec fn number(s: Seq<char>) -> int
    decreases s.len(),
{
    if s.len() == 0 {
        0
    } else {
        number(s.drop_last()) * 10 + (s.last() as int - 48)
    }
}

/// A number is written in digits, without a zero in front, and they stand for it.
pub proof fn law_decimal(n: nat)
    ensures
        number(words::decimal(n)) == n,
        words::decimal(n).len() > 0,
        forall|k: int|
            0 <= k < words::decimal(n).len() ==> '0' <= #[trigger] words::decimal(n)[k] <= '9',
        n > 0 ==> words::decimal(n)[0] != '0',
    decreases n,
{
    reveal_with_fuel(number, 2);
    let s = words::decimal(n);
    if n < 10 {
        assert(s.drop_last() =~= Seq::<char>::empty());
    } else {
        law_decimal(n / 10);
        let before = words::decimal(n / 10);
        assert(s.drop_last() =~= before);
        assert forall|k: int| 0 <= k < s.len() implies '0' <= #[trigger] s[k] <= '9' by {
            if k < before.len() {
                assert(s[k] == before[k]);
            }
        }
        assert(s[0] == before[0]);
    }
}

// ---------------------------------------------------------------------------
// Adding
// ---------------------------------------------------------------------------

/// A line break of the file's own kind starts at `i`.
pub open spec fn break_at(s: Seq<char>, i: int) -> bool {
    if uses_crlf(s) {
        crlf_at(s, i)
    } else {
        0 <= i < s.len() && s[i] == '\n'
    }
}

/// From `i` on there are only line breaks.
pub open spec fn breaks_from(s: Seq<char>, i: int) -> bool {
    forall|k: int| i <= k < s.len() ==> #[trigger] s[k] == '\n' || s[k] == '\r'
}

/// Two line breaks stand at the end of `s`: an empty line.
pub open spec fn ends_in_empty_line(s: Seq<char>) -> bool {
    exists|i: int, j: int|
        i < j && #[trigger] break_at(s, i) && #[trigger] break_at(s, j) && breaks_from(s, i)
}

proof fn lemma_body_len(s: Seq<char>)
    ensures
        0 <= commands::body_len(s) <= s.len(),
        breaks_from(s, commands::body_len(s)),
        commands::body_len(s) > 0 ==> s[commands::body_len(s) - 1] != '\n' && s[commands::body_len(
            s,
        ) - 1] != '\r',
    decreases s.len(),
{
    if s.len() > 0 && (s.last() == '\n' || s.last() == '\r') {
        let t = s.drop_last();
        lemma_body_len(t);
        let n = commands::body_len(t);
        assert forall|k: int| n <= k < s.len() implies #[trigger] s[k] == '\n' || s[k] == '\r' by {
            if k < t.len() {
                assert(t[k] == s[k]);
            }
        }
        if n > 0 {
            assert(t[n - 1] == s[n - 1]);
        }
    }
}

proof fn lemma_count_endings(s: Seq<char>, i: int)
    requires
        0 <= i,
    ensures
        commands::count_endings(s, i, uses_crlf(s)) >= 0,
        commands::count_endings(s, i, uses_crlf(s)) >= 1 <==> exists|k: int|
            i <= k && #[trigger] break_at(s, k),
        commands::count_endings(s, i, uses_crlf(s)) >= 2 <==> exists|k: int, l: int|
            i <= k < l && #[trigger] break_at(s, k) && #[trigger] break_at(s, l),
    decreases s.len() - i,
{
    if i < s.len() {
        lemma_count_endings(s, i + 1);
        let here = break_at(s, i);
        let c = commands::count_endings(s, i + 1, uses_crlf(s));
        assert(commands::count_endings(s, i, uses_crlf(s)) == c + if here {
            1int
        } else {
            0
        });
        if here {
            if c >= 1 {
                let l = choose|l: int| i + 1 <= l && #[trigger] break_at(s, l);
                assert(break_at(s, i) && break_at(s, l));
            }
        }
        if exists|k: int, l: int| i <= k < l && #[trigger] break_at(s, k) && #[trigger] break_at(
            s,
            l,
        ) {
            let (k, l) = choose|k: int, l: int|
                i <= k < l && #[trigger] break_at(s, k) && #[trigger] break_at(s, l);
            assert(i + 1 <= l && break_at(s, l));
            if !here {
                assert(k != i);
            }
        }
        if exists|k: int| i <= k && #[trigger] break_at(s, k) {
            let k = choose|k: int| i <= k && #[trigger] break_at(s, k);
            if k == i {
                assert(here);
            } else {
                assert(i + 1 <= k);
            }
        }
    }
}

proof fn lemma_trailing(s: Seq<char>)
    ensures
        commands::trailing_endings(s) >= 2 <==> ends_in_empty_line(s),
{
    law_line_ending(s);
    let n = commands::body_len(s);
    lemma_body_len(s);
    lemma_count_endings(s, n);
    if ends_in_empty_line(s) {
        let (i, j) = choose|i: int, j: int|
            i < j && #[trigger] break_at(s, i) && #[trigger] break_at(s, j) && breaks_from(s, i);
        if i < n {
            assert(s[n - 1] == '\n' || s[n - 1] == '\r');
        }
        assert(n <= i);
    }
    if commands::trailing_endings(s) >= 2 {
        let (k, l) = choose|k: int, l: int|
            n <= k < l && #[trigger] break_at(s, k) && #[trigger] break_at(s, l);
        assert(breaks_from(s, k));
    }
}

/// What stands between the text of a file and a note or todo behind it: the break that
/// its last line lacks, and a break for an empty line if one is `asked` for.
pub open spec fn gap_behind(s: Seq<char>, asked: bool) -> Seq<char> {
    if s.len() == 0 {
        Seq::empty()
    } else {
        (if s.last() == '\n' {
            Seq::empty()
        } else {
            break_of(s)
        }) + (if asked {
            break_of(s)
        } else {
            Seq::empty()
        })
    }
}

/// The tags that a comma-separated list names, each with one `#`, in a row with single
/// spaces between.
pub open spec fn tag_row(ps: Seq<Seq<char>>) -> Seq<char>
    decreases ps.len(),
{
    if ps.len() == 0 {
        Seq::empty()
    } else {
        let rest = tag_row(ps.drop_first());
        let t = words::trim(ps[0]);
        if t.len() == 0 {
            rest
        } else {
            (if t[0] == '#' {
                t
            } else {
                seq!['#'] + t
            }) + (if rest.len() == 0 {
                rest
            } else {
                seq![' '] + rest
            })
        }
    }
}

proof fn lemma_tag_list_front(ps: Seq<Seq<char>>)
    requires
        ps.len() > 0,
    ensures
        commands::tag_list(ps) == commands::tag_list(seq![ps[0]]) + commands::tag_list(
            ps.drop_first(),
        ),
    decreases ps.len(),
{
    reveal_with_fuel(commands::tag_list, 2);
    if ps.len() == 1 {
        assert(ps =~= seq![ps[0]]);
        assert(ps.drop_first() =~= Seq::<Seq<char>>::empty());
        assert(commands::tag_list(ps) =~= commands::tag_list(seq![ps[0]]) + commands::tag_list(
            ps.drop_first(),
        ));
    } else {
        let front = ps.drop_last();
        lemma_tag_list_front(front);
        assert(front[0] == ps[0]);
        assert(ps.drop_first().drop_last() =~= front.drop_first());
        assert(ps.drop_first().last() == ps.last());
        assert(commands::tag_list(ps) =~= commands::tag_list(seq![ps[0]]) + commands::tag_list(
            ps.drop_first(),
        ));
    }
}

proof fn lemma_spaced_front(w: Seq<char>, ws: Seq<Seq<char>>)
    requires
        ws.len() > 0,
    ensures
        commands::spaced(seq![w] + ws) == w + seq![' '] + commands::spaced(ws),
    decreases ws.len(),
{
    reveal_strlit(" ");
    assert(" "@ =~= seq![' ']);
    let all = seq![w] + ws;
    assert(all.last() == ws.last());
    assert(all.drop_last() =~= seq![w] + ws.drop_last());
    if ws.len() == 1 {
        assert(ws.drop_last() =~= Seq::<Seq<char>>::empty());
        assert(all.drop_last() =~= seq![w]);
        assert(commands::spaced(seq![w]) == w);
        assert(commands::spaced(all) =~= w + seq![' '] + commands::spaced(ws));
    } else {
        lemma_spaced_front(w, ws.drop_last());
        assert(commands::spaced(all) =~= w + seq![' '] + commands::spaced(ws));
    }
}

proof fn lemma_tag_row(ps: Seq<Seq<char>>)
    ensures
        commands::spaced(commands::tag_list(ps)) == tag_row(ps),
        commands::tag_list(ps).len() == 0 <==> tag_row(ps).len() == 0,
    decreases ps.len(),
{
    reveal_strlit("#");
    assert("#"@ =~= seq!['#']);
    if ps.len() > 0 {
        reveal_with_fuel(commands::tag_list, 2);
        lemma_tag_row(ps.drop_first());
        lemma_tag_list_front(ps);
        let rest = commands::tag_list(ps.drop_first());
        let t = words::trim(ps[0]);
        let one = seq![ps[0]];
        assert(one.drop_last() =~= Seq::<Seq<char>>::empty());
        assert(one.last() == ps[0]);
        if t.len() == 0 {
            assert(commands::tag_list(one) =~= Seq::<Seq<char>>::empty());
            assert(commands::tag_list(ps) =~= rest);
        } else {
            let w = commands::hashed(t);
            assert(w.len() > 0);
            assert(commands::tag_list(one) =~= seq![w]);
            if rest.len() > 0 {
                lemma_spaced_front(w, rest);
                assert(tag_row(ps) =~= w + seq![' '] + commands::spaced(rest));
            } else {
                assert(commands::tag_list(ps) =~= seq![w]);
                assert(tag_row(ps) =~= w);
            }
        }
    }
}

/// What `--add` makes of a file. The text of the file stays in front. Behind it and, if
/// the file holds more than white space, an empty line stand the stamp, the text of the
/// note and the tags, each on its own line in the file's own line ending.
pub proof fn law_note_is_written(
    current: Seq<char>,
    note: Seq<char>,
    tags: Option<&str>,
    stamp: DateTime,
)
    ensures
        ({
            let le = break_of(current);
            let text = current + gap_behind(
                current,
                !all_spacing(current) && !ends_in_empty_line(current),
            ) + seq!['=', '=', '=', ' '] + date::datetime_text(stamp) + le + note + le;
            commands::with_note(current, note, tags, stamp) == match tags {
                Some(t) => if all_spacing(t@) {
                    text
                } else {
                    text + tag_row(words::pieces(t@, ',')) + le
                },
                None => text,
            }
        }),
{
    reveal_strlit("=== ");
    assert("=== "@ =~= seq!['=', '=', '=', ' ']);
    law_line_ending(current);
    lemma_break_texts();
    lemma_trailing(current);
    lemma_white_only(current);
    let le = break_of(current);
    let gap = gap_behind(current, !all_spacing(current) && !ends_in_empty_line(current));
    let head = "=== "@ + date::datetime_text(stamp);
    if current.len() > 0 {
        assert(commands::separator(
            current,
            !all_spacing(current) && !ends_in_empty_line(current),
        ) =~= gap);
    } else {
        assert(current + gap =~= current);
    }
    assert(current + gap + "=== "@ + date::datetime_text(stamp) =~= current + gap + head);
    if let Some(t) = tags {
        lemma_white_only(t@);
        lemma_tag_row(words::pieces(t@, ','));
    }
}

pub proof fn lemma_white_only(s: Seq<char>)
    ensures
        words::trim_end(s).len() == 0 <==> all_spacing(s),
        words::trim(s).len() == 0 <==> all_spacing(s),
{
    lemma_white();
    if all_spacing(s) {
        let e = Seq::<char>::empty();
        assert(e + s =~= s);
        assert(s + e =~= s);
        lemma_trim_end(e, s);
        lemma_trim_start(s, e);
    } else {
        lemma_end_kept(s);
        lemma_start_kept(s);
        lemma_end_kept(words::trim_start(s));
    }
}

proof fn lemma_end_kept(s: Seq<char>)
    requires
        !all_spacing(s),
    ensures
        words::trim_end(s).len() > 0,
    decreases s.len(),
{
    lemma_white();
    if s.len() > 0 && words::is_white(s.last()) {
        let k = choose|k: int| 0 <= k < s.len() && !spacing(#[trigger] s[k]);
        assert(s.drop_last()[k] == s[k]);
        lemma_end_kept(s.drop_last());
    }
}

proof fn lemma_start_kept(s: Seq<char>)
    requires
        !all_spacing(s),
    ensures
        !all_spacing(words::trim_start(s)),
    decreases s.len(),
{
    lemma_white();
    if s.len() > 0 && words::is_white(s[0]) {
        let k = choose|k: int| 0 <= k < s.len() && !spacing(#[trigger] s[k]);
        assert(s.drop_first()[k - 1] == s[k]);
        lemma_start_kept(s.drop_first());
    }
}

/// What `--todo --add` makes of a file: its text, an empty line, and the stamp and the
/// task behind `TODO:`, each on its own line in the file's own line ending.
pub proof fn law_todo_is_written(current: Seq<char>, task: Seq<char>, stamp: DateTime)
    ensures
        commands::with_todo(current, task, stamp) == current + gap_behind(
            current,
            !ends_in_empty_line(current),
        ) + seq!['=', '=', '=', ' '] + date::datetime_text(stamp) + break_of(current) + seq![
            'T',
            'O',
            'D',
            'O',
            ':',
            ' ',
        ] + task + break_of(current),
{
    reveal_strlit("=== ");
    reveal_strlit("TODO: ");
    assert("=== "@ =~= seq!['=', '=', '=', ' ']);
    assert("TODO: "@ =~= seq!['T', 'O', 'D', 'O', ':', ' ']);
    law_line_ending(current);
    lemma_break_texts();
    lemma_trailing(current);
    let gap = gap_behind(current, !ends_in_empty_line(current));
    if current.len() > 0 {
        assert(commands::separator(current, !ends_in_empty_line(current)) =~= gap);
    } else {
        assert(current + gap =~= current);
    }
    assert(current + gap + "=== "@ + date::datetime_text(stamp) =~= current + gap + ("=== "@
        + date::datetime_text(stamp)));
}

// ---------------------------------------------------------------------------
// Printing
// ---------------------------------------------------------------------------

/// What `--filter` prints of the notes in a list: the text of each, ended by a line break,
/// and an empty line.
pub open spec fn print_out(b: Seq<u8>, ms: Seq<usize>) -> Seq<u8>
    decreases ms.len(),
{
    if ms.len() == 0 {
        Seq::empty()
    } else {
        let n = parser::notes_of(b)[ms[0] as int].span;
        let t = b.subrange(n.start as int, n.end as int);
        t + (if t.len() > 0 && t.last() == 10 {
            seq![10u8]
        } else {
            seq![10u8, 10u8]
        }) + print_out(b, ms.drop_first())
    }
}

proof fn lemma_print_front(b: Seq<u8>, ms: Seq<usize>, k: int)
    requires
        1 <= k <= ms.len(),
    ensures
        commands::printed_notes(b, ms, k) == commands::printed_note(b, ms[0] as int)
            + commands::printed_notes(b, ms.drop_first(), k - 1),
    decreases k,
{
    reveal_with_fuel(commands::printed_notes, 2);
    if k > 1 {
        lemma_print_front(b, ms, k - 1);
        assert(ms.drop_first()[k - 2] == ms[k - 1]);
    }
    assert(commands::printed_notes(b, ms, k) =~= commands::printed_note(b, ms[0] as int)
        + commands::printed_notes(b, ms.drop_first(), k - 1));
}

/// The notes of a list are printed in its order, whole.
pub proof fn law_notes_are_printed(b: Seq<u8>, ms: Seq<usize>)
    ensures
        commands::printed_notes(b, ms, ms.len() as int) == print_out(b, ms),
    decreases ms.len(),
{
    if ms.len() > 0 {
        lemma_break_texts();
        lemma_print_front(b, ms, ms.len() as int);
        law_notes_are_printed(b, ms.drop_first());
        assert(commands::printed_notes(b, ms, ms.len() as int) =~= print_out(b, ms));
    }
}

} // verus!
