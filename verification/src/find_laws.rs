//! Going from match to match of a filter, and what its rows say of a note.

use vstd::prelude::*;
use vstd::utf8::*;

use crate::filter_laws::spacing;
use crate::filter_panel;
use crate::note_laws;
use crate::parser;
use crate::words;
use crate::writing_laws::{all_spacing, law_pieces, law_trim};

verus! {

// ---------------------------------------------------------------------------
// Jumping
// ---------------------------------------------------------------------------

/// Where the `k`-th note of a list starts.
pub open spec fn starts(b: Seq<u8>, list: Seq<usize>, k: int) -> int {
    parser::notes_of(b)[list[k] as int].span.start as int
}

proof fn lemma_start_after(b: Seq<u8>, list: Seq<usize>, c: int, k: int)
    requires
        0 <= k <= list.len(),
    ensures
        match filter_panel::start_after(b, list, c, k) {
            Some(t) => t > c && (exists|j: int| 0 <= j < k && #[trigger] starts(b, list, j) == t)
                && forall|j: int|
                0 <= j < k && #[trigger] starts(b, list, j) > c ==> starts(b, list, j) >= t,
            None => forall|j: int| 0 <= j < k ==> #[trigger] starts(b, list, j) <= c,
        },
    decreases k,
{
    if k > 0 {
        lemma_start_after(b, list, c, k - 1);
        assert(starts(b, list, k - 1) == filter_panel::note_start(b, list[k - 1] as int));
        if let Some(t) = filter_panel::start_after(b, list, c, k - 1) {
            let j = choose|j: int| 0 <= j < k - 1 && #[trigger] starts(b, list, j) == t;
            assert(starts(b, list, j) == t);
        }
    }
}

proof fn lemma_start_before(b: Seq<u8>, list: Seq<usize>, c: int, k: int)
    requires
        0 <= k <= list.len(),
    ensures
        match filter_panel::start_before(b, list, c, k) {
            Some(t) => t < c && (exists|j: int| 0 <= j < k && #[trigger] starts(b, list, j) == t)
                && forall|j: int|
                0 <= j < k && #[trigger] starts(b, list, j) < c ==> starts(b, list, j) <= t,
            None => forall|j: int| 0 <= j < k ==> #[trigger] starts(b, list, j) >= c,
        },
    decreases k,
{
    if k > 0 {
        lemma_start_before(b, list, c, k - 1);
        assert(starts(b, list, k - 1) == filter_panel::note_start(b, list[k - 1] as int));
        if let Some(t) = filter_panel::start_before(b, list, c, k - 1) {
            let j = choose|j: int| 0 <= j < k - 1 && #[trigger] starts(b, list, j) == t;
            assert(starts(b, list, j) == t);
        }
    }
}

/// The next match is the listed note that starts first behind the cursor; where none does,
/// the one that starts first in the file.
pub proof fn law_next_match(b: Seq<u8>, list: Seq<usize>, c: int)
    requires
        0 <= c,
    ensures
        match filter_panel::next_match(b, list, c) {
            Some(t) => {
                &&& exists|j: int| 0 <= j < list.len() && #[trigger] starts(b, list, j) == t
                &&& t > c ==> forall|j: int|
                    0 <= j < list.len() && c < #[trigger] starts(b, list, j) ==> t <= starts(
                        b,
                        list,
                        j,
                    )
                &&& t <= c ==> forall|j: int|
                    0 <= j < list.len() ==> t <= #[trigger] starts(b, list, j) <= c
            },
            None => list.len() == 0,
        },
{
    let n = list.len() as int;
    lemma_start_after(b, list, c, n);
    lemma_start_after(b, list, -1, n);
    if n > 0 {
        assert(starts(b, list, 0) >= 0);
    }
    assert forall|j: int| 0 <= j < n implies #[trigger] starts(b, list, j) > -1 by {}
}

/// The previous match is the listed note that starts last before the cursor; where none
/// does, the one that starts last in the file.
pub proof fn law_previous_match(s: Seq<char>, list: Seq<usize>, c: int)
    requires
        encode_utf8(s).len() <= usize::MAX,
        0 <= c <= encode_utf8(s).len(),
        forall|j: int|
            0 <= j < list.len() ==> (#[trigger] list[j]) < parser::notes_of(encode_utf8(s)).len(),
    ensures
        ({
            let b = encode_utf8(s);
            match filter_panel::prev_match(b, list, c) {
                Some(t) => {
                    &&& exists|j: int| 0 <= j < list.len() && #[trigger] starts(b, list, j) == t
                    &&& t < c ==> forall|j: int|
                        0 <= j < list.len() && #[trigger] starts(b, list, j) < c ==> starts(
                            b,
                            list,
                            j,
                        ) <= t
                    &&& t >= c ==> forall|j: int|
                        0 <= j < list.len() ==> c <= #[trigger] starts(b, list, j) <= t
                },
                None => list.len() == 0,
            }
        }),
{
    let b = encode_utf8(s);
    let n = list.len() as int;
    lemma_start_before(b, list, c, n);
    lemma_start_before(b, list, b.len() as int + 1, n);
    assert forall|j: int| 0 <= j < n implies #[trigger] starts(b, list, j) <= b.len() by {
        note_laws::law_note_spans_lie_in_file(s, list[j] as int);
    }
    if n > 0 {
        assert(starts(b, list, 0) <= b.len());
    }
}

// ---------------------------------------------------------------------------
// Rows
// ---------------------------------------------------------------------------

/// The first sixty characters of `t`, or all of it.
pub open spec fn sixty(t: Seq<char>) -> Seq<char> {
    if t.len() <= 60 {
        t
    } else {
        t.subrange(0, 60)
    }
}

proof fn lemma_first_text_shift(ps: Seq<Seq<char>>, qs: Seq<Seq<char>>, i: int)
    requires
        0 <= i <= qs.len(),
        ps.len() == qs.len() + 1,
        forall|k: int| 0 <= k < qs.len() ==> ps[k + 1] == #[trigger] qs[k],
    ensures
        filter_panel::first_text(ps, i + 1) == filter_panel::first_text(qs, i),
    decreases qs.len() - i,
{
    if i < qs.len() {
        assert(ps[i + 1] == qs[i]);
        lemma_first_text_shift(ps, qs, i + 1);
    }
}

/// The snippet of a note is the first line of its body that is not blank, without the
/// white space around it, as far as sixty characters; a blank line is passed over.
pub proof fn law_snippet(lead: Seq<char>, t: Seq<char>, tail: Seq<char>, rest: Seq<char>)
    requires
        all_spacing(lead),
        all_spacing(tail),
        t.len() > 0 ==> !spacing(t[0]) && !spacing(t.last()),
        !(lead + t + tail).contains('\n'),
    ensures
        filter_panel::snippet(lead + t + tail) == sixty(t),
        t.len() > 0 ==> filter_panel::snippet(lead + t + tail + seq!['\n'] + rest) == sixty(t),
        t.len() == 0 ==> filter_panel::snippet(lead + t + tail + seq!['\n'] + rest)
            == filter_panel::snippet(rest),
{
    let a = lead + t + tail;
    law_trim(lead, t, tail);
    law_pieces(a, rest, '\n');
    let one = seq![a];
    assert(one[0] == a);
    reveal_with_fuel(filter_panel::first_text, 2);
    if t.len() == 0 {
        assert(t =~= Seq::<char>::empty());
    }
    let ps = words::pieces(a + seq!['\n'] + rest, '\n');
    let qs = words::pieces(rest, '\n');
    assert(ps[0] == a);
    lemma_first_text_shift(ps, qs, 0);
}

} // verus!
