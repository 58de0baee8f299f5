//! What word wrap is for: words stay whole where they can, no row is wider than the
//! screen, and no row ends before it has to.

use vstd::prelude::*;

use crate::wrap;

verus! {

/// A space or a tab.
pub open spec fn gap(c: char) -> bool {
    c == ' ' || c == '\t'
}

/// No space or tab in `s[i..j]`.
pub open spec fn unbroken(s: Seq<char>, i: int, j: int) -> bool {
    forall|x: int| i <= x < j ==> !gap(#[trigger] s[x])
}

/// Cells that the characters `s[i..j]` take.
pub open spec fn cells_in(s: Seq<char>, i: int, j: int) -> int
    decreases j - i,
{
    if j <= i {
        0
    } else {
        cells_in(s, i, j - 1) + wrap::cells(s[j - 1])
    }
}

/// `s[i..j]` ends a word: a gap or the end of the line follows.
pub open spec fn word_ends(s: Seq<char>, j: int) -> bool {
    j == s.len() || (j < s.len() && gap(s[j]))
}

/// What is printed of a row that starts at `start` and ends at `end` is within the width.
pub open spec fn within(s: Seq<char>, start: int, end: int, width: int) -> bool {
    forall|x: int|
        start <= x < end && !gap(#[trigger] s[x]) ==> cells_in(s, start, x + 1) <= width
}

/// A row from `start` to `end`, before one that starts at `next`, takes all that fits: the
/// next word would go past the width; in the middle of a word, the next character would.
pub open spec fn filled(s: Seq<char>, start: int, end: int, next: int, width: int) -> bool {
    if end < next {
        forall|e: int|
            next < e && #[trigger] unbroken(s, next, e) && word_ends(s, e) ==> cells_in(
                s,
                start,
                e,
            ) > width
    } else {
        cells_in(s, start, end + 1) > width
    }
}

/// Every character takes one cell, or up to `most`, alone and among others.
pub open spec fn measured(s: Seq<char>, most: int) -> bool {
    &&& forall|x: int| 0 <= x < s.len() ==> 1 <= wrap::cells(#[trigger] s[x]) <= most
    &&& forall|i: int, j: int|
        0 <= i <= j <= s.len() ==> wrap::text_width(#[trigger] s.subrange(i, j)) == cells_in(
            s,
            i,
            j,
        )
}

/// Printable ASCII characters take one cell each.
pub proof fn law_ascii_is_measured(s: Seq<char>)
    requires
        forall|x: int| 0 <= x < s.len() ==> ' ' <= #[trigger] s[x] <= '~',
    ensures
        measured(s, 1),
{
    assert forall|i: int, j: int| 0 <= i <= j <= s.len() implies wrap::text_width(
        #[trigger] s.subrange(i, j),
    ) == cells_in(s, i, j) by {
        let t = s.subrange(i, j);
        assert forall|x: int| 0 <= x < t.len() implies ' ' <= #[trigger] t[x] <= '~' by {
            assert(t[x] == s[i + x]);
        }
        assert(wrap::is_narrow(t));
        lemma_cells_bounds(s, i, j, 1);
    }
}

proof fn lemma_cells_bounds(s: Seq<char>, i: int, j: int, most: int)
    requires
        forall|x: int| 0 <= x < s.len() ==> 1 <= wrap::cells(#[trigger] s[x]) <= most,
        0 <= i <= j <= s.len(),
    ensures
        j - i <= cells_in(s, i, j),
        most == 1 ==> cells_in(s, i, j) == j - i,
    decreases j - i,
{
    if i < j {
        lemma_cells_bounds(s, i, j - 1, most);
        assert(1 <= wrap::cells(s[j - 1]) <= most);
    }
}

proof fn lemma_cells_split(s: Seq<char>, i: int, j: int, k: int)
    requires
        0 <= i <= j <= k <= s.len(),
    ensures
        cells_in(s, i, k) == cells_in(s, i, j) + cells_in(s, j, k),
    decreases k - j,
{
    if j < k {
        lemma_cells_split(s, i, j, k - 1);
    }
}

proof fn lemma_cells_grow(s: Seq<char>, i: int, j: int, k: int)
    requires
        0 <= i <= j <= k <= s.len(),
    ensures
        cells_in(s, i, j) <= cells_in(s, i, k),
    decreases k - j,
{
    if j < k {
        lemma_cells_grow(s, i, j, k - 1);
        assert(wrap::cells(s[k - 1]) >= 0);
    }
}

/// What holds while a row is filled: `last` is the end of its last gap.
spec fn underway(s: Seq<char>, i: int, start: int, last: Option<int>) -> bool {
    &&& 0 <= start <= i <= s.len()
    &&& match last {
        Some(x) => start < x <= i && gap(s[x - 1]) && unbroken(s, x, i),
        None => unbroken(s, start, i),
    }
}

/// A row that is cut leaves the text whole where it can.
proof fn lemma_cut(s: Seq<char>, i: int, start: int, last: Option<int>)
    requires
        underway(s, i, start, last),
        i < s.len(),
        !gap(s[i]),
    ensures
        ({
            let cut = wrap::cut_at(start, last, i);
            let end = wrap::trim_blanks(s, start, cut);
            &&& start <= end <= cut <= i
            &&& start < i ==> start < cut
            &&& !gap(s[cut])
            &&& wrap::pass_blanks(s, cut) == cut
            &&& unbroken(s, cut, i)
            &&& end == cut ==> unbroken(s, start, cut) && cut == i
            &&& end < cut ==> gap(s[cut - 1])
            &&& end > start ==> !gap(s[end - 1])
        }),
{
    let cut = wrap::cut_at(start, last, i);
    wrap::lemma_trim_blanks(s, start, cut);
    lemma_trimmed(s, start, cut);
}

proof fn lemma_trimmed(s: Seq<char>, start: int, end: int)
    requires
        start <= end,
    ensures
        ({
            let e = wrap::trim_blanks(s, start, end);
            e > start ==> !gap(s[e - 1])
        }),
    decreases end - start,
{
    if start < end && gap(s[end - 1]) {
        lemma_trimmed(s, start, end - 1);
    }
}

proof fn lemma_words_whole(
    s: Seq<char>,
    width: int,
    i: int,
    start: int,
    last: Option<int>,
    used: int,
)
    requires
        underway(s, i, start, last),
    ensures
        ({
            let r = wrap::rows_from(s, width, i, start, last, used);
            &&& r.len() >= 1
            &&& r[0].0 == start
            &&& forall|k: int|
                0 <= k < r.len() - 1 && (#[trigger] r[k]).1 == r[k + 1].0 ==> unbroken(
                    s,
                    r[k].0,
                    r[k].1,
                )
        }),
    decreases s.len() - i,
{
    let r = wrap::rows_from(s, width, i, start, last, used);
    if i < s.len() {
        let c = s[i];
        if gap(c) {
            lemma_words_whole(s, width, i + 1, start, Some(i + 1), used + wrap::cells(c));
        } else if used + wrap::cells(c) > width {
            lemma_cut(s, i, start, last);
            let cut = wrap::cut_at(start, last, i);
            let end = wrap::trim_blanks(s, start, cut);
            let w = wrap::text_width(s.subrange(cut, i)) + wrap::cells(c);
            lemma_words_whole(s, width, i + 1, cut, None, w);
            let rest = wrap::rows_from(s, width, i + 1, cut, None, w);
            assert(r =~= seq![(start, end)] + rest);
            assert forall|k: int| 0 <= k < r.len() - 1 && (#[trigger] r[k]).1 == r[k
                + 1].0 implies unbroken(s, r[k].0, r[k].1) by {
                assert(r[k + 1] == rest[k]);
                if k > 0 {
                    assert(r[k] == rest[k - 1]);
                    assert(rest[k - 1 + 1] == rest[k]);
                }
            }
        } else {
            lemma_words_whole(s, width, i + 1, start, last, used + wrap::cells(c));
        }
    }
}

/// A word is cut only where it does not fit on a row of its own: where one row follows
/// another with no gap between them, the row that ends holds no gap at all.
pub proof fn law_words_stay_whole(s: Seq<char>, width: int, k: int)
    requires
        0 <= k < wrap::rows(s, width).len() - 1,
        wrap::rows(s, width)[k].1 == wrap::rows(s, width)[k + 1].0,
    ensures
        unbroken(s, wrap::rows(s, width)[k].0, wrap::rows(s, width)[k].1),
{
    lemma_words_whole(s, width, 0, 0, None, 0);
}

/// The first row of `rows_from` is within the width and filled.
proof fn lemma_first(
    s: Seq<char>,
    width: int,
    i: int,
    start: int,
    last: Option<int>,
    used: int,
)
    requires
        underway(s, i, start, last),
        used == cells_in(s, start, i),
        within(s, start, i, width),
    ensures
        ({
            let r = wrap::rows_from(s, width, i, start, last, used);
            &&& r.len() >= 1
            &&& r[0].0 == start
            &&& r[0].1 <= s.len()
            &&& within(s, start, r[0].1, width)
            &&& r.len() == 1 ==> r[0].1 == s.len()
            &&& r.len() > 1 ==> start <= r[0].1 <= r[1].0 < s.len() && filled(
                s,
                start,
                r[0].1,
                r[1].0,
                width,
            )
        }),
    decreases s.len() - i,
{
    let r = wrap::rows_from(s, width, i, start, last, used);
    if i < s.len() {
        let c = s[i];
        assert(cells_in(s, start, i + 1) == used + wrap::cells(c));
        if gap(c) {
            lemma_first(s, width, i + 1, start, Some(i + 1), used + wrap::cells(c));
        } else if used + wrap::cells(c) > width {
            lemma_cut(s, i, start, last);
            let cut = wrap::cut_at(start, last, i);
            let end = wrap::trim_blanks(s, start, cut);
            let w = wrap::text_width(s.subrange(cut, i)) + wrap::cells(c);
            lemma_words_whole(s, width, i + 1, cut, None, w);
            let rest = wrap::rows_from(s, width, i + 1, cut, None, w);
            assert(r =~= seq![(start, end)] + rest);
            assert(r[1] == rest[0]);
            if end < cut {
                assert forall|e: int| cut < e && #[trigger] unbroken(s, cut, e) && word_ends(
                    s,
                    e,
                ) implies cells_in(s, start, e) > width by {
                    assert(e > i) by {
                        if e <= i {
                            assert(gap(s[e]));
                        }
                    }
                    lemma_cells_grow(s, start, i + 1, e);
                }
            }
        } else {
            lemma_first(s, width, i + 1, start, last, used + wrap::cells(c));
        }
    }
}

/// The first row of a line, whatever its characters: it is within the width, and nothing
/// more of the text fits on it.
pub proof fn law_first_row(s: Seq<char>, width: int)
    requires
        width > 0,
    ensures
        ({
            let r = wrap::rows(s, width);
            &&& r[0].0 == 0
            &&& wrap::text_width(s) <= width ==> r.len() == 1
            &&& r.len() == 1 ==> r[0].1 == s.len()
            &&& s.len() > 0 && wrap::text_width(s) > width ==> within(s, 0, r[0].1, width)
            &&& r.len() > 1 ==> filled(s, 0, r[0].1, r[1].0, width)
        }),
{
    lemma_first(s, width, 0, 0, None, 0);
}

/// A row that starts at `start` can take any character: one of two cells needs two, and a
/// character that is no gap in front.
pub open spec fn roomy(s: Seq<char>, start: int, width: int, most: int) -> bool {
    &&& width > 0
    &&& most == 1 || (most == 2 && width >= 2 && (start < s.len() ==> !gap(s[start])))
}

/// What is carried over to the next row fits on it.
proof fn lemma_carried(
    s: Seq<char>,
    width: int,
    i: int,
    start: int,
    last: Option<int>,
    most: int,
)
    requires
        measured(s, most),
        roomy(s, start, width, most),
        underway(s, i, start, last),
        within(s, start, i, width),
        i < s.len(),
        !gap(s[i]),
    ensures
        within(s, wrap::cut_at(start, last, i), i + 1, width),
{
    lemma_cut(s, i, start, last);
    let cut = wrap::cut_at(start, last, i);
    assert forall|x: int| cut <= x < i + 1 && !gap(#[trigger] s[x]) implies cells_in(s, cut, x + 1)
        <= width by {
        lemma_cells_grow(s, cut, x + 1, i + 1);
        assert(wrap::cells(s[i]) <= most);
        assert(cells_in(s, cut, i + 1) == cells_in(s, cut, i) + wrap::cells(s[i]));
        if cut == i {
            assert(cells_in(s, cut, i) == 0);
        } else {
            assert(gap(s[cut - 1]));
            if most == 2 {
                assert(!gap(s[start]));
                assert(cut - 1 != start);
            }
            assert(!gap(s[i - 1]));
            assert(cells_in(s, start, i - 1 + 1) <= width);
            lemma_cells_split(s, start, cut, i);
            lemma_cells_bounds(s, start, cut, most);
        }
    }
}

/// All rows, where characters have their cells alone and among others.
proof fn lemma_all(s: Seq<char>, width: int, i: int, start: int, last: Option<int>, most: int)
    requires
        measured(s, most),
        roomy(s, start, width, most),
        underway(s, i, start, last),
        within(s, start, i, width),
    ensures
        ({
            let r = wrap::rows_from(s, width, i, start, last, cells_in(s, start, i));
            &&& r.len() >= 1
            &&& r[0].0 == start
            &&& forall|k: int|
                0 <= k < r.len() ==> 0 <= (#[trigger] r[k]).0 <= r[k].1 <= s.len() && within(
                    s,
                    r[k].0,
                    r[k].1,
                    width,
                )
            &&& forall|k: int|
                0 <= k < r.len() - 1 ==> filled(
                    s,
                    (#[trigger] r[k]).0,
                    r[k].1,
                    r[k + 1].0,
                    width,
                )
        }),
    decreases s.len() - i,
{
    let used = cells_in(s, start, i);
    let r = wrap::rows_from(s, width, i, start, last, used);
    if i < s.len() {
        let c = s[i];
        assert(cells_in(s, start, i + 1) == used + wrap::cells(c));
        if gap(c) {
            lemma_all(s, width, i + 1, start, Some(i + 1), most);
        } else if used + wrap::cells(c) > width {
            lemma_first(s, width, i, start, last, used);
            lemma_cut(s, i, start, last);
            lemma_carried(s, width, i, start, last, most);
            let cut = wrap::cut_at(start, last, i);
            let end = wrap::trim_blanks(s, start, cut);
            assert(wrap::text_width(s.subrange(cut, i)) == cells_in(s, cut, i));
            lemma_all(s, width, i + 1, cut, None, most);
            let rest = wrap::rows_from(s, width, i + 1, cut, None, cells_in(s, cut, i + 1));
            assert(r =~= seq![(start, end)] + rest);
            assert forall|k: int| 0 <= k < r.len() implies 0 <= (#[trigger] r[k]).0 <= r[k].1
                <= s.len() && within(s, r[k].0, r[k].1, width) by {
                if k > 0 {
                    assert(r[k] == rest[k - 1]);
                }
            }
            assert forall|k: int| 0 <= k < r.len() - 1 implies filled(
                s,
                (#[trigger] r[k]).0,
                r[k].1,
                r[k + 1].0,
                width,
            ) by {
                assert(r[k + 1] == rest[k]);
                if k > 0 {
                    assert(r[k] == rest[k - 1]);
                    assert(rest[k - 1 + 1] == rest[k]);
                }
            }
        } else {
            assert(within(s, start, i + 1, width));
            lemma_all(s, width, i + 1, start, last, most);
        }
    } else {
        assert(r =~= seq![(start, s.len() as int)]);
    }
}

/// On a line of characters of one cell each, no row is wider than the screen, and every
/// row but the last takes all that fits on it. The same holds with characters of two cells,
/// on a screen of at least two columns, unless the line starts with a gap.
pub proof fn law_rows_fit(s: Seq<char>, width: int, most: int, k: int)
    requires
        measured(s, most),
        roomy(s, 0, width, most),
        0 <= k < wrap::rows(s, width).len(),
    ensures
        ({
            let r = wrap::rows(s, width);
            &&& within(s, r[k].0, r[k].1, width)
            &&& k < r.len() - 1 ==> filled(s, r[k].0, r[k].1, r[k + 1].0, width)
        }),
{
    lemma_all(s, width, 0, 0, None, most);
    if s.len() == 0 || wrap::text_width(s) <= width {
        assert(s.subrange(0, s.len() as int) =~= s);
        assert forall|x: int| 0 <= x < s.len() && !gap(#[trigger] s[x]) implies cells_in(
            s,
            0,
            x + 1,
        ) <= width by {
            lemma_cells_grow(s, 0, x + 1, s.len() as int);
        }
    }
}

} // verus!
